use mac_cleaner::path::FilePath;
use mac_cleaner::rank::{rank, ScanItem};
use mac_cleaner::scan::{keep_top, scan};
use mac_cleaner::table::SizeTable;

fn item(name: &str, size: u64) -> ScanItem {
    ScanItem { path: FilePath::new(name.as_bytes().to_vec()), size, is_dir: false }
}

fn told(items: &[ScanItem]) -> Vec<(String, u64, bool)> {
    items.iter().map(|i| (i.path.display(), i.size, i.is_dir)).collect()
}

#[test]
fn the_largest_comes_first() {
    let ranked = rank(vec![item("a", 1), item("b", 30), item("c", 2), item("d", 7)]);
    let sizes: Vec<u64> = ranked.iter().map(|i| i.size).collect();
    assert_eq!(sizes, vec![30, 7, 2, 1]);
}

#[test]
fn equal_sizes_keep_their_order() {
    let ranked = rank(vec![item("a", 5), item("b", 9), item("c", 5), item("d", 9), item("e", 5)]);
    let names: Vec<String> = ranked.iter().map(|i| i.path.display()).collect();
    assert_eq!(names, vec!["b", "d", "a", "c", "e"]);
}

#[test]
fn ranking_is_a_stable_sort() {
    for n in 0..60u64 {
        let made = || -> Vec<ScanItem> {
            (0..n).map(|i| item(&i.to_string(), i * 7919 % 11)).collect()
        };
        let mut expected = made();
        expected.sort_by(|a, b| b.size.cmp(&a.size));
        assert_eq!(told(&rank(made())), told(&expected));
    }
}

#[test]
fn a_row_is_kept_for_each_path() {
    let path = |text: &str| FilePath::new(text.as_bytes().to_vec());
    let mut table = SizeTable::new();
    table.credit(path("/r/a"), 5);
    table.credit(path("/r/b"), 0);
    table.credit(path("/r//a/"), 7);
    table.credit(path("/r/c"), 9);
    assert_eq!(table.len(), 3);
    assert_eq!((table.path(0).display().as_str(), table.size(0)), ("/r/a", 12));
    assert_eq!((table.path(1).display().as_str(), table.size(1)), ("/r/b", 0));
    assert_eq!((table.path(2).display().as_str(), table.size(2)), ("/r/c", 9));
}

#[test]
fn rows_become_ranked_items() {
    let path = |text: &str| FilePath::new(text.as_bytes().to_vec());
    let mut table = SizeTable::new();
    table.credit(path("/r/a"), 5);
    table.credit(path("/r/b"), 9);
    let items = scan(&table, &vec![true, false]);
    assert_eq!(
        told(&items),
        vec![("/r/b".to_string(), 9, false), ("/r/a".to_string(), 5, true)]
    );
}

#[test]
fn only_the_top_is_kept() {
    let made = || vec![item("a", 3), item("b", 2), item("c", 1)];
    assert_eq!(told(&keep_top(made(), 2)), told(&made()[..2]));
    assert_eq!(told(&keep_top(made(), 3)), told(&made()));
    assert_eq!(told(&keep_top(made(), 20)), told(&made()));
    assert!(keep_top(made(), 0).is_empty());
}
