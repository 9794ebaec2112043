use mac_cleaner::path::FilePath;
use mac_cleaner::scan::{scan, scan_children};
use mac_cleaner::walk::{DirEntry, Edition, EntryKind, Walk};

enum Node {
    File(u64),
    Folder(Vec<(&'static str, Node)>),
    Locked,
    Link,
    Other,
    Unknown,
}

fn path(text: &str) -> FilePath {
    FilePath::new(text.as_bytes().to_vec())
}

fn kind(node: &Node) -> EntryKind {
    match node {
        Node::File(size) => EntryKind::File(*size),
        Node::Folder(_) | Node::Locked => EntryKind::Folder,
        Node::Link => EntryKind::Link,
        Node::Other => EntryKind::Other,
        Node::Unknown => EntryKind::Unknown,
    }
}

fn listing(tree: &Node, names: &[Vec<u8>]) -> Option<Vec<DirEntry>> {
    match tree {
        Node::Folder(entries) => {
            if names.is_empty() {
                let listed = entries
                    .iter()
                    .map(|(name, node)| DirEntry::new(name.as_bytes().to_vec(), kind(node)).unwrap())
                    .collect();
                Some(listed)
            } else {
                let (_, inner) =
                    entries.iter().find(|(name, _)| name.as_bytes() == &names[0][..]).unwrap();
                listing(inner, &names[1..])
            }
        }
        _ => None,
    }
}

/// Drives a walk over a tree and gives the counts that it reported.
fn drive(walk: &mut Walk, root: &FilePath, tree: &Node) -> Vec<u64> {
    let skip = root.parts().len();
    let mut notices = vec![];
    while !walk.is_over() {
        let wanted = walk.wanted().cloned();
        match wanted {
            Some(dir) => {
                let found = listing(tree, &dir.parts()[skip..]);
                assert!(walk.fits(&found));
                walk.supply(found);
            }
            None => {
                if let Some(count) = walk.advance() {
                    notices.push(count);
                }
            }
        }
    }
    notices
}

fn visited(tree: &Node, depth: usize) -> (Vec<(String, u64)>, u64) {
    let root = path("/r");
    let mut walk = Walk::visit(root.clone(), depth, Edition::List);
    drive(&mut walk, &root, tree);
    let total = walk.total();
    let table = walk.into_sizes();
    let rows = (0..table.len()).map(|i| (table.path(i).display(), table.size(i))).collect();
    (rows, total)
}

fn row(name: &str, size: u64) -> (String, u64) {
    (name.to_string(), size)
}

fn sample() -> Node {
    Node::Folder(vec![
        ("a", Node::Folder(vec![
            ("one", Node::File(10)),
            ("deep", Node::Folder(vec![
                ("two", Node::File(200)),
                ("deeper", Node::Folder(vec![("three", Node::File(3000))])),
                ("alias", Node::Link),
            ])),
        ])),
        ("b", Node::File(40000)),
        ("empty", Node::Folder(vec![])),
        ("locked", Node::Locked),
        ("alias", Node::Link),
        ("pipe", Node::Other),
        ("lost", Node::Unknown),
    ])
}

#[test]
fn without_folders_at_the_limit_a_child_is_credited_with_all_it_holds() {
    for depth in [0, 4, 5, 100] {
        let (rows, total) = visited(&sample(), depth);
        assert_eq!(rows, vec![row("/r/a", 3210), row("/r/b", 40000)]);
        assert_eq!(total, 43210);
    }
}

#[test]
fn at_depth_two_folders_are_grouped_one_level_deeper() {
    let (rows, total) = visited(&sample(), 2);
    assert_eq!(rows, vec![row("/r/a", 10), row("/r/a/deep", 3200), row("/r/b", 40000)]);
    assert_eq!(total, 43210);
}

#[test]
fn at_depth_three_folders_are_grouped_two_levels_deeper() {
    let (rows, _) = visited(&sample(), 3);
    assert_eq!(
        rows,
        vec![row("/r/a", 210), row("/r/a/deep/deeper", 3000), row("/r/b", 40000)]
    );
}

#[test]
fn a_scan_at_depth_two_lists_the_folder_at_the_limit() {
    let file = Node::Folder(vec![("f", Node::File(10))]);
    let tree = Node::Folder(vec![("a", Node::Folder(vec![("b", file)]))]);
    let root = path("/r");
    let mut walk = Walk::visit(root.clone(), 2, Edition::List);
    drive(&mut walk, &root, &tree);
    let items = scan(&walk.into_sizes(), &vec![true]);
    let told: Vec<(String, u64, bool)> =
        items.iter().map(|i| (i.path.display(), i.size, i.is_dir)).collect();
    assert_eq!(told, vec![("/r/a/b".to_string(), 10, true)]);
}

#[test]
fn at_depth_one_every_folder_makes_a_row() {
    let (rows, total) = visited(&sample(), 1);
    assert_eq!(
        rows,
        vec![row("/r/a", 3210), row("/r/b", 40000), row("/r/empty", 0), row("/r/locked", 0)]
    );
    assert_eq!(total, 43210);
}

#[test]
fn a_folder_at_the_limit_makes_a_row_even_if_empty() {
    let tree = Node::Folder(vec![("x", Node::Folder(vec![("y", Node::Folder(vec![]))]))]);
    assert_eq!(visited(&tree, 2).0, vec![row("/r/x/y", 0)]);
    assert_eq!(visited(&tree, 1).0, vec![row("/r/x", 0)]);
    assert!(visited(&tree, 3).0.is_empty());
}

#[test]
fn the_rows_add_up_to_the_total() {
    for depth in 0..6 {
        let (rows, total) = visited(&sample(), depth);
        assert_eq!(rows.iter().map(|r| r.1).sum::<u64>(), total);
    }
}

#[test]
fn at_every_depth_the_rows_under_a_child_add_up_to_it() {
    for depth in 0..6 {
        let (rows, _) = visited(&sample(), depth);
        let under: u64 =
            rows.iter().filter(|r| path(&r.0).starts_with(&path("/r/a"))).map(|r| r.1).sum();
        assert_eq!(under, 3210);
    }
}

#[test]
fn no_path_has_two_rows() {
    for depth in 0..6 {
        let (rows, _) = visited(&sample(), depth);
        for (i, a) in rows.iter().enumerate() {
            assert!(rows[i + 1..].iter().all(|b| !path(&a.0).same(&path(&b.0))));
        }
    }
}

#[test]
fn an_unreadable_root_gives_nothing() {
    let (rows, total) = visited(&Node::Locked, 2);
    assert!(rows.is_empty());
    assert_eq!(total, 0);
}

#[test]
fn a_scan_ranks_the_rows() {
    let root = path("/r");
    let mut walk = Walk::visit(root.clone(), 1, Edition::Browser);
    drive(&mut walk, &root, &sample());
    let table = walk.into_sizes();
    let items = scan(&table, &vec![true, false, true, true]);
    let told: Vec<(String, u64, bool)> =
        items.iter().map(|i| (i.path.display(), i.size, i.is_dir)).collect();
    assert_eq!(
        told,
        vec![
            ("/r/b".to_string(), 40000, false),
            ("/r/a".to_string(), 3210, true),
            ("/r/empty".to_string(), 0, true),
            ("/r/locked".to_string(), 0, true),
        ]
    );
}

#[test]
fn children_are_sized_and_ranked() {
    let dir = path("/r");
    let mut walk = Walk::children(dir.clone());
    assert!(drive(&mut walk, &dir, &sample()).is_empty());
    let told: Vec<(String, u64, bool)> =
        scan_children(walk).iter().map(|i| (i.path.display(), i.size, i.is_dir)).collect();
    assert_eq!(
        told,
        vec![
            ("/r/b".to_string(), 40000, false),
            ("/r/a".to_string(), 3210, true),
            ("/r/empty".to_string(), 0, true),
            ("/r/locked".to_string(), 0, true),
            ("/r/pipe".to_string(), 0, false),
        ]
    );
}

#[test]
fn the_children_add_up_to_the_folder() {
    let dir = path("/r");
    let mut walk = Walk::children(dir.clone());
    drive(&mut walk, &dir, &sample());
    let sum: u64 = scan_children(walk).iter().map(|item| item.size).sum();
    assert_eq!(sum, visited(&sample(), 2).1);
}

#[test]
fn an_unreadable_folder_has_no_children() {
    let dir = path("/r");
    let mut walk = Walk::children(dir.clone());
    drive(&mut walk, &dir, &Node::Locked);
    assert!(scan_children(walk).is_empty());
}

fn counted(edition: Edition, depth: usize, tree: &Node) -> Vec<u64> {
    let root = path("/r");
    let mut walk = Walk::visit(root.clone(), depth, edition);
    drive(&mut walk, &root, tree)
}

fn files(n: usize) -> Vec<(&'static str, Node)> {
    (0..n).map(|_| ("f", Node::File(1))).collect()
}

#[test]
fn every_five_hundredth_entry_is_reported() {
    assert_eq!(counted(Edition::List, 2, &Node::Folder(files(1499))), vec![500, 1000]);
    assert_eq!(counted(Edition::Browser, 2, &Node::Folder(files(499))), Vec::<u64>::new());
    assert_eq!(counted(Edition::Browser, 2, &Node::Folder(files(500))), vec![500]);
}

#[test]
fn below_the_limit_entries_count_without_a_report() {
    let mut entries = files(400);
    entries.push(("d", Node::Folder(files(200))));
    entries.extend(files(399));
    assert_eq!(counted(Edition::List, 1, &Node::Folder(entries)), vec![1000]);
}

#[test]
fn links_count_and_unknown_entries_do_not() {
    let mut entries: Vec<(&'static str, Node)> = (0..499).map(|_| ("l", Node::Link)).collect();
    entries.push(("u", Node::Unknown));
    entries.push(("o", Node::Other));
    assert_eq!(counted(Edition::List, 0, &Node::Folder(entries)), vec![500]);
}

#[test]
fn the_editions_count_unknown_entries_differently() {
    let tree = || {
        let unknown = (0..498).map(|_| ("u", Node::Unknown)).collect();
        Node::Folder(vec![("d", Node::Folder(unknown)), ("f", Node::File(1))])
    };
    assert_eq!(counted(Edition::Browser, 1, &tree()), vec![500]);
    assert_eq!(counted(Edition::List, 1, &tree()), Vec::<u64>::new());
}

#[test]
fn a_sum_that_cannot_be_held_is_foreseen() {
    let entry = |size: u64| DirEntry::new(b"f".to_vec(), EntryKind::File(size)).unwrap();
    let walk = Walk::visit(path("/r"), 1, Edition::List);
    assert!(walk.fits(&Some(vec![entry(u64::MAX)])));
    assert!(walk.fits(&Some(vec![entry(u64::MAX - 1), entry(1)])));
    assert!(!walk.fits(&Some(vec![entry(u64::MAX), entry(1)])));
    assert!(walk.fits(&None));
}

#[test]
fn what_is_no_name_makes_no_entry() {
    assert!(DirEntry::new(b"name".to_vec(), EntryKind::Folder).is_some());
    for name in ["", ".", "..", "a/b"] {
        assert!(DirEntry::new(name.as_bytes().to_vec(), EntryKind::Folder).is_none());
    }
}

#[test]
fn a_walk_wants_one_directory_at_a_time() {
    let mut walk = Walk::visit(path("/r"), 2, Edition::List);
    assert_eq!(walk.wanted().unwrap().display(), "/r");
    let folder = DirEntry::new(b"d".to_vec(), EntryKind::Folder).unwrap();
    walk.supply(Some(vec![folder]));
    assert!(walk.wanted().is_none());
    assert_eq!(walk.advance(), None);
    assert_eq!(walk.wanted().unwrap().display(), "/r/d");
    walk.supply(None);
    assert_eq!(walk.advance(), None);
    assert!(!walk.is_over());
    assert_eq!(walk.advance(), None);
    assert!(walk.is_over());
}
