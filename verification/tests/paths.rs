use mac_cleaner::path::{names_a_file, same_bytes, split_bytes, top_child, FilePath};
use mac_cleaner::pathset::PathSet;
use std::path::Path;

const SAMPLES: [&str; 26] = [
    "", "/", "//", ".", "./", "..", "../..", "a", "a/", "a//b", "/a", "/a/", "/a/b", "/a/./b",
    "/a/../b", "./a", "./a/b", "a/.", "a/..", "/a/b/c", "/ab", "/a/b/", "/.", "/..", ".a", "...",
];

fn path(text: &str) -> FilePath {
    FilePath::new(text.as_bytes().to_vec())
}

fn text(path: &FilePath) -> String {
    String::from_utf8(path.as_bytes().to_vec()).unwrap()
}

#[test]
fn parts_are_the_components() {
    for sample in SAMPLES {
        let expected: Vec<Vec<u8>> = Path::new(sample)
            .components()
            .map(|c| c.as_os_str().to_str().unwrap().as_bytes().to_vec())
            .collect();
        assert_eq!(path(sample).parts(), expected, "{sample:?}");
    }
}

#[test]
fn joining_is_that_of_std() {
    for sample in SAMPLES {
        for name in ["x", "x y", ".hidden", "/abs", ""] {
            let expected = Path::new(sample).join(name).to_str().unwrap().to_string();
            assert_eq!(text(&path(sample).join(name.as_bytes())), expected, "{sample:?} {name:?}");
        }
    }
}

#[test]
fn starting_and_sameness_are_those_of_std() {
    for a in SAMPLES {
        for b in SAMPLES {
            let (pa, pb) = (path(a), path(b));
            assert_eq!(pa.starts_with(&pb), Path::new(a).starts_with(b), "{a:?} {b:?}");
            assert_eq!(pa.same(&pb), Path::new(a) == Path::new(b), "{a:?} {b:?}");
        }
    }
}

#[test]
fn file_names_are_those_of_std() {
    for sample in SAMPLES {
        let expected =
            Path::new(sample).file_name().map(|n| n.to_str().unwrap().as_bytes().to_vec());
        assert_eq!(path(sample).file_name(), expected, "{sample:?}");
    }
}

#[test]
fn top_child_is_the_first_step_below_the_root() {
    let root = path("/data");
    assert_eq!(text(&top_child(&root, &path("/data/a/b/c")).unwrap()), "/data/a");
    assert_eq!(text(&top_child(&root, &path("/data/a")).unwrap()), "/data/a");
    assert!(top_child(&root, &path("/data")).is_none());
    assert!(top_child(&root, &path("/database/a")).is_none());
    assert!(top_child(&root, &path("/other/a")).is_none());
    assert_eq!(text(&top_child(&path("/"), &path("/etc/hosts")).unwrap()), "/etc");
    assert_eq!(text(&top_child(&path("."), &path("./a/b")).unwrap()), "./a");
    assert_eq!(text(&top_child(&path("/data/"), &path("/data//a/b")).unwrap()), "/data/a");
}

#[test]
fn top_child_is_that_of_std() {
    for a in SAMPLES {
        for b in SAMPLES {
            let expected = Path::new(b)
                .strip_prefix(a)
                .ok()
                .and_then(|rest| rest.components().next())
                .map(|first| Path::new(a).join(first).to_str().unwrap().to_string());
            let found = top_child(&path(a), &path(b)).map(|p| text(&p));
            assert_eq!(found, expected, "{a:?} {b:?}");
        }
    }
}

#[test]
fn the_child_is_between_the_root_and_the_path() {
    let root = path("/r/");
    let deep = path("/r/x/y/z");
    let child = top_child(&root, &deep).unwrap();
    assert_eq!(child.parts().len(), root.parts().len() + 1);
    assert!(child.starts_with(&root));
    assert!(deep.starts_with(&child));
}

#[test]
fn joining_a_name_adds_one_component() {
    for dir in ["", "/", "a", "a/", "./", "/a//"] {
        let dir = path(dir);
        let mut expected = dir.parts();
        expected.push(b"n".to_vec());
        assert_eq!(dir.join(b"n").parts(), expected);
    }
}

#[test]
fn only_plain_names_can_be_listed() {
    for name in ["a", ".a", "...", "a b", "\u{e9}"] {
        assert!(names_a_file(name.as_bytes()), "{name:?}");
    }
    for name in ["", ".", "..", "a/b", "/", "a/"] {
        assert!(!names_a_file(name.as_bytes()), "{name:?}");
    }
}

#[test]
fn bytes_are_split_and_compared() {
    assert_eq!(split_bytes(b"a,,b", b','), vec![b"a".to_vec(), vec![], b"b".to_vec()]);
    assert_eq!(split_bytes(b"", b','), vec![Vec::<u8>::new()]);
    assert!(same_bytes(b"ab", b"ab"));
    assert!(!same_bytes(b"ab", b"ac"));
    assert!(!same_bytes(b"ab", b"a"));
}

#[test]
fn a_set_holds_a_path_once() {
    let mut set = PathSet::new();
    assert!(set.is_empty());
    set.insert(path("/a/b"));
    set.insert(path("/a//b/"));
    set.insert(path("/c"));
    assert_eq!(set.len(), 2);
    assert!(set.contains(&path("/a/./b")));
    assert!(!set.contains(&path("/a")));
    set.remove(&path("/a/b/"));
    assert_eq!(set.len(), 1);
    assert!(!set.contains(&path("/a/b")));
    set.remove(&path("/nowhere"));
    assert_eq!(set.len(), 1);
    set.clear();
    assert!(set.is_empty());
}
