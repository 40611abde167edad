use arsync::ftree::{Fnode, FnodeDir, FnodeFile};
use arsync::ignore::arsygnore_parse;
use arsync::path::path_components;

fn names(d: &FnodeDir) -> Vec<String> {
    d.children().iter().map(|(n, _)| n.clone()).collect()
}

fn sample() -> FnodeDir {
    let mut inner = FnodeDir::default();
    inner.append_file("x".to_string(), FnodeFile::new(1, 10));
    inner.append_dir("y".to_string(), FnodeDir::default());
    let mut root = FnodeDir::default();
    root.append_file("a".to_string(), FnodeFile::new(2, 20));
    root.append_dir("d".to_string(), inner);
    root.append_file("b".to_string(), FnodeFile::new(3, 30));
    root
}

#[test]
fn file_accessors() {
    let f = FnodeFile::new(123, 45);
    assert_eq!(f.date(), 123);
    assert_eq!(f.size(), 45);
}

#[test]
fn lookup_by_kind() {
    let root = sample();
    assert_eq!(root.file(&"a".to_string()).unwrap().size(), 20);
    assert!(root.file(&"d".to_string()).is_none());
    assert!(root.subdir(&"a".to_string()).is_none());
    let d = root.subdir(&"d".to_string()).unwrap();
    assert_eq!(names(d), vec!["x", "y"]);
    assert!(root.file(&"zz".to_string()).is_none());
}

#[test]
fn lookup_takes_first_match() {
    let mut root = FnodeDir::default();
    root.append_file("a".to_string(), FnodeFile::new(1, 1));
    root.append_file("a".to_string(), FnodeFile::new(2, 2));
    assert_eq!(root.file(&"a".to_string()).unwrap().date(), 1);
}

#[test]
fn entirety_flags() {
    let mut root = sample();
    assert!(!root.entirity());
    root.set_entirity(true);
    assert!(root.entirity());
    assert!(!root.subdir(&"d".to_string()).unwrap().entirity());
    root.set_entirity_recursively(true);
    let d = root.subdir(&"d".to_string()).unwrap();
    assert!(d.entirity());
    assert!(d.subdir(&"y".to_string()).unwrap().entirity());
    assert_eq!(names(&root), vec!["a", "d", "b"]);
    assert_eq!(d.file(&"x".to_string()).unwrap().size(), 10);
    root.set_entirity_recursively(false);
    assert!(!root.entirity());
    assert!(!root.subdir(&"d".to_string()).unwrap().entirity());
}

#[test]
fn remove_path_file_and_dir() {
    let mut root = sample();
    assert_eq!(root.remove_path("a", false), Ok(()));
    assert_eq!(names(&root), vec!["d", "b"]);
    assert_eq!(root.remove_path("d/", true), Ok(()));
    assert_eq!(names(&root), vec!["b"]);
}

#[test]
fn remove_path_dir_hint_keeps_file() {
    let mut root = sample();
    assert_eq!(root.remove_path("a/", true), Ok(()));
    assert_eq!(names(&root), vec!["a", "d", "b"]);
}

#[test]
fn remove_path_plain_name_takes_dir_too() {
    let mut root = sample();
    assert_eq!(root.remove_path("d", false), Ok(()));
    assert_eq!(names(&root), vec!["a", "b"]);
}

#[test]
fn remove_path_nested_moves_parent_last() {
    let mut root = sample();
    assert_eq!(root.remove_path("d/x", false), Ok(()));
    assert_eq!(names(&root), vec!["a", "b", "d"]);
    assert_eq!(names(root.subdir(&"d".to_string()).unwrap()), vec!["y"]);
}

#[test]
fn remove_path_failures() {
    let mut root = sample();
    assert_eq!(root.remove_path("", false), Err(()));
    assert_eq!(root.remove_path("q/x", false), Err(()));
    assert_eq!(root.remove_path("a/x", false), Err(()));
    assert_eq!(root.remove_path("d/q/x", false), Err(()));
    assert_eq!(names(&root), vec!["a", "d", "b"]);
    // a missing final component is no failure
    assert_eq!(root.remove_path("zz", false), Ok(()));
    assert_eq!(names(&root), vec!["a", "d", "b"]);
}

#[test]
fn components_of_paths() {
    assert_eq!(path_components("a/b"), vec!["a", "b"]);
    assert_eq!(path_components("a//b/"), vec!["a", "b"]);
    assert_eq!(path_components("/a"), vec!["/", "a"]);
    assert_eq!(path_components("./a/./b/."), vec![".", "a", "b"]);
    assert_eq!(path_components("../a"), vec!["..", "a"]);
    assert_eq!(path_components(""), Vec::<String>::new());
    assert_eq!(path_components("é/ü"), vec!["é", "ü"]);
}

#[test]
fn ignore_text_lines() {
    let mut root = sample();
    arsygnore_parse(&mut root, "  a  \r\n\n\t\nnothing/here\nd/y/\n".to_string());
    assert_eq!(names(&root), vec!["b", "d"]);
    assert_eq!(names(root.subdir(&"d".to_string()).unwrap()), vec!["x"]);
}

#[test]
fn ignore_dir_line_spares_file() {
    let mut root = sample();
    arsygnore_parse(&mut root, "b/".to_string());
    assert_eq!(names(&root), vec!["a", "d", "b"]);
}

#[test]
fn ignore_empty_text() {
    let mut root = sample();
    arsygnore_parse(&mut root, String::new());
    assert_eq!(names(&root), vec!["a", "d", "b"]);
}

#[test]
fn clone_is_deep() {
    let root = sample();
    let mut copy = root.clone();
    copy.set_entirity_recursively(true);
    assert!(!root.subdir(&"d".to_string()).unwrap().entirity());
    assert!(copy.subdir(&"d".to_string()).unwrap().entirity());
    match &copy.children()[0].1 {
        Fnode::File(f) => assert_eq!(f.size(), 20),
        Fnode::Dir(_) => panic!("expected a file"),
    }
}
