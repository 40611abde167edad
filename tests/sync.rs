use arsync::ftree::{FnodeDir, FnodeFile};
use arsync::plan::{Op, OpKind};
use arsync::{calc_diff, sync_plan, SyncMode};

fn f(date: u128, content: &str) -> FnodeFile {
    FnodeFile::new(date, content.len() as u64)
}

fn dir() -> FnodeDir {
    FnodeDir::default()
}

fn with_file(mut d: FnodeDir, name: &str, file: FnodeFile) -> FnodeDir {
    d.append_file(name.to_string(), file);
    d
}

fn with_dir(mut d: FnodeDir, name: &str, sub: FnodeDir) -> FnodeDir {
    d.append_dir(name.to_string(), sub);
    d
}

fn show(ops: &[Op]) -> Vec<(String, OpKind, Option<usize>)> {
    ops.iter().map(|o| (o.path.join("/"), o.kind, o.guard)).collect()
}

fn op(path: &str, kind: OpKind, guard: Option<usize>) -> (String, OpKind, Option<usize>) {
    (path.to_string(), kind, guard)
}

fn plan(
    src: FnodeDir,
    dest: FnodeDir,
    mode: SyncMode,
) -> (Vec<(String, OpKind, Option<usize>)>, Vec<(String, OpKind, Option<usize>)>) {
    let (rem, add) = sync_plan(src, dest, None, None, mode);
    (show(&rem), show(&add))
}

fn plan_ignore(
    src: FnodeDir,
    dest: FnodeDir,
    mode: SyncMode,
    src_ignore: &str,
    dest_ignore: &str,
) -> (Vec<(String, OpKind, Option<usize>)>, Vec<(String, OpKind, Option<usize>)>) {
    let (rem, add) = sync_plan(
        src,
        dest,
        Some(String::from(src_ignore)),
        Some(String::from(dest_ignore)),
        mode,
    );
    (show(&rem), show(&add))
}

#[test]
fn sync_file() {
    let src = with_file(dir(), "a", f(1, ""));
    let (rem, add) = plan(src, dir(), SyncMode::Soft);
    assert!(rem.is_empty());
    assert_eq!(add, vec![op("a", OpKind::CopyFile, None)]);
}

#[test]
fn sync_multiple_files() {
    let src = with_file(with_file(with_file(dir(), "a", f(1, "ac")), "b", f(2, "bc")), "c", f(3, "cc"));
    let (rem, add) = plan(src, dir(), SyncMode::Soft);
    assert!(rem.is_empty());
    assert_eq!(
        add,
        vec![
            op("a", OpKind::CopyFile, None),
            op("b", OpKind::CopyFile, None),
            op("c", OpKind::CopyFile, None),
        ]
    );
}

#[test]
fn sync_dir() {
    let src = with_dir(dir(), "b", dir());
    let (rem, add) = plan(src, dir(), SyncMode::Soft);
    assert!(rem.is_empty());
    assert_eq!(add, vec![op("b", OpKind::CreateDir, None)]);
}

#[test]
fn sync_recursively() {
    let src = with_dir(dir(), "d", with_file(dir(), "a", f(2, "")));
    let dest = with_dir(dir(), "d", dir());
    let (rem, add) = plan(src, dest, SyncMode::Soft);
    assert!(rem.is_empty());
    assert_eq!(add, vec![op("d/a", OpKind::CopyFile, None)]);
}

#[test]
fn sync_recursively_deep() {
    let src = with_dir(dir(), "d", with_dir(dir(), "r", with_file(dir(), "a", f(2, ""))));
    let dest = with_dir(dir(), "d", with_dir(dir(), "r", dir()));
    let (rem, add) = plan(src, dest, SyncMode::Soft);
    assert!(rem.is_empty());
    assert_eq!(add, vec![op("d/r/a", OpKind::CopyFile, None)]);
}

#[test]
fn sync_soft() {
    let src = with_file(with_file(dir(), "a", f(2, "")), "b", f(3, ""));
    let dest = with_dir(dir(), "a", dir());
    let (rem, add) = plan(src, dest, SyncMode::Soft);
    assert!(rem.is_empty());
    assert_eq!(add, vec![op("b", OpKind::CopyFile, None)]);
}

#[test]
fn sync_mixed() {
    let src = with_file(dir(), "a", f(2, ""));
    let dest = with_dir(dir(), "a", dir());
    let (rem, add) = plan(src, dest, SyncMode::Mixed);
    assert_eq!(rem, vec![op("a", OpKind::RemoveDir, None)]);
    assert_eq!(add, vec![op("a", OpKind::CopyFile, None)]);
}

#[test]
fn sync_hard() {
    let src = with_dir(
        with_dir(with_file(dir(), "a", f(1, "ac+")), "b", with_file(with_file(dir(), "b1", f(2, "b1c")), "b2", f(3, "b2c"))),
        "d",
        with_file(dir(), "d1", f(4, "d1c+")),
    );
    let dest = with_dir(
        with_dir(
            with_file(with_file(dir(), "a", f(5, "ac")), "b", f(6, "bc")),
            "c",
            with_file(with_file(dir(), "c1", f(7, "c1c")), "c2", f(8, "c2c")),
        ),
        "d",
        with_file(dir(), "d1", f(9, "d1c")),
    );
    let (rem, add) = plan(src, dest, SyncMode::Hard);
    assert_eq!(rem, vec![op("b", OpKind::RemoveFile, None), op("c", OpKind::RemoveDir, None)]);
    assert_eq!(
        add,
        vec![
            op("a", OpKind::CopyFile, None),
            op("d/d1", OpKind::CopyFile, None),
            op("b", OpKind::CreateDir, None),
            op("b/b1", OpKind::CopyFile, Some(2)),
            op("b/b2", OpKind::CopyFile, Some(2)),
        ]
    );
}

#[test]
fn sync_update() {
    let src = with_dir(
        with_dir(
            with_file(with_file(dir(), "a", f(1, "ac+")), "c", f(2, "cc+")),
            "b",
            with_file(with_file(dir(), "b1", f(3, "b1c+")), "b2", f(4, "b2c+")),
        ),
        "d",
        with_file(dir(), "d1", f(5, "d1c+")),
    );
    let dest = with_dir(with_file(dir(), "a", f(6, "ac")), "b", with_file(dir(), "b1", f(7, "b1c")));
    let (rem, add) = plan(src, dest, SyncMode::Update);
    assert!(rem.is_empty());
    assert_eq!(add, vec![op("a", OpKind::CopyFile, None), op("b/b1", OpKind::CopyFile, None)]);
}

#[test]
fn src_ingore() {
    let src = with_file(with_file(with_file(dir(), "a", f(1, "ac")), "b", f(2, "bc")), "c", f(3, "cc"));
    let (rem, add) = plan_ignore(src, dir(), SyncMode::Mixed, "c", "");
    assert!(rem.is_empty());
    assert_eq!(add, vec![op("a", OpKind::CopyFile, None), op("b", OpKind::CopyFile, None)]);
}

#[test]
fn src_ingore_subdir() {
    let src = with_dir(
        with_file(
            with_file(with_dir(with_file(dir(), "a", f(1, "ac")), "v", dir()), "b", f(2, "bc")),
            "c",
            f(3, "cc"),
        ),
        "d",
        with_file(with_file(dir(), "d1", f(4, "d1c")), "d2", f(5, "d2c")),
    );
    let (rem, add) = plan_ignore(src, dir(), SyncMode::Mixed, "c\nd", "");
    assert!(rem.is_empty());
    assert_eq!(
        add,
        vec![
            op("a", OpKind::CopyFile, None),
            op("v", OpKind::CreateDir, None),
            op("b", OpKind::CopyFile, None),
        ]
    );
}

#[test]
fn dest_ingore_subdir() {
    let src = with_file(
        with_file(with_file(with_file(dir(), "a", f(1, "ac+")), "b", f(2, "bc+")), "c", f(3, "cc+")),
        "d",
        f(4, "dc+"),
    );
    let dest = with_file(with_file(with_file(dir(), "a", f(5, "ac")), "b", f(6, "bc")), "c", f(7, "cc"));
    let (rem, add) = plan_ignore(src, dest, SyncMode::Update, "", "c");
    assert!(rem.is_empty());
    assert_eq!(add, vec![op("a", OpKind::CopyFile, None), op("b", OpKind::CopyFile, None)]);
}

#[test]
fn recursive_file_add_under_existing_dirs() {
    let src = with_dir(dir(), "d", with_dir(dir(), "r", with_file(dir(), "a", f(1, "x"))));
    let dest = with_dir(dir(), "d", with_dir(dir(), "r", dir()));
    let (add, rem) = calc_diff(&src, &dest, SyncMode::Soft);
    let d = add.subdir(&"d".to_string()).unwrap();
    let r = d.subdir(&"r".to_string()).unwrap();
    assert!(r.file(&"a".to_string()).is_some());
    assert!(!add.entirity() && !d.entirity() && !r.entirity());
    let rd = rem.subdir(&"d".to_string()).unwrap();
    assert_eq!(rd.subdir(&"r".to_string()).unwrap().children().len(), 0);
}

#[test]
fn soft_type_conflict_file_over_dir() {
    let src = with_dir(dir(), "a", with_file(dir(), "x", f(1, "x")));
    let dest = with_file(dir(), "a", f(1, "a"));
    let (rem, add) = plan(src, dest, SyncMode::Soft);
    assert!(rem.is_empty());
    assert!(add.is_empty());
}

#[test]
fn mixed_type_conflict_dir_over_file() {
    let src = with_dir(dir(), "a", with_file(dir(), "x", f(1, "x")));
    let dest = with_file(dir(), "a", f(1, "a"));
    let (rem, add) = plan(src, dest, SyncMode::Mixed);
    assert_eq!(rem, vec![op("a", OpKind::RemoveFile, None)]);
    assert_eq!(add, vec![op("a", OpKind::CreateDir, None), op("a/x", OpKind::CopyFile, Some(0))]);
}

#[test]
fn hard_type_conflict_file_over_dir() {
    let src = with_file(dir(), "a", f(1, "a"));
    let dest = with_dir(dir(), "a", with_file(dir(), "x", f(1, "x")));
    let (rem, add) = plan(src, dest, SyncMode::Hard);
    assert_eq!(rem, vec![op("a", OpKind::RemoveDir, None)]);
    assert_eq!(add, vec![op("a", OpKind::CopyFile, None)]);
}

#[test]
fn mtime_rule() {
    // same size, destination newer: skipped
    let (_, add) = plan(with_file(dir(), "a", f(5, "ab")), with_file(dir(), "a", f(6, "cd")), SyncMode::Hard);
    assert!(add.is_empty());
    // same size, same time: skipped
    let (_, add) = plan(with_file(dir(), "a", f(5, "ab")), with_file(dir(), "a", f(5, "cd")), SyncMode::Mixed);
    assert!(add.is_empty());
    // same time, other size: copied
    let (_, add) = plan(with_file(dir(), "a", f(5, "ab")), with_file(dir(), "a", f(5, "abc")), SyncMode::Update);
    assert_eq!(add, vec![op("a", OpKind::CopyFile, None)]);
    // destination older: copied
    let (_, add) = plan(with_file(dir(), "a", f(5, "ab")), with_file(dir(), "a", f(4, "cd")), SyncMode::Soft);
    assert_eq!(add, vec![op("a", OpKind::CopyFile, None)]);
}

#[test]
fn soft_never_removes() {
    let src = with_dir(with_file(dir(), "a", f(1, "a")), "b", dir());
    let dest = with_file(with_dir(with_file(dir(), "b", f(1, "b")), "a", dir()), "z", f(1, "z"));
    let (rem, _) = plan(src, dest, SyncMode::Soft);
    assert!(rem.is_empty());
}

#[test]
fn update_adds_nothing_new() {
    let src = with_dir(with_file(dir(), "n", f(9, "new")), "s", with_file(dir(), "f", f(9, "ff")));
    let dest = with_dir(dir(), "s", dir());
    let (rem, add) = plan(src, dest, SyncMode::Update);
    assert!(rem.is_empty());
    assert!(add.is_empty());
}

#[test]
fn hard_nested_creation_guards() {
    let src = with_dir(dir(), "x", with_dir(dir(), "y", with_file(dir(), "z", f(1, "z"))));
    let (rem, add) = plan(src, dir(), SyncMode::Hard);
    assert!(rem.is_empty());
    assert_eq!(
        add,
        vec![
            op("x", OpKind::CreateDir, None),
            op("x/y", OpKind::CreateDir, Some(0)),
            op("x/y/z", OpKind::CopyFile, Some(1)),
        ]
    );
}

#[test]
fn second_hard_run_plans_nothing() {
    let src = with_dir(
        with_dir(with_file(dir(), "a", f(1, "ac+")), "b", with_file(with_file(dir(), "b1", f(2, "b1c")), "b2", f(3, "b2c"))),
        "d",
        with_file(dir(), "d1", f(4, "d1c+")),
    );
    // what the first run leaves: the copies are stamped at time 10
    let after = with_dir(
        with_dir(with_file(dir(), "a", f(10, "ac+")), "d", with_file(dir(), "d1", f(10, "d1c+"))),
        "b",
        with_file(with_file(dir(), "b1", f(10, "b1c")), "b2", f(10, "b2c")),
    );
    let (rem, add) = plan(src, after, SyncMode::Hard);
    assert!(rem.is_empty());
    assert!(add.is_empty());
}

#[test]
fn second_soft_run_plans_nothing() {
    let src = with_file(with_file(dir(), "a", f(2, "")), "b", f(3, ""));
    let after = with_file(with_dir(dir(), "a", dir()), "b", f(10, ""));
    let (rem, add) = plan(src, after, SyncMode::Soft);
    assert!(rem.is_empty());
    assert!(add.is_empty());
}

#[test]
fn second_mixed_run_plans_nothing() {
    let src = with_dir(with_file(dir(), "a", f(2, "x")), "s", with_file(dir(), "t", f(1, "tt")));
    let after = with_dir(with_file(dir(), "a", f(10, "x")), "s", with_file(dir(), "t", f(10, "tt")));
    let (rem, add) = plan(src, after, SyncMode::Mixed);
    assert!(rem.is_empty());
    assert!(add.is_empty());
}

#[test]
fn second_update_run_plans_nothing() {
    let src = with_dir(with_file(dir(), "a", f(1, "ac+")), "b", with_file(dir(), "b1", f(3, "b1c+")));
    let after = with_dir(with_file(dir(), "a", f(10, "ac+")), "b", with_file(dir(), "b1", f(10, "b1c+")));
    let (rem, add) = plan(src, after, SyncMode::Update);
    assert!(rem.is_empty());
    assert!(add.is_empty());
}

#[test]
fn hard_removes_what_source_lacks() {
    let src = dir();
    let dest = with_dir(with_file(dir(), "x", f(1, "x")), "y", with_file(dir(), "z", f(1, "z")));
    let (rem, add) = plan(src, dest, SyncMode::Hard);
    assert_eq!(rem, vec![op("x", OpKind::RemoveFile, None), op("y", OpKind::RemoveDir, None)]);
    assert!(add.is_empty());
}

#[test]
fn ignore_on_destination_hides_entries() {
    let src = with_file(dir(), "k", f(1, "kk"));
    let dest = with_file(with_dir(dir(), "k", dir()), "z", f(1, "z"));
    // the destination's directory `k` is ignored, so the file is copied as if it were absent
    let (rem, add) = plan_ignore(src, dest, SyncMode::Soft, "", "k/");
    assert!(rem.is_empty());
    assert_eq!(add, vec![op("k", OpKind::CopyFile, None)]);
}
