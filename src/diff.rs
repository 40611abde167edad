use vstd::prelude::*;
use crate::ftree::{
    child_view, entire_dir, lookup_dir, lookup_file, Children, DirView, Fnode, FnodeDir, FnodeFile, NodeView,
};

verus! {

/// Whether a destination file `d` is to be replaced by the source file `s`: their
/// sizes differ, or the destination is older.
pub open spec fn differs(s: FnodeFile, d: FnodeFile) -> bool {
    d.size != s.size || d.date < s.date
}

pub open spec fn dir_of(cs: Children) -> DirView {
    DirView { children: cs, entirety: false }
}

/// What one source child `(n, node)` adds to the diff trees under Soft (`mixed`
/// false) or Mixed (`mixed` true), given the add and rem children so far.
pub open spec fn soft_child(
    n: Seq<char>,
    node: NodeView,
    dest: DirView,
    mixed: bool,
    a: Children,
    r: Children,
) -> (Children, Children)
    decreases node, 1int,
{
    match node {
        NodeView::Dir(sd) => match lookup_dir(dest, n) {
            Some(dd) => {
                let sub = soft_diff(sd, dd, mixed);
                (a.push((n, NodeView::Dir(sub.0))), r.push((n, NodeView::Dir(sub.1))))
            },
            None => match lookup_file(dest, n) {
                Some(df) => if mixed {
                    (a.push((n, NodeView::Dir(entire_dir(sd, true)))), r.push((n, NodeView::File(df))))
                } else {
                    (a, r)
                },
                None => (a.push((n, NodeView::Dir(entire_dir(sd, true)))), r),
            },
        },
        NodeView::File(sf) => match lookup_file(dest, n) {
            Some(df) => if differs(sf, df) {
                (a.push((n, NodeView::File(sf))), r)
            } else {
                (a, r)
            },
            None => match lookup_dir(dest, n) {
                Some(dd) => if mixed {
                    (
                        a.push((n, NodeView::File(sf))),
                        r.push((n, NodeView::Dir(DirView { entirety: true, ..dd }))),
                    )
                } else {
                    (a, r)
                },
                None => (a.push((n, NodeView::File(sf))), r),
            },
        },
    }
}

/// The add and rem children that the source children `cs` give, in order.
pub open spec fn soft_pass(cs: Children, dest: DirView, mixed: bool) -> (Children, Children)
    decreases cs, 0int,
{
    if cs.len() == 0 {
        (Seq::empty(), Seq::empty())
    } else {
        let prev = soft_pass(cs.subrange(0, cs.len() - 1), dest, mixed);
        soft_child(cs[cs.len() - 1].0, cs[cs.len() - 1].1, dest, mixed, prev.0, prev.1)
    }
}

/// The add-tree and rem-tree of Soft (`mixed` false) or Mixed (`mixed` true).
pub open spec fn soft_diff(src: DirView, dest: DirView, mixed: bool) -> (DirView, DirView)
    decreases src, 2int,
{
    let p = soft_pass(src.children, dest, mixed);
    (dir_of(p.0), dir_of(p.1))
}

/// The add-tree and rem-tree that make `dest` take up what `src` holds: Soft
/// (`mixed` false) leaves type conflicts alone and removes nothing; Mixed (`mixed`
/// true) removes the conflicting destination entry and adds the source one.
pub fn calc_diff_soft(src: &FnodeDir, dest: &FnodeDir, mixed: bool) -> (r: (FnodeDir, FnodeDir))
    ensures
        (r.0@, r.1@) == soft_diff(src@, dest@, mixed),
    decreases src,
{
    let mut diff_add = FnodeDir::default();
    let mut diff_rem = FnodeDir::default();
    let mut i: usize = 0;
    while i < src.children.len()
        invariant
            i <= src.children@.len(),
            (diff_add@, diff_rem@) == (
                dir_of(soft_pass(src@.children.subrange(0, i as int), dest@, mixed).0),
                dir_of(soft_pass(src@.children.subrange(0, i as int), dest@, mixed).1),
            ),
        decreases src.children@.len() - i,
    {
        let ghost cs = src@.children;
        let ghost prev = soft_pass(cs.subrange(0, i as int), dest@, mixed);
        assert(cs.subrange(0, i + 1).subrange(0, i as int) =~= cs.subrange(0, i as int));
        assert(cs[i as int] == child_view(src.children@[i as int]));
        assert(soft_pass(cs.subrange(0, i + 1), dest@, mixed) == soft_child(
            cs[i as int].0,
            cs[i as int].1,
            dest@,
            mixed,
            prev.0,
            prev.1,
        ));
        let n = &src.children[i].0;
        match &src.children[i].1 {
            Fnode::Dir(dir) => match dest.subdir(n) {
                Some(sub) => {
                    proof {
                        assert(decreases_to!(src => src.children@[i as int].1));
                    }
                    let (sub_add, sub_rem) = calc_diff_soft(dir, sub, mixed);
                    diff_add.append_dir(n.clone(), sub_add);
                    diff_rem.append_dir(n.clone(), sub_rem);
                },
                None => {
                    let mut add_flag = false;
                    if let Some(f) = dest.file(n) {
                        if mixed {
                            diff_rem.append_file(n.clone(), *f);
                            add_flag = true;
                        }
                    } else {
                        add_flag = true;
                    }
                    if add_flag {
                        let mut dir = dir.clone();
                        dir.set_entirity_recursively(true);
                        diff_add.append_dir(n.clone(), dir);
                    }
                },
            },
            Fnode::File(file) => match dest.file(n) {
                Some(f) => {
                    if f.size() != file.size() || f.date() < file.date() {
                        diff_add.append_file(n.clone(), *file);
                    }
                },
                None => {
                    if let Some(d) = dest.subdir(n) {
                        if mixed {
                            let mut d = d.clone();
                            d.set_entirity(true);
                            diff_rem.append_dir(n.clone(), d);
                            diff_add.append_file(n.clone(), *file);
                        }
                    } else {
                        diff_add.append_file(n.clone(), *file);
                    }
                },
            },
        }
        i = i + 1;
    }
    assert(src@.children.subrange(0, i as int) =~= src@.children);
    (diff_add, diff_rem)
}

/// What one destination child `(n, node)` adds to the diff trees under Hard, given
/// the add and rem children so far.
pub open spec fn hard_dest_child(
    src: DirView,
    n: Seq<char>,
    node: NodeView,
    a: Children,
    r: Children,
) -> (Children, Children)
    decreases node, 1int,
{
    match node {
        NodeView::Dir(dd) => match lookup_dir(src, n) {
            Some(sd) => {
                let sub = hard_diff(sd, dd);
                (a.push((n, NodeView::Dir(sub.0))), r.push((n, NodeView::Dir(sub.1))))
            },
            None => (a, r.push((n, NodeView::Dir(entire_dir(dd, true))))),
        },
        NodeView::File(df) => match lookup_file(src, n) {
            Some(sf) => if differs(sf, df) {
                (a.push((n, NodeView::File(sf))), r)
            } else {
                (a, r)
            },
            None => (a, r.push((n, NodeView::File(df)))),
        },
    }
}

/// The add and rem children that the destination children `cs` give under Hard.
pub open spec fn hard_dest_pass(src: DirView, cs: Children) -> (Children, Children)
    decreases cs, 0int,
{
    if cs.len() == 0 {
        (Seq::empty(), Seq::empty())
    } else {
        let prev = hard_dest_pass(src, cs.subrange(0, cs.len() - 1));
        hard_dest_child(src, cs[cs.len() - 1].0, cs[cs.len() - 1].1, prev.0, prev.1)
    }
}

/// The add children that the source children `cs` give under Hard: each entry that
/// has no counterpart of its kind in `dest`, a directory with the entirety flag
/// throughout.
pub open spec fn hard_src_pass(cs: Children, dest: DirView) -> Children
    decreases cs.len(),
{
    if cs.len() == 0 {
        Seq::empty()
    } else {
        let a = hard_src_pass(cs.subrange(0, cs.len() - 1), dest);
        let n = cs[cs.len() - 1].0;
        match cs[cs.len() - 1].1 {
            NodeView::Dir(sd) => if lookup_dir(dest, n) is None {
                a.push((n, NodeView::Dir(entire_dir(sd, true))))
            } else {
                a
            },
            NodeView::File(sf) => if lookup_file(dest, n) is None {
                a.push((n, NodeView::File(sf)))
            } else {
                a
            },
        }
    }
}

/// The add-tree and rem-tree of Hard.
pub open spec fn hard_diff(src: DirView, dest: DirView) -> (DirView, DirView)
    decreases dest, 2int,
{
    let p = hard_dest_pass(src, dest.children);
    (dir_of(p.0 + hard_src_pass(src.children, dest)), dir_of(p.1))
}

/// What one destination child `(n, node)` adds to the add-tree under Update.
pub open spec fn update_child(src: DirView, n: Seq<char>, node: NodeView, a: Children) -> Children
    decreases node, 1int,
{
    match node {
        NodeView::Dir(dd) => match lookup_dir(src, n) {
            Some(sd) => a.push((n, NodeView::Dir(update_diff(sd, dd)))),
            None => a,
        },
        NodeView::File(df) => match lookup_file(src, n) {
            Some(sf) => if differs(sf, df) {
                a.push((n, NodeView::File(sf)))
            } else {
                a
            },
            None => a,
        },
    }
}

pub open spec fn update_pass(src: DirView, cs: Children) -> Children
    decreases cs, 0int,
{
    if cs.len() == 0 {
        Seq::empty()
    } else {
        let prev = update_pass(src, cs.subrange(0, cs.len() - 1));
        update_child(src, cs[cs.len() - 1].0, cs[cs.len() - 1].1, prev)
    }
}

/// The add-tree of Update.
pub open spec fn update_diff(src: DirView, dest: DirView) -> DirView
    decreases dest, 2int,
{
    dir_of(update_pass(src, dest.children))
}

/// The add-tree and rem-tree that make `dest` a mirror of `src`: what `dest` holds
/// and `src` lacks goes to the rem-tree, what `src` holds newer or of another size,
/// or `dest` lacks, to the add-tree.
pub fn calc_diff_hard(src: &FnodeDir, dest: &FnodeDir) -> (r: (FnodeDir, FnodeDir))
    ensures
        (r.0@, r.1@) == hard_diff(src@, dest@),
    decreases dest,
{
    let mut diff_add = FnodeDir::default();
    let mut diff_rem = FnodeDir::default();
    let mut i: usize = 0;
    while i < dest.children.len()
        invariant
            i <= dest.children@.len(),
            (diff_add@, diff_rem@) == (
                dir_of(hard_dest_pass(src@, dest@.children.subrange(0, i as int)).0),
                dir_of(hard_dest_pass(src@, dest@.children.subrange(0, i as int)).1),
            ),
        decreases dest.children@.len() - i,
    {
        let ghost cs = dest@.children;
        let ghost prev = hard_dest_pass(src@, cs.subrange(0, i as int));
        assert(cs.subrange(0, i + 1).subrange(0, i as int) =~= cs.subrange(0, i as int));
        assert(cs[i as int] == child_view(dest.children@[i as int]));
        assert(hard_dest_pass(src@, cs.subrange(0, i + 1)) == hard_dest_child(
            src@,
            cs[i as int].0,
            cs[i as int].1,
            prev.0,
            prev.1,
        ));
        let n = &dest.children[i].0;
        match &dest.children[i].1 {
            Fnode::Dir(dest_sub) => match src.subdir(n) {
                Some(src_sub) => {
                    proof {
                        assert(decreases_to!(dest => dest.children@[i as int].1));
                    }
                    let (sub_add, sub_rem) = calc_diff_hard(src_sub, dest_sub);
                    diff_add.append_dir(n.clone(), sub_add);
                    diff_rem.append_dir(n.clone(), sub_rem);
                },
                None => {
                    let mut dest_sub = dest_sub.clone();
                    dest_sub.set_entirity_recursively(true);
                    diff_rem.append_dir(n.clone(), dest_sub);
                },
            },
            Fnode::File(dest_file) => match src.file(n) {
                Some(src_file) => {
                    if dest_file.size() != src_file.size() || dest_file.date() < src_file.date() {
                        diff_add.append_file(n.clone(), *src_file);
                    }
                },
                None => diff_rem.append_file(n.clone(), *dest_file),
            },
        }
        i = i + 1;
    }
    assert(dest@.children.subrange(0, i as int) =~= dest@.children);
    let ghost first = diff_add@.children;
    let mut j: usize = 0;
    while j < src.children.len()
        invariant
            j <= src.children@.len(),
            diff_add@ == dir_of(first + hard_src_pass(src@.children.subrange(0, j as int), dest@)),
            diff_rem@ == hard_diff(src@, dest@).1,
            first == hard_dest_pass(src@, dest@.children).0,
        decreases src.children@.len() - j,
    {
        let ghost cs = src@.children;
        assert(cs.subrange(0, j + 1).subrange(0, j as int) =~= cs.subrange(0, j as int));
        assert(cs[j as int] == child_view(src.children@[j as int]));
        let n = &src.children[j].0;
        let ghost before = hard_src_pass(cs.subrange(0, j as int), dest@);
        match &src.children[j].1 {
            Fnode::Dir(src_sub) => {
                if dest.subdir(n).is_none() {
                    let mut src_sub = src_sub.clone();
                    src_sub.set_entirity_recursively(true);
                    diff_add.append_dir(n.clone(), src_sub);
                }
            },
            Fnode::File(src_file) => {
                if dest.file(n).is_none() {
                    diff_add.append_file(n.clone(), *src_file);
                }
            },
        }
        assert(diff_add@.children =~= first + hard_src_pass(cs.subrange(0, j + 1), dest@));
        j = j + 1;
    }
    assert(src@.children.subrange(0, j as int) =~= src@.children);
    (diff_add, diff_rem)
}

/// The add-tree that refreshes the files present on both sides: nothing is added
/// that `dest` lacks, and nothing is removed.
pub fn calc_diff_update(src: &FnodeDir, dest: &FnodeDir) -> (r: FnodeDir)
    ensures
        r@ == update_diff(src@, dest@),
    decreases dest,
{
    let mut diff_add = FnodeDir::default();
    let mut i: usize = 0;
    while i < dest.children.len()
        invariant
            i <= dest.children@.len(),
            diff_add@ == dir_of(update_pass(src@, dest@.children.subrange(0, i as int))),
        decreases dest.children@.len() - i,
    {
        let ghost cs = dest@.children;
        let ghost prev = update_pass(src@, cs.subrange(0, i as int));
        assert(cs.subrange(0, i + 1).subrange(0, i as int) =~= cs.subrange(0, i as int));
        assert(cs[i as int] == child_view(dest.children@[i as int]));
        assert(update_pass(src@, cs.subrange(0, i + 1)) == update_child(
            src@,
            cs[i as int].0,
            cs[i as int].1,
            prev,
        ));
        let n = &dest.children[i].0;
        match &dest.children[i].1 {
            Fnode::Dir(dest_sub) => {
                if let Some(src_sub) = src.subdir(n) {
                    proof {
                        assert(decreases_to!(dest => dest.children@[i as int].1));
                    }
                    let sub_add = calc_diff_update(src_sub, dest_sub);
                    diff_add.append_dir(n.clone(), sub_add);
                }
            },
            Fnode::File(dest_file) => {
                if let Some(src_file) = src.file(n) {
                    if dest_file.size() != src_file.size() || dest_file.date() < src_file.date() {
                        diff_add.append_file(n.clone(), *src_file);
                    }
                }
            },
        }
        i = i + 1;
    }
    assert(dest@.children.subrange(0, i as int) =~= dest@.children);
    diff_add
}

} // verus!
