use vstd::prelude::*;
use crate::ftree::{child_view, Children, DirView, Fnode, FnodeDir, NodeView};
use crate::path::names;

verus! {

/// What one filesystem operation does to the destination.
#[derive(Clone, Copy, PartialEq, Eq, Debug)]
pub enum OpKind {
    /// Delete the file at the path.
    RemoveFile,
    /// Delete the directory at the path with everything in it.
    RemoveDir,
    /// Create the directory at the path; its parent exists.
    CreateDir,
    /// Copy the source file at the path to the same path in the destination.
    CopyFile,
}

/// One filesystem operation at a path relative to the roots. Where `guard` is
/// `Some(g)`, the operation is carried out only if operation `g` of the same list,
/// a directory creation that comes earlier, was carried out and succeeded.
#[derive(Debug)]
pub struct Op {
    pub path: Vec<String>,
    pub kind: OpKind,
    pub guard: Option<usize>,
}

pub struct OpView {
    pub path: Seq<Seq<char>>,
    pub kind: OpKind,
    pub guard: Option<int>,
}

pub open spec fn op_view(o: Op) -> OpView {
    OpView {
        path: names(o.path@),
        kind: o.kind,
        guard: match o.guard {
            Some(g) => Some(g as int),
            None => None,
        },
    }
}

pub open spec fn ops_view(v: Seq<Op>) -> Seq<OpView> {
    v.map_values(|o: Op| op_view(o))
}

/// The removals that a rem-tree node at `p` asks for, in order: a file is deleted,
/// a directory with the entirety flag is deleted whole, another is descended into.
pub open spec fn rem_node_ops(n: NodeView, p: Seq<Seq<char>>) -> Seq<OpView>
    decreases n, 1int,
{
    match n {
        NodeView::File(_) => seq![OpView { path: p, kind: OpKind::RemoveFile, guard: None }],
        NodeView::Dir(d) => if d.entirety {
            seq![OpView { path: p, kind: OpKind::RemoveDir, guard: None }]
        } else {
            rem_children_ops(d.children, p)
        },
    }
}

pub open spec fn rem_children_ops(cs: Children, p: Seq<Seq<char>>) -> Seq<OpView>
    decreases cs, 0int,
{
    if cs.len() == 0 {
        Seq::empty()
    } else {
        rem_children_ops(cs.subrange(0, cs.len() - 1), p) + rem_node_ops(
            cs[cs.len() - 1].1,
            p.push(cs[cs.len() - 1].0),
        )
    }
}

/// The removals that a rem-tree asks for, from the destination root.
pub open spec fn remove_ops(d: DirView) -> Seq<OpView> {
    rem_node_ops(NodeView::Dir(d), Seq::empty())
}

/// The operations that an add-tree node at `p` asks for, placed from position
/// `base` of the list on, each guarded by `guard` unless a creation beneath it
/// stands nearer: a file is copied; a directory with the entirety flag is created
/// and then its children, guarded by that creation, are processed; another directory
/// is only descended into.
pub open spec fn add_node_ops(n: NodeView, p: Seq<Seq<char>>, guard: Option<int>, base: int) -> Seq<
    OpView,
>
    decreases n, 1int,
{
    match n {
        NodeView::File(_) => seq![OpView { path: p, kind: OpKind::CopyFile, guard }],
        NodeView::Dir(d) => if d.entirety {
            seq![OpView { path: p, kind: OpKind::CreateDir, guard }] + add_children_ops(
                d.children,
                p,
                Some(base),
                base + 1,
            )
        } else {
            add_children_ops(d.children, p, guard, base)
        },
    }
}

pub open spec fn add_children_ops(
    cs: Children,
    p: Seq<Seq<char>>,
    guard: Option<int>,
    base: int,
) -> Seq<OpView>
    decreases cs, 0int,
{
    if cs.len() == 0 {
        Seq::empty()
    } else {
        let prev = add_children_ops(cs.subrange(0, cs.len() - 1), p, guard, base);
        prev + add_node_ops(
            cs[cs.len() - 1].1,
            p.push(cs[cs.len() - 1].0),
            guard,
            base + prev.len(),
        )
    }
}

/// The operations that an add-tree asks for, from the destination root.
pub open spec fn apply_ops(d: DirView) -> Seq<OpView> {
    add_node_ops(NodeView::Dir(d), Seq::empty(), None, 0)
}

fn copy_path(p: &Vec<String>) -> (r: Vec<String>)
    ensures
        names(r@) == names(p@),
{
    let mut r: Vec<String> = Vec::new();
    let mut i: usize = 0;
    while i < p.len()
        invariant
            i <= p@.len(),
            names(r@) == names(p@).subrange(0, i as int),
        decreases p@.len() - i,
    {
        let ghost r0 = r@;
        r.push(p[i].clone());
        assert(names(r@) =~= names(r0).push(p@[i as int]@));
        assert(names(p@).subrange(0, i + 1) =~= names(p@).subrange(0, i as int).push(p@[i as int]@));
        i = i + 1;
    }
    assert(names(p@).subrange(0, p@.len() as int) =~= names(p@));
    r
}

fn extend_path(p: &Vec<String>, name: &String) -> (r: Vec<String>)
    ensures
        names(r@) == names(p@).push(name@),
{
    let mut r = copy_path(p);
    let ghost r0 = r@;
    r.push(name.clone());
    assert(names(r@) =~= names(r0).push(name@));
    r
}

fn push_op(out: &mut Vec<Op>, path: Vec<String>, kind: OpKind, guard: Option<usize>)
    ensures
        ops_view(final(out)@) == ops_view(old(out)@).push(op_view(Op { path, kind, guard })),
{
    out.push(Op { path, kind, guard });
    assert(ops_view(out@) =~= ops_view(old(out)@).push(op_view(Op { path, kind, guard })));
}

fn push_remove_ops(d: &FnodeDir, path: Vec<String>, out: &mut Vec<Op>)
    ensures
        ops_view(final(out)@) == ops_view(old(out)@) + rem_node_ops(NodeView::Dir(d@), names(path@)),
    decreases d,
{
    if d.entirity {
        push_op(out, path, OpKind::RemoveDir, None);
    } else {
        let ghost start = ops_view(out@);
        let mut i: usize = 0;
        while i < d.children.len()
            invariant
                i <= d.children@.len(),
                ops_view(out@) == start + rem_children_ops(
                    d@.children.subrange(0, i as int),
                    names(path@),
                ),
            decreases d.children@.len() - i,
        {
            let ghost cs = d@.children;
            assert(cs.subrange(0, i + 1).subrange(0, i as int) =~= cs.subrange(0, i as int));
            assert(cs[i as int] == child_view(d.children@[i as int]));
            let sub = extend_path(&path, &d.children[i].0);
            let ghost prev = rem_children_ops(cs.subrange(0, i as int), names(path@));
            assert(rem_children_ops(cs.subrange(0, i + 1), names(path@)) == prev + rem_node_ops(
                cs[i as int].1,
                names(sub@),
            ));
            match &d.children[i].1 {
                Fnode::File(_) => {
                    push_op(out, sub, OpKind::RemoveFile, None);
                },
                Fnode::Dir(sd) => {
                    proof {
                        assert(decreases_to!(d => d.children@[i as int].1));
                    }
                    push_remove_ops(sd, sub, out);
                },
            }
            assert(ops_view(out@) =~= start + rem_children_ops(cs.subrange(0, i + 1), names(path@)));
            i = i + 1;
        }
        assert(d@.children.subrange(0, i as int) =~= d@.children);
    }
}

fn push_apply_ops(d: &FnodeDir, path: Vec<String>, guard: Option<usize>, out: &mut Vec<Op>)
    ensures
        ops_view(final(out)@) == ops_view(old(out)@) + add_node_ops(
            NodeView::Dir(d@),
            names(path@),
            match guard {
                Some(g) => Some(g as int),
                None => None,
            },
            old(out)@.len() as int,
        ),
    decreases d,
{
    let ghost start = ops_view(out@);
    let base = out.len();
    let mut inner = guard;
    assert(ops_view(out@).len() == out@.len());
    if d.entirity {
        let p2 = copy_path(&path);
        push_op(out, p2, OpKind::CreateDir, guard);
        inner = Some(base);
    }
    let ghost head = ops_view(out@);
    let ghost ig = match inner {
        Some(x) => Some(x as int),
        None => None::<int>,
    };
    let mut i: usize = 0;
    while i < d.children.len()
        invariant
            i <= d.children@.len(),
            ops_view(out@) == head + add_children_ops(
                d@.children.subrange(0, i as int),
                names(path@),
                ig,
                head.len() as int,
            ),
            ig == match inner {
                Some(x) => Some(x as int),
                None => None::<int>,
            },
        decreases d.children@.len() - i,
    {
        let ghost cs = d@.children;
        assert(cs.subrange(0, i + 1).subrange(0, i as int) =~= cs.subrange(0, i as int));
        assert(cs[i as int] == child_view(d.children@[i as int]));
        let sub = extend_path(&path, &d.children[i].0);
        assert(ops_view(out@).len() == out@.len());
        let ghost prev = add_children_ops(cs.subrange(0, i as int), names(path@), ig, head.len() as int);
        assert(add_children_ops(cs.subrange(0, i + 1), names(path@), ig, head.len() as int) == prev
            + add_node_ops(cs[i as int].1, names(sub@), ig, (head.len() + prev.len()) as int));
        match &d.children[i].1 {
            Fnode::File(_) => {
                push_op(out, sub, OpKind::CopyFile, inner);
            },
            Fnode::Dir(sd) => {
                proof {
                    assert(decreases_to!(d => d.children@[i as int].1));
                }
                push_apply_ops(sd, sub, inner, out);
            },
        }
        assert(ops_view(out@) =~= head + add_children_ops(
            cs.subrange(0, i + 1),
            names(path@),
            ig,
            head.len() as int,
        ));
        i = i + 1;
    }
    assert(d@.children.subrange(0, i as int) =~= d@.children);
}

/// The removals that a rem-tree asks for, in the order in which they are to be
/// carried out.
pub fn remove_diff(diff: &FnodeDir) -> (r: Vec<Op>)
    ensures
        ops_view(r@) == remove_ops(diff@),
{
    let mut out: Vec<Op> = Vec::new();
    let ghost d = diff@;
    push_remove_ops(diff, Vec::new(), &mut out);
    assert(names(Seq::<String>::empty()) =~= Seq::empty());
    assert(ops_view(Seq::<Op>::empty()) =~= Seq::empty());
    assert(ops_view(out@) =~= remove_ops(d));
    out
}

/// The creations and copies that an add-tree asks for, each after the creation
/// that guards it.
pub fn apply_diff(diff: &FnodeDir) -> (r: Vec<Op>)
    ensures
        ops_view(r@) == apply_ops(diff@),
{
    let mut out: Vec<Op> = Vec::new();
    let ghost d = diff@;
    push_apply_ops(diff, Vec::new(), None, &mut out);
    assert(names(Seq::<String>::empty()) =~= Seq::empty());
    assert(ops_view(Seq::<Op>::empty()) =~= Seq::empty());
    assert(ops_view(out@) =~= apply_ops(d));
    out
}

} // verus!
