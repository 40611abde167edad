use vstd::prelude::*;
use crate::diff::{
    differs, hard_dest_child, hard_dest_pass, hard_diff, hard_src_pass, soft_child, soft_diff,
    soft_pass, update_child, update_diff, update_pass,
};
use crate::ftree::{
    file_at, lemma_find_dir_unique, lemma_find_file_unique, lookup_dir, lookup_file, unique_names, Children, DirView,
    NodeView,
};
use crate::plan::{
    add_children_ops, add_node_ops, apply_ops, rem_children_ops, rem_node_ops, remove_ops, OpKind,
    OpView,
};
use crate::{sync_diff, SyncMode};

verus! {

/// A diff-tree directory that asks for no operation: it lacks the entirety flag,
/// and every child is such a directory.
pub open spec fn quiet(d: DirView) -> bool
    decreases d,
{
    !d.entirety && forall|i: int|
        0 <= i < d.children.len() ==> (#[trigger] d.children[i]).1 is Dir && quiet(
            d.children[i].1->Dir_0,
        )
}

pub open spec fn all_quiet(cs: Children) -> bool {
    forall|i: int| 0 <= i < cs.len() ==> (#[trigger] cs[i]).1 is Dir && quiet(cs[i].1->Dir_0)
}

pub proof fn lemma_quiet_no_ops(cs: Children, p: Seq<Seq<char>>)
    requires
        all_quiet(cs),
    ensures
        rem_children_ops(cs, p) == Seq::<OpView>::empty(),
    decreases cs,
{
    if cs.len() > 0 {
        let pre = cs.subrange(0, cs.len() - 1);
        assert forall|i: int| 0 <= i < pre.len() implies (#[trigger] pre[i]).1 is Dir && quiet(
            pre[i].1->Dir_0,
        ) by {
            assert(pre[i] == cs[i]);
        }
        lemma_quiet_no_ops(pre, p);
        let last = cs[cs.len() - 1];
        assert(last.1 is Dir && quiet(last.1->Dir_0));
        let q = last.1->Dir_0;
        assert(all_quiet(q.children));
        lemma_quiet_no_ops(q.children, p.push(last.0));
        assert(rem_node_ops(last.1, p.push(last.0)) == rem_children_ops(q.children, p.push(last.0)));
        assert(rem_children_ops(cs, p) =~= Seq::<OpView>::empty());
    }
}

proof fn lemma_soft_pass_quiet(cs: Children, dest: DirView)
    ensures
        all_quiet(soft_pass(cs, dest, false).1),
    decreases cs, 0int,
{
    if cs.len() > 0 {
        let pre = cs.subrange(0, cs.len() - 1);
        lemma_soft_pass_quiet(pre, dest);
        let prev = soft_pass(pre, dest, false);
        let n = cs[cs.len() - 1].0;
        let node = cs[cs.len() - 1].1;
        let r = soft_child(n, node, dest, false, prev.0, prev.1).1;
        match node {
            NodeView::Dir(sd) => {
                match crate::ftree::lookup_dir(dest, n) {
                    Some(dd) => {
                        lemma_soft_quiet(sd, dd);
                        assert(r == prev.1.push((n, NodeView::Dir(soft_diff(sd, dd, false).1))));
                        assert forall|i: int| 0 <= i < r.len() implies (#[trigger] r[i]).1 is Dir
                            && quiet(r[i].1->Dir_0) by {
                            if i < prev.1.len() {
                                assert(r[i] == prev.1[i]);
                            }
                        }
                    },
                    None => {},
                }
            },
            NodeView::File(_) => {},
        }
    }
}

proof fn lemma_soft_quiet(src: DirView, dest: DirView)
    ensures
        quiet(soft_diff(src, dest, false).1),
    decreases src, 1int,
{
    lemma_soft_pass_quiet(src.children, dest);
}

/// Soft never deletes anything from the destination: its rem-tree asks for no
/// removal at all.
pub proof fn soft_removes_nothing(src: DirView, dest: DirView)
    ensures
        remove_ops(sync_diff(src, dest, SyncMode::Soft).1) == Seq::<OpView>::empty(),
{
    lemma_soft_quiet(src, dest);
    let r = soft_diff(src, dest, false).1;
    lemma_quiet_no_ops(r.children, Seq::empty());
}

/// An add-tree child `c` that names only entries present in both `s` and `d`, files
/// as files and directories as directories.
pub open spec fn refresh_child(c: (Seq<char>, NodeView), s: DirView, d: DirView) -> bool
    decreases c, 0int,
{
    match c.1 {
        NodeView::File(_) => lookup_file(s, c.0) is Some && lookup_file(d, c.0) is Some,
        NodeView::Dir(x) => lookup_dir(s, c.0) is Some && lookup_dir(d, c.0) is Some && refresh(
            x,
            lookup_dir(s, c.0)->Some_0,
            lookup_dir(d, c.0)->Some_0,
        ),
    }
}

/// An add-tree that creates nothing and names only entries present in both trees.
pub open spec fn refresh(a: DirView, s: DirView, d: DirView) -> bool
    decreases a, 1int,
{
    !a.entirety && forall|i: int|
        0 <= i < a.children.len() ==> refresh_child(#[trigger] a.children[i], s, d)
}

/// Every operation of `ops` copies a file that lies, below the prefix `p`, at a
/// path where both `s` and `d` hold a file.
pub open spec fn copies_within(ops: Seq<OpView>, p: Seq<Seq<char>>, s: DirView, d: DirView) -> bool {
    forall|k: int|
        0 <= k < ops.len() ==> {
            let o = #[trigger] ops[k];
            &&& o.kind == OpKind::CopyFile
            &&& o.path.len() > p.len()
            &&& o.path.subrange(0, p.len() as int) == p
            &&& file_at(s, o.path.subrange(p.len() as int, o.path.len() as int)) is Some
            &&& file_at(d, o.path.subrange(p.len() as int, o.path.len() as int)) is Some
        }
}

proof fn lemma_update_pass_refresh(s: DirView, d: DirView, m: int)
    requires
        unique_names(d),
        0 <= m <= d.children.len(),
    ensures
        forall|i: int|
            0 <= i < update_pass(s, d.children.subrange(0, m)).len() ==> refresh_child(
                #[trigger] update_pass(s, d.children.subrange(0, m))[i],
                s,
                d,
            ),
    decreases d, m,
{
    if m > 0 {
        let cs = d.children.subrange(0, m);
        assert(cs.subrange(0, m - 1) =~= d.children.subrange(0, m - 1));
        lemma_update_pass_refresh(s, d, m - 1);
        let prev = update_pass(s, d.children.subrange(0, m - 1));
        let n = cs[m - 1].0;
        let node = cs[m - 1].1;
        assert(cs[m - 1] == d.children[m - 1]);
        let r = update_pass(s, cs);
        assert(r == update_child(s, n, node, prev));
        match node {
            NodeView::Dir(dd) => {
                match lookup_dir(s, n) {
                    Some(sd) => {
                        lemma_find_dir_unique(d.children, m - 1, 0);
                        assert(lookup_dir(d, n) == Some(dd));
                        assert(unique_names(dd));
                        lemma_update_refresh(sd, dd);
                        assert(refresh_child(r[r.len() - 1], s, d));
                    },
                    None => {},
                }
            },
            NodeView::File(df) => {
                crate::ftree::lemma_find_file_unique(d.children, m - 1, 0);
            },
        }
        assert forall|i: int| 0 <= i < r.len() implies refresh_child(#[trigger] r[i], s, d) by {
            if i < prev.len() {
                assert(r[i] == prev[i]);
            }
        }
    }
}

proof fn lemma_update_refresh(s: DirView, d: DirView)
    requires
        unique_names(d),
    ensures
        refresh(update_diff(s, d), s, d),
    decreases d, d.children.len() + 1,
{
    lemma_update_pass_refresh(s, d, d.children.len() as int);
    assert(d.children.subrange(0, d.children.len() as int) =~= d.children);
    let a = update_diff(s, d);
    assert(a.children == update_pass(s, d.children.subrange(0, d.children.len() as int)));
    assert(forall|i: int| 0 <= i < a.children.len() ==> refresh_child(#[trigger] a.children[i], s, d));
}

proof fn lemma_refresh_ops(
    cs: Children,
    s: DirView,
    d: DirView,
    p: Seq<Seq<char>>,
    g: Option<int>,
    b: int,
)
    requires
        forall|i: int| 0 <= i < cs.len() ==> refresh_child(#[trigger] cs[i], s, d),
    ensures
        copies_within(add_children_ops(cs, p, g, b), p, s, d),
    decreases cs,
{
    if cs.len() > 0 {
        let pre = cs.subrange(0, cs.len() - 1);
        assert forall|i: int| 0 <= i < pre.len() implies refresh_child(#[trigger] pre[i], s, d) by {
            assert(pre[i] == cs[i]);
        }
        lemma_refresh_ops(pre, s, d, p, g, b);
        let prev = add_children_ops(pre, p, g, b);
        let c = cs[cs.len() - 1];
        assert(refresh_child(c, s, d));
        let q = p.push(c.0);
        let tail = add_node_ops(c.1, q, g, b + prev.len());
        let all = add_children_ops(cs, p, g, b);
        assert(all == prev + tail);
        match c.1 {
            NodeView::File(_) => {
                assert forall|k: int| 0 <= k < tail.len() implies {
                    let o = #[trigger] tail[k];
                    &&& o.kind == OpKind::CopyFile
                    &&& o.path.len() > p.len()
                    &&& o.path.subrange(0, p.len() as int) == p
                    &&& file_at(s, o.path.subrange(p.len() as int, o.path.len() as int)) is Some
                    &&& file_at(d, o.path.subrange(p.len() as int, o.path.len() as int)) is Some
                } by {
                    assert(q.subrange(0, p.len() as int) =~= p);
                    assert(q.subrange(p.len() as int, q.len() as int) =~= seq![c.0]);
                }
            },
            NodeView::Dir(x) => {
                let sx = lookup_dir(s, c.0)->Some_0;
                let dx = lookup_dir(d, c.0)->Some_0;
                assert(refresh(x, sx, dx));
                assert(!x.entirety);
                assert(tail == add_children_ops(x.children, q, g, b + prev.len()));
                lemma_refresh_ops(x.children, sx, dx, q, g, b + prev.len());
                assert forall|k: int| 0 <= k < tail.len() implies {
                    let o = #[trigger] tail[k];
                    &&& o.kind == OpKind::CopyFile
                    &&& o.path.len() > p.len()
                    &&& o.path.subrange(0, p.len() as int) == p
                    &&& file_at(s, o.path.subrange(p.len() as int, o.path.len() as int)) is Some
                    &&& file_at(d, o.path.subrange(p.len() as int, o.path.len() as int)) is Some
                } by {
                    let o = tail[k];
                    let rest = o.path.subrange(q.len() as int, o.path.len() as int);
                    let full = o.path.subrange(p.len() as int, o.path.len() as int);
                    assert(o.path.subrange(0, q.len() as int) == q);
                    assert(o.path.subrange(0, p.len() as int) =~= q.subrange(0, p.len() as int));
                    assert(q.subrange(0, p.len() as int) =~= p);
                    assert(full.len() >= 2);
                    assert(full[0] == q[p.len() as int]);
                    assert(full.drop_first() =~= rest);
                    assert(file_at(s, full) == file_at(sx, rest));
                    assert(file_at(d, full) == file_at(dx, rest));
                }
            },
        }
        assert forall|k: int| 0 <= k < all.len() implies {
            let o = #[trigger] all[k];
            &&& o.kind == OpKind::CopyFile
            &&& o.path.len() > p.len()
            &&& o.path.subrange(0, p.len() as int) == p
            &&& file_at(s, o.path.subrange(p.len() as int, o.path.len() as int)) is Some
            &&& file_at(d, o.path.subrange(p.len() as int, o.path.len() as int)) is Some
        } by {
            if k < prev.len() {
                assert(all[k] == prev[k]);
            } else {
                assert(all[k] == tail[k - prev.len()]);
            }
        }
    }
}

/// Update only refreshes: it removes nothing, creates nothing, and copies only
/// files whose relative path holds a file in both the source and the destination.
pub proof fn update_refreshes_only(src: DirView, dest: DirView)
    requires
        unique_names(dest),
    ensures
        remove_ops(sync_diff(src, dest, SyncMode::Update).1) == Seq::<OpView>::empty(),
        forall|k: int|
            0 <= k < apply_ops(sync_diff(src, dest, SyncMode::Update).0).len() ==> {
                let o = #[trigger] apply_ops(sync_diff(src, dest, SyncMode::Update).0)[k];
                &&& o.kind == OpKind::CopyFile
                &&& file_at(src, o.path) is Some
                &&& file_at(dest, o.path) is Some
            },
{
    let a = update_diff(src, dest);
    lemma_update_refresh(src, dest);
    assert(remove_ops(crate::ftree::empty_dir()) =~= Seq::<OpView>::empty());
    let empty = Seq::<Seq<char>>::empty();
    lemma_refresh_ops(a.children, src, dest, empty, None, 0);
    let ops = apply_ops(a);
    assert(ops == add_children_ops(a.children, empty, None, 0));
    assert forall|k: int| 0 <= k < ops.len() implies {
        let o = #[trigger] ops[k];
        &&& o.kind == OpKind::CopyFile
        &&& file_at(src, o.path) is Some
        &&& file_at(dest, o.path) is Some
    } by {
        let o = ops[k];
        assert(o.path.subrange(0, o.path.len() as int) =~= o.path);
    }
}

/// Every operation that `ops` holds lies at or below the prefix `r`, and strictly
/// below it where `strict`.
pub open spec fn below(ops: Seq<OpView>, r: Seq<Seq<char>>, strict: bool) -> bool {
    forall|k: int|
        0 <= k < ops.len() ==> {
            let o = #[trigger] ops[k];
            &&& o.path.len() >= r.len()
            &&& o.path.subrange(0, r.len() as int) == r
            &&& (strict ==> o.path.len() > r.len())
        }
}

pub proof fn lemma_node_below(n: NodeView, r: Seq<Seq<char>>, g: Option<int>, b: int)
    ensures
        below(add_node_ops(n, r, g, b), r, false),
        forall|k: int|
            0 <= k < add_node_ops(n, r, g, b).len() && (#[trigger] add_node_ops(n, r, g, b)[k]).path.len()
                == r.len() ==> add_node_ops(n, r, g, b)[k].kind == (if n is File {
                OpKind::CopyFile
            } else {
                OpKind::CreateDir
            }),
    decreases n, 1int,
{
    let ops = add_node_ops(n, r, g, b);
    assert(r.subrange(0, r.len() as int) =~= r);
    match n {
        NodeView::File(_) => {},
        NodeView::Dir(x) => {
            let inner_g = if x.entirety { Some(b) } else { g };
            let inner_b = if x.entirety { b + 1 } else { b };
            lemma_children_below(x.children, r, inner_g, inner_b);
            let cops = add_children_ops(x.children, r, inner_g, inner_b);
            assert forall|k: int| 0 <= k < ops.len() implies {
                let o = #[trigger] ops[k];
                &&& o.path.len() >= r.len()
                &&& o.path.subrange(0, r.len() as int) == r
                &&& (false ==> o.path.len() > r.len())
            } && (ops[k].path.len() == r.len() ==> ops[k].kind == OpKind::CreateDir) by {
                if x.entirety {
                    if k > 0 {
                        assert(ops[k] == cops[k - 1]);
                    }
                } else {
                    assert(ops[k] == cops[k]);
                }
            }
        },
    }
}

pub proof fn lemma_children_below(cs: Children, r: Seq<Seq<char>>, g: Option<int>, b: int)
    ensures
        below(add_children_ops(cs, r, g, b), r, true),
    decreases cs, 0int,
{
    if cs.len() > 0 {
        let pre = cs.subrange(0, cs.len() - 1);
        lemma_children_below(pre, r, g, b);
        let prev = add_children_ops(pre, r, g, b);
        let c = cs[cs.len() - 1];
        let q = r.push(c.0);
        lemma_node_below(c.1, q, g, b + prev.len());
        let tail = add_node_ops(c.1, q, g, b + prev.len());
        let all = add_children_ops(cs, r, g, b);
        assert(all == prev + tail);
        assert forall|k: int| 0 <= k < all.len() implies {
            let o = #[trigger] all[k];
            &&& o.path.len() >= r.len()
            &&& o.path.subrange(0, r.len() as int) == r
            &&& (true ==> o.path.len() > r.len())
        } by {
            if k < prev.len() {
                assert(all[k] == prev[k]);
            } else {
                let o = tail[k - prev.len()];
                assert(all[k] == o);
                assert(o.path.subrange(0, q.len() as int) == q);
                assert(o.path.subrange(0, r.len() as int) =~= q.subrange(0, r.len() as int));
                assert(q.subrange(0, r.len() as int) =~= r);
            }
        }
    }
}

/// No add-tree child named after the head of `q` can lead to a copy at `q`: where
/// `q` has one component such a child is a directory; otherwise its directories
/// are such children again for the rest of `q`.
pub open spec fn avoids(cs: Children, q: Seq<Seq<char>>) -> bool
    decreases cs, q.len(),
{
    forall|i: int|
        0 <= i < cs.len() && q.len() >= 1 && (#[trigger] cs[i]).0 == q[0] ==> {
            &&& (q.len() == 1 ==> cs[i].1 is Dir)
            &&& (q.len() > 1 && cs[i].1 is Dir ==> avoids(cs[i].1->Dir_0.children, q.drop_first()))
        }
}

proof fn lemma_avoid_ops(cs: Children, pre: Seq<Seq<char>>, q: Seq<Seq<char>>, g: Option<int>, b: int)
    requires
        q.len() >= 1,
        avoids(cs, q),
    ensures
        forall|k: int|
            0 <= k < add_children_ops(cs, pre, g, b).len() && (#[trigger] add_children_ops(
                cs,
                pre,
                g,
                b,
            )[k]).path == pre + q ==> add_children_ops(cs, pre, g, b)[k].kind != OpKind::CopyFile,
    decreases cs,
{
    if cs.len() > 0 {
        let pc = cs.subrange(0, cs.len() - 1);
        assert forall|i: int|
            0 <= i < pc.len() && q.len() >= 1 && (#[trigger] pc[i]).0 == q[0] implies {
            &&& (q.len() == 1 ==> pc[i].1 is Dir)
            &&& (q.len() > 1 && pc[i].1 is Dir ==> avoids(pc[i].1->Dir_0.children, q.drop_first()))
        } by {
            assert(pc[i] == cs[i]);
        }
        lemma_avoid_ops(pc, pre, q, g, b);
        let prev = add_children_ops(pc, pre, g, b);
        let c = cs[cs.len() - 1];
        let r = pre.push(c.0);
        let bb = b + prev.len();
        let tail = add_node_ops(c.1, r, g, bb);
        let all = add_children_ops(cs, pre, g, b);
        assert(all == prev + tail);
        let target = pre + q;
        lemma_node_below(c.1, r, g, bb);
        assert forall|k: int| 0 <= k < tail.len() && (#[trigger] tail[k]).path == target implies tail[k].kind
            != OpKind::CopyFile by {
            let o = tail[k];
            assert(o.path.subrange(0, r.len() as int) == r);
            assert(o.path[pre.len() as int] == o.path.subrange(0, r.len() as int)[pre.len() as int]);
            assert(target[pre.len() as int] == q[0]);
            assert(c.0 == q[0]);
            match c.1 {
                NodeView::File(_) => {
                    assert(q.len() > 1);
                    assert(tail.len() == 1);
                },
                NodeView::Dir(x) => {
                    if o.path.len() == r.len() {
                    } else {
                        let ig = if x.entirety { Some(bb) } else { g };
                        let ib = if x.entirety { bb + 1 } else { bb };
                        let cops = add_children_ops(x.children, r, ig, ib);
                        let j = if x.entirety { k - 1 } else { k };
                        assert(o == cops[j]);
                        if q.len() == 1 {
                            lemma_children_below(x.children, r, ig, ib);
                        } else {
                            assert(avoids(x.children, q.drop_first()));
                            lemma_avoid_ops(x.children, r, q.drop_first(), ig, ib);
                            assert(r + q.drop_first() =~= target);
                        }
                    }
                },
            }
        }
        assert forall|k: int| 0 <= k < all.len() && (#[trigger] all[k]).path == target implies all[k].kind
            != OpKind::CopyFile by {
            if k < prev.len() {
                assert(all[k] == prev[k]);
            } else {
                assert(all[k] == tail[k - prev.len()]);
            }
        }
    }
}

/// The situation in which a file at `p` is to be left alone: both trees hold a file
/// there, and the destination's has the source's size and is not older.
pub open spec fn same_file_at(s: DirView, d: DirView, p: Seq<Seq<char>>) -> bool {
    &&& p.len() >= 1
    &&& file_at(s, p) is Some
    &&& file_at(d, p) is Some
    &&& !differs(file_at(s, p)->Some_0, file_at(d, p)->Some_0)
}

proof fn lemma_same_file_below(s: DirView, d: DirView, p: Seq<Seq<char>>)
    requires
        same_file_at(s, d, p),
        p.len() > 1,
    ensures
        lookup_dir(s, p[0]) is Some,
        lookup_dir(d, p[0]) is Some,
        same_file_at(lookup_dir(s, p[0])->Some_0, lookup_dir(d, p[0])->Some_0, p.drop_first()),
{
}

proof fn lemma_avoids_push(cs: Children, e: (Seq<char>, NodeView), q: Seq<Seq<char>>)
    requires
        avoids(cs, q),
        q.len() >= 1,
        e.0 == q[0] ==> {
            &&& (q.len() == 1 ==> e.1 is Dir)
            &&& (q.len() > 1 && e.1 is Dir ==> avoids(e.1->Dir_0.children, q.drop_first()))
        },
    ensures
        avoids(cs.push(e), q),
{
    let c2 = cs.push(e);
    assert forall|i: int| 0 <= i < c2.len() && q.len() >= 1 && (#[trigger] c2[i]).0 == q[0] implies {
        &&& (q.len() == 1 ==> c2[i].1 is Dir)
        &&& (q.len() > 1 && c2[i].1 is Dir ==> avoids(c2[i].1->Dir_0.children, q.drop_first()))
    } by {
        if i < cs.len() {
            assert(c2[i] == cs[i]);
        }
    }
}

proof fn lemma_avoids_concat(a: Children, b: Children, q: Seq<Seq<char>>)
    requires
        avoids(a, q),
        avoids(b, q),
    ensures
        avoids(a + b, q),
{
    let c = a + b;
    assert forall|i: int| 0 <= i < c.len() && q.len() >= 1 && (#[trigger] c[i]).0 == q[0] implies {
        &&& (q.len() == 1 ==> c[i].1 is Dir)
        &&& (q.len() > 1 && c[i].1 is Dir ==> avoids(c[i].1->Dir_0.children, q.drop_first()))
    } by {
        if i < a.len() {
            assert(c[i] == a[i]);
        } else {
            assert(c[i] == b[i - a.len()]);
        }
    }
}

proof fn lemma_update_pass_avoid(s: DirView, d: DirView, p: Seq<Seq<char>>, m: int)
    requires
        unique_names(d),
        same_file_at(s, d, p),
        0 <= m <= d.children.len(),
    ensures
        avoids(update_pass(s, d.children.subrange(0, m)), p),
    decreases d, m,
{
    if m > 0 {
        let cs = d.children.subrange(0, m);
        assert(cs.subrange(0, m - 1) =~= d.children.subrange(0, m - 1));
        lemma_update_pass_avoid(s, d, p, m - 1);
        let prev = update_pass(s, d.children.subrange(0, m - 1));
        let n = cs[m - 1].0;
        let node = cs[m - 1].1;
        assert(cs[m - 1] == d.children[m - 1]);
        let r = update_pass(s, cs);
        assert(r == update_child(s, n, node, prev));
        if n == p[0] {
            match node {
                NodeView::Dir(dd) => {
                    match lookup_dir(s, n) {
                        Some(sd) => {
                            if p.len() > 1 {
                                lemma_find_dir_unique(d.children, m - 1, 0);
                                lemma_same_file_below(s, d, p);
                                lemma_update_avoid(sd, dd, p.drop_first());
                            }
                            lemma_avoids_push(prev, (n, NodeView::Dir(update_diff(sd, dd))), p);
                        },
                        None => {},
                    }
                },
                NodeView::File(df) => {
                    lemma_find_file_unique(d.children, m - 1, 0);
                    match lookup_file(s, n) {
                        Some(sf) => {
                            if differs(sf, df) {
                                lemma_avoids_push(prev, (n, NodeView::File(sf)), p);
                            }
                        },
                        None => {},
                    }
                },
            }
        } else {
            if r != prev {
                lemma_avoids_push(prev, r[r.len() - 1], p);
                assert(r =~= prev.push(r[r.len() - 1]));
            }
        }
    }
}

proof fn lemma_update_avoid(s: DirView, d: DirView, p: Seq<Seq<char>>)
    requires
        unique_names(d),
        same_file_at(s, d, p),
    ensures
        avoids(update_diff(s, d).children, p),
    decreases d, d.children.len() + 1,
{
    lemma_update_pass_avoid(s, d, p, d.children.len() as int);
    assert(d.children.subrange(0, d.children.len() as int) =~= d.children);
}

proof fn lemma_hard_src_avoid(cs: Children, d: DirView, p: Seq<Seq<char>>)
    requires
        p.len() >= 1,
        file_at(d, p) is Some,
    ensures
        avoids(hard_src_pass(cs, d), p),
    decreases cs.len(),
{
    if cs.len() > 0 {
        let pre = cs.subrange(0, cs.len() - 1);
        lemma_hard_src_avoid(pre, d, p);
        let a = hard_src_pass(pre, d);
        let r = hard_src_pass(cs, d);
        if r != a {
            assert(r =~= a.push(r[r.len() - 1]));
            lemma_avoids_push(a, r[r.len() - 1], p);
        }
    }
}

proof fn lemma_hard_dest_avoid(s: DirView, d: DirView, p: Seq<Seq<char>>, m: int)
    requires
        unique_names(d),
        same_file_at(s, d, p),
        0 <= m <= d.children.len(),
    ensures
        avoids(hard_dest_pass(s, d.children.subrange(0, m)).0, p),
    decreases d, m,
{
    if m > 0 {
        let cs = d.children.subrange(0, m);
        assert(cs.subrange(0, m - 1) =~= d.children.subrange(0, m - 1));
        lemma_hard_dest_avoid(s, d, p, m - 1);
        let prev = hard_dest_pass(s, d.children.subrange(0, m - 1));
        let n = cs[m - 1].0;
        let node = cs[m - 1].1;
        assert(cs[m - 1] == d.children[m - 1]);
        let r = hard_dest_pass(s, cs).0;
        assert(hard_dest_pass(s, cs) == hard_dest_child(s, n, node, prev.0, prev.1));
        if n == p[0] {
            match node {
                NodeView::Dir(dd) => {
                    match lookup_dir(s, n) {
                        Some(sd) => {
                            if p.len() > 1 {
                                lemma_find_dir_unique(d.children, m - 1, 0);
                                lemma_same_file_below(s, d, p);
                                lemma_hard_avoid(sd, dd, p.drop_first());
                            }
                            lemma_avoids_push(prev.0, (n, NodeView::Dir(hard_diff(sd, dd).0)), p);
                        },
                        None => {},
                    }
                },
                NodeView::File(df) => {
                    lemma_find_file_unique(d.children, m - 1, 0);
                    match lookup_file(s, n) {
                        Some(sf) => {
                            if differs(sf, df) {
                                lemma_avoids_push(prev.0, (n, NodeView::File(sf)), p);
                            }
                        },
                        None => {},
                    }
                },
            }
        } else {
            if r != prev.0 {
                lemma_avoids_push(prev.0, r[r.len() - 1], p);
                assert(r =~= prev.0.push(r[r.len() - 1]));
            }
        }
    }
}

proof fn lemma_hard_avoid(s: DirView, d: DirView, p: Seq<Seq<char>>)
    requires
        unique_names(d),
        same_file_at(s, d, p),
    ensures
        avoids(hard_diff(s, d).0.children, p),
    decreases d, d.children.len() + 1,
{
    lemma_hard_dest_avoid(s, d, p, d.children.len() as int);
    assert(d.children.subrange(0, d.children.len() as int) =~= d.children);
    lemma_hard_src_avoid(s.children, d, p);
    lemma_avoids_concat(hard_dest_pass(s, d.children).0, hard_src_pass(s.children, d), p);
}

proof fn lemma_soft_pass_avoid(s: DirView, d: DirView, p: Seq<Seq<char>>, mixed: bool, m: int)
    requires
        unique_names(s),
        same_file_at(s, d, p),
        0 <= m <= s.children.len(),
    ensures
        avoids(soft_pass(s.children.subrange(0, m), d, mixed).0, p),
    decreases s, m,
{
    if m > 0 {
        let cs = s.children.subrange(0, m);
        assert(cs.subrange(0, m - 1) =~= s.children.subrange(0, m - 1));
        lemma_soft_pass_avoid(s, d, p, mixed, m - 1);
        let prev = soft_pass(s.children.subrange(0, m - 1), d, mixed);
        let n = cs[m - 1].0;
        let node = cs[m - 1].1;
        assert(cs[m - 1] == s.children[m - 1]);
        let r = soft_pass(cs, d, mixed).0;
        assert(soft_pass(cs, d, mixed) == soft_child(n, node, d, mixed, prev.0, prev.1));
        if n == p[0] {
            match node {
                NodeView::Dir(sd) => {
                    match lookup_dir(d, n) {
                        Some(dd) => {
                            if p.len() > 1 {
                                lemma_find_dir_unique(s.children, m - 1, 0);
                                lemma_same_file_below(s, d, p);
                                lemma_soft_avoid(sd, dd, p.drop_first(), mixed);
                            }
                            lemma_avoids_push(
                                prev.0,
                                (n, NodeView::Dir(soft_diff(sd, dd, mixed).0)),
                                p,
                            );
                        },
                        None => {
                            if r != prev.0 {
                                assert(r =~= prev.0.push(r[r.len() - 1]));
                                lemma_avoids_push(prev.0, r[r.len() - 1], p);
                            }
                        },
                    }
                },
                NodeView::File(sf) => {
                    lemma_find_file_unique(s.children, m - 1, 0);
                    if r != prev.0 {
                        assert(r =~= prev.0.push(r[r.len() - 1]));
                        lemma_avoids_push(prev.0, r[r.len() - 1], p);
                    }
                },
            }
        } else {
            if r != prev.0 {
                lemma_avoids_push(prev.0, r[r.len() - 1], p);
                assert(r =~= prev.0.push(r[r.len() - 1]));
            }
        }
    }
}

proof fn lemma_soft_avoid(s: DirView, d: DirView, p: Seq<Seq<char>>, mixed: bool)
    requires
        unique_names(s),
        same_file_at(s, d, p),
    ensures
        avoids(soft_diff(s, d, mixed).0.children, p),
    decreases s, s.children.len() + 1,
{
    lemma_soft_pass_avoid(s, d, p, mixed, s.children.len() as int);
    assert(s.children.subrange(0, s.children.len() as int) =~= s.children);
}

/// Whatever the mode, a file that the destination holds with the source's size and
/// a modification time no earlier than the source's is not copied.
pub proof fn same_file_not_copied(src: DirView, dest: DirView, mode: SyncMode, p: Seq<Seq<char>>)
    requires
        unique_names(src),
        unique_names(dest),
        file_at(src, p) is Some,
        file_at(dest, p) is Some,
        !differs(file_at(src, p)->Some_0, file_at(dest, p)->Some_0),
    ensures
        forall|k: int|
            0 <= k < apply_ops(sync_diff(src, dest, mode).0).len() && (#[trigger] apply_ops(
                sync_diff(src, dest, mode).0,
            )[k]).path == p ==> apply_ops(sync_diff(src, dest, mode).0)[k].kind != OpKind::CopyFile,
{
    let a = sync_diff(src, dest, mode).0;
    match mode {
        SyncMode::Soft => lemma_soft_avoid(src, dest, p, false),
        SyncMode::Mixed => lemma_soft_avoid(src, dest, p, true),
        SyncMode::Hard => lemma_hard_avoid(src, dest, p),
        SyncMode::Update => lemma_update_avoid(src, dest, p),
    }
    let empty = Seq::<Seq<char>>::empty();
    assert(!a.entirety);
    assert(apply_ops(a) == add_children_ops(a.children, empty, None, 0));
    lemma_avoid_ops(a.children, empty, p, None, 0);
    assert(empty + p =~= p);
}

pub proof fn lemma_quiet_no_adds(cs: Children, p: Seq<Seq<char>>, g: Option<int>, b: int)
    requires
        all_quiet(cs),
    ensures
        add_children_ops(cs, p, g, b) == Seq::<OpView>::empty(),
    decreases cs,
{
    if cs.len() > 0 {
        let pre = cs.subrange(0, cs.len() - 1);
        assert forall|i: int| 0 <= i < pre.len() implies (#[trigger] pre[i]).1 is Dir && quiet(
            pre[i].1->Dir_0,
        ) by {
            assert(pre[i] == cs[i]);
        }
        lemma_quiet_no_adds(pre, p, g, b);
        let last = cs[cs.len() - 1];
        assert(last.1 is Dir && quiet(last.1->Dir_0));
        let q = last.1->Dir_0;
        assert(all_quiet(q.children));
        lemma_quiet_no_adds(q.children, p.push(last.0), g, b);
        assert(add_node_ops(last.1, p.push(last.0), g, b) == add_children_ops(
            q.children,
            p.push(last.0),
            g,
            b,
        ));
        assert(add_children_ops(cs, p, g, b) =~= Seq::<OpView>::empty());
    }
}

} // verus!
