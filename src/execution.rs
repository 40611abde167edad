use vstd::prelude::*;
use crate::effect::{entry, entry_ok, lemma_entry, lemma_put, put};
use crate::ftree::{lookup_dir, unique_names, DirView, FnodeFile, NodeView};
use crate::plan::{rem_children_ops, rem_node_ops, OpKind, OpView};
use crate::ftree::Children;
use crate::effect::{
    add_apply, add_entry, copied, lemma_add_unique, lemma_rem_unique, rem_apply, rem_entry,
};
use crate::ftree::empty_dir;
use crate::plan::{add_children_ops, add_node_ops};
use crate::pruning::lemma_find_absent;

verus! {

/// What a path of a filesystem holds.
pub enum Kind {
    File(FnodeFile),
    Dir,
}

/// A filesystem below a root: what each relative path holds.
pub type Fs = Map<Seq<Seq<char>>, Kind>;

pub open spec fn get(m: Fs, x: Seq<Seq<char>>) -> Option<Kind> {
    if m.contains_key(x) {
        Some(m[x])
    } else {
        None
    }
}

/// What the tree `t` holds at the relative path `p`.
pub open spec fn kind_at(t: DirView, p: Seq<Seq<char>>) -> Option<Kind>
    decreases p.len(),
{
    if p.len() == 0 {
        None
    } else if p.len() == 1 {
        match entry(t, p[0]) {
            Some(NodeView::File(f)) => Some(Kind::File(f)),
            Some(NodeView::Dir(_)) => Some(Kind::Dir),
            None => None,
        }
    } else {
        match lookup_dir(t, p[0]) {
            Some(sub) => kind_at(sub, p.drop_first()),
            None => None,
        }
    }
}

/// The filesystem that a tree describes.
pub open spec fn flat(t: DirView) -> Fs {
    Map::new(|p: Seq<Seq<char>>| kind_at(t, p) is Some, |p: Seq<Seq<char>>| kind_at(t, p)->Some_0)
}

/// A filesystem in which every path but the root's children lies in a directory.
pub open spec fn wf(m: Fs) -> bool {
    forall|x: Seq<Seq<char>>|
        #[trigger] m.contains_key(x) ==> x.len() >= 1 && (x.len() > 1 ==> get(m, x.drop_last())
            == Some(Kind::Dir))
}

/// Below the path `p`, `m` holds just what the tree `u` holds.
pub open spec fn holds_at(m: Fs, p: Seq<Seq<char>>, u: DirView) -> bool {
    forall|q: Seq<Seq<char>>| q.len() >= 1 ==> #[trigger] get(m, p + q) == kind_at(u, q)
}

pub open spec fn under(w: Seq<Seq<char>>, x: Seq<Seq<char>>) -> bool {
    x.len() > w.len() && x.subrange(0, w.len() as int) == w
}

proof fn lemma_kind_unique(t: DirView, q: Seq<Seq<char>>)
    requires
        unique_names(t),
        q.len() >= 1,
    ensures
        kind_at(t, q) == (if q.len() == 1 {
            match entry(t, q[0]) {
                Some(NodeView::File(f)) => Some(Kind::File(f)),
                Some(NodeView::Dir(_)) => Some(Kind::Dir),
                None => None,
            }
        } else {
            match entry(t, q[0]) {
                Some(NodeView::Dir(sub)) => kind_at(sub, q.drop_first()),
                _ => None,
            }
        }),
{
    lemma_entry(t, q[0]);
}

/// Putting an entry under `n` changes what lies at paths that start with `n`, and
/// nothing else.
pub proof fn lemma_kind_put(u: DirView, n: Seq<char>, e: Option<NodeView>, q: Seq<Seq<char>>)
    requires
        unique_names(u),
        entry_ok(e),
        q.len() >= 1,
    ensures
        q[0] != n ==> kind_at(put(u, n, e), q) == kind_at(u, q),
        q[0] == n && q.len() == 1 ==> kind_at(put(u, n, e), q) == match e {
            Some(NodeView::File(f)) => Some(Kind::File(f)),
            Some(NodeView::Dir(_)) => Some(Kind::Dir),
            None => None,
        },
        q[0] == n && q.len() > 1 ==> kind_at(put(u, n, e), q) == match e {
            Some(NodeView::Dir(sub)) => kind_at(sub, q.drop_first()),
            _ => None,
        },
{
    lemma_put(u, n, e);
    let v = put(u, n, e);
    lemma_kind_unique(u, q);
    lemma_kind_unique(v, q);
}

/// What a tree holds at a path below one of its directories.
pub proof fn lemma_holds_sub(m: Fs, p: Seq<Seq<char>>, u: DirView, n: Seq<char>)
    requires
        unique_names(u),
        holds_at(m, p, u),
        entry(u, n) is Some && entry(u, n)->Some_0 is Dir,
    ensures
        holds_at(m, p.push(n), entry(u, n)->Some_0->Dir_0),
        get(m, p.push(n)) == Some(Kind::Dir),
{
    let sub = entry(u, n)->Some_0->Dir_0;
    assert forall|q: Seq<Seq<char>>| q.len() >= 1 implies #[trigger] get(m, p.push(n) + q) == kind_at(
        sub,
        q,
    ) by {
        let q2 = seq![n] + q;
        assert(p.push(n) + q =~= p + q2);
        assert(q2.drop_first() =~= q);
        assert(q2[0] == n);
        lemma_kind_unique(u, q2);
        assert(get(m, p + q2) == kind_at(u, q2));
    }
    let q1 = seq![n];
    assert(p.push(n) =~= p + q1);
    lemma_kind_unique(u, q1);
    assert(get(m, p + q1) == kind_at(u, q1));
}

/// The filesystem of a tree holds the tree at its root, and is well formed.
pub proof fn lemma_flat(t: DirView)
    requires
        unique_names(t),
    ensures
        holds_at(flat(t), Seq::empty(), t),
        wf(flat(t)),
        !flat(t).contains_key(Seq::empty()),
{
    let m = flat(t);
    assert forall|q: Seq<Seq<char>>| q.len() >= 1 implies #[trigger] get(m, Seq::empty() + q) == kind_at(
        t,
        q,
    ) by {
        assert(Seq::<Seq<char>>::empty() + q =~= q);
    }
    assert forall|x: Seq<Seq<char>>| #[trigger] m.contains_key(x) implies x.len() >= 1 && (x.len() > 1
        ==> get(m, x.drop_last()) == Some(Kind::Dir)) by {
        if x.len() > 1 {
            lemma_kind_parent(t, x);
        }
    }
}

/// Whatever a tree holds at a path of two or more components lies in a directory.
pub proof fn lemma_kind_parent(t: DirView, x: Seq<Seq<char>>)
    requires
        unique_names(t),
        x.len() > 1,
        kind_at(t, x) is Some,
    ensures
        kind_at(t, x.drop_last()) == Some(Kind::Dir),
    decreases x.len(),
{
    let sub = lookup_dir(t, x[0])->Some_0;
    let r = x.drop_first();
    lemma_entry(t, x[0]);
    if x.len() == 2 {
        assert(x.drop_last() =~= seq![x[0]]);
    } else {
        lemma_kind_parent(sub, r);
        assert(x.drop_last().drop_first() =~= r.drop_last());
        assert(x.drop_last()[0] == x[0]);
    }
}

/// Whether the parent of `p` is a directory: the root, or a directory path.
pub open spec fn parent_dir(m: Fs, p: Seq<Seq<char>>) -> bool {
    p.len() == 1 || (p.len() > 1 && get(m, p.drop_last()) == Some(Kind::Dir))
}

/// One operation on the destination `m`, with the source `sm` and the clock `now`:
/// the filesystem after it, and whether it succeeded. A deletion needs the entry of
/// its kind; a creation needs a directory as parent and nothing at the path; a copy
/// needs a directory as parent, no directory at the path and a source file there.
pub open spec fn op_step(m: Fs, sm: Fs, now: u128, o: OpView) -> (Fs, bool) {
    let p = o.path;
    match o.kind {
        OpKind::RemoveFile => if get(m, p) is Some && get(m, p)->Some_0 is File {
            (m.remove(p), true)
        } else {
            (m, false)
        },
        OpKind::RemoveDir => if get(m, p) == Some(Kind::Dir) {
            (
                Map::new(
                    |x: Seq<Seq<char>>| m.contains_key(x) && x != p && !under(p, x),
                    |x: Seq<Seq<char>>| m[x],
                ),
                true,
            )
        } else {
            (m, false)
        },
        OpKind::CreateDir => if parent_dir(m, p) && get(m, p) is None {
            (m.insert(p, Kind::Dir), true)
        } else {
            (m, false)
        },
        OpKind::CopyFile => if parent_dir(m, p) && get(m, p) != Some(Kind::Dir) && get(sm, p) is Some
            && get(sm, p)->Some_0 is File {
            (m.insert(p, Kind::File(copied(get(sm, p)->Some_0->File_0, now))), true)
        } else {
            (m, false)
        },
    }
}

/// Whether an operation with guard `g` may run, given the outcomes so far.
pub open spec fn allowed(g: Option<int>, done: Seq<bool>) -> bool {
    match g {
        None => true,
        Some(k) => 0 <= k < done.len() && done[k],
    }
}

/// The operations `ops` carried out in order on `m`, each only where its guard
/// allows; `done` holds the outcomes of the operations before them, and the
/// outcomes of these are added to it.
pub open spec fn run_ops(m: Fs, sm: Fs, now: u128, ops: Seq<OpView>, done: Seq<bool>) -> (Fs, Seq<bool>)
    decreases ops.len(),
{
    if ops.len() == 0 {
        (m, done)
    } else {
        let o = ops[0];
        let r = if allowed(o.guard, done) {
            op_step(m, sm, now, o)
        } else {
            (m, false)
        };
        run_ops(r.0, sm, now, ops.drop_first(), done.push(r.1))
    }
}

pub proof fn lemma_run_concat(m: Fs, sm: Fs, now: u128, a: Seq<OpView>, b: Seq<OpView>, done: Seq<bool>)
    ensures
        run_ops(m, sm, now, a + b, done) == run_ops(
            run_ops(m, sm, now, a, done).0,
            sm,
            now,
            b,
            run_ops(m, sm, now, a, done).1,
        ),
        run_ops(m, sm, now, a, done).1.len() == done.len() + a.len(),
        run_ops(m, sm, now, a, done).1.subrange(0, done.len() as int) == done,
    decreases a.len(),
{
    if a.len() == 0 {
        assert(a + b =~= b);
        assert(done.subrange(0, done.len() as int) =~= done);
    } else {
        let o = a[0];
        let r = if allowed(o.guard, done) {
            op_step(m, sm, now, o)
        } else {
            (m, false)
        };
        assert((a + b)[0] == o);
        assert((a + b).drop_first() =~= a.drop_first() + b);
        lemma_run_concat(r.0, sm, now, a.drop_first(), b, done.push(r.1));
        let d2 = run_ops(r.0, sm, now, a.drop_first(), done.push(r.1)).1;
        assert(d2.subrange(0, done.len() as int) =~= d2.subrange(0, (done.len() + 1) as int).subrange(
            0,
            done.len() as int,
        ));
        assert(done.push(r.1).subrange(0, done.len() as int) =~= done);
    }
}

/// Nothing at or below `w` in `m` is a directory, nor anything at all below it.
pub open spec fn dead(m: Fs, w: Seq<Seq<char>>) -> bool {
    &&& w.len() >= 1
    &&& get(m, w) != Some(Kind::Dir)
    &&& forall|x: Seq<Seq<char>>| under(w, x) ==> #[trigger] get(m, x) is None
}

pub open spec fn all_under(ops: Seq<OpView>, w: Seq<Seq<char>>) -> bool {
    forall|k: int| 0 <= k < ops.len() ==> under(w, (#[trigger] ops[k]).path)
}

/// Operations below a dead path all fail, and change nothing.
pub proof fn lemma_run_dead(m: Fs, sm: Fs, now: u128, ops: Seq<OpView>, done: Seq<bool>, w: Seq<Seq<char>>)
    requires
        dead(m, w),
        all_under(ops, w),
    ensures
        run_ops(m, sm, now, ops, done).0 == m,
    decreases ops.len(),
{
    if ops.len() > 0 {
        let o = ops[0];
        let p = o.path;
        assert(under(w, p));
        assert(get(m, p) is None);
        if p.len() > 1 {
            let par = p.drop_last();
            if par.len() > w.len() {
                assert(par.subrange(0, w.len() as int) =~= p.subrange(0, w.len() as int));
                assert(under(w, par));
            } else {
                assert(par =~= w);
            }
        }
        assert(op_step(m, sm, now, o).0 == m);
        let rest = ops.drop_first();
        assert forall|k: int| 0 <= k < rest.len() implies under(w, (#[trigger] rest[k]).path) by {
            assert(rest[k] == ops[k + 1]);
        }
        let r = if allowed(o.guard, done) {
            op_step(m, sm, now, o)
        } else {
            (m, false)
        };
        lemma_run_dead(m, sm, now, rest, done.push(r.1), w);
    }
}

/// How a path `p + q` relates to the child path `p.push(n)`.
proof fn lemma_path_split(p: Seq<Seq<char>>, n: Seq<char>, q: Seq<Seq<char>>)
    requires
        q.len() >= 1,
    ensures
        q[0] != n ==> !under(p.push(n), p + q) && p + q != p.push(n),
        q[0] == n && q.len() == 1 ==> p + q == p.push(n),
        q[0] == n && q.len() > 1 ==> p + q == p.push(n) + q.drop_first() && under(p.push(n), p + q),
        under(p, p + q),
{
    let w = p.push(n);
    let x = p + q;
    assert(x[p.len() as int] == q[0]);
    assert(x.subrange(0, p.len() as int) =~= p);
    if q[0] != n {
        if x.len() >= w.len() {
            assert(x.subrange(0, w.len() as int)[p.len() as int] == q[0]);
        }
        assert(x != w) by {
            if x == w {
                assert(x[p.len() as int] == w[p.len() as int]);
            }
        }
    } else if q.len() == 1 {
        assert(x =~= w);
    } else {
        assert(x =~= w + q.drop_first());
        assert(x.subrange(0, w.len() as int) =~= w);
    }
}

/// A path outside `p` lies outside each child path of `p`.
proof fn lemma_outside(p: Seq<Seq<char>>, n: Seq<char>, x: Seq<Seq<char>>)
    requires
        !under(p, x),
    ensures
        !under(p.push(n), x),
        x != p.push(n),
{
    let w = p.push(n);
    if x.len() > w.len() && x.subrange(0, w.len() as int) == w {
        assert(x.subrange(0, p.len() as int) =~= x.subrange(0, w.len() as int).subrange(0, p.len() as int));
        assert(w.subrange(0, p.len() as int) =~= p);
    }
    if x == w {
        assert(x.subrange(0, p.len() as int) =~= p);
    }
}

pub proof fn lemma_rem_ops_under(cs: Children, p: Seq<Seq<char>>)
    ensures
        all_under(rem_children_ops(cs, p), p),
    decreases cs, 0int,
{
    if cs.len() > 0 {
        let pre = cs.subrange(0, cs.len() - 1);
        lemma_rem_ops_under(pre, p);
        let c = cs[cs.len() - 1];
        let w = p.push(c.0);
        lemma_rem_node_under(c.1, w);
        let a = rem_children_ops(pre, p);
        let b = rem_node_ops(c.1, w);
        assert(rem_children_ops(cs, p) == a + b);
        assert forall|k: int| 0 <= k < (a + b).len() implies under(p, (#[trigger] (a + b)[k]).path) by {
            if k < a.len() {
                assert((a + b)[k] == a[k]);
            } else {
                let o = b[k - a.len()];
                assert((a + b)[k] == o);
                assert(o.path == w || under(w, o.path));
                assert(w.subrange(0, p.len() as int) =~= p);
                if o.path != w {
                    assert(o.path.subrange(0, p.len() as int) =~= o.path.subrange(0, w.len() as int).subrange(
                        0,
                        p.len() as int,
                    ));
                }
            }
        }
    }
}

pub proof fn lemma_rem_node_under(node: NodeView, w: Seq<Seq<char>>)
    ensures
        forall|k: int|
            0 <= k < rem_node_ops(node, w).len() ==> (#[trigger] rem_node_ops(node, w)[k]).path == w
                || under(w, rem_node_ops(node, w)[k].path),
    decreases node, 1int,
{
    match node {
        NodeView::File(_) => {},
        NodeView::Dir(x) => {
            if !x.entirety {
                lemma_rem_ops_under(x.children, w);
            }
        },
    }
}

proof fn lemma_same_kinds(u: DirView, n: Seq<char>, q: Seq<Seq<char>>)
    requires
        unique_names(u),
        q.len() >= 1,
    ensures
        kind_at(put(u, n, entry(u, n)), q) == kind_at(u, q),
{
    lemma_entry(u, n);
    lemma_kind_put(u, n, entry(u, n), q);
    if q[0] == n {
        lemma_kind_unique(u, q);
    }
}

/// `m2` holds `u2` below `p`, is well formed, and agrees with `m` outside `p`.
pub open spec fn settled(m: Fs, m2: Fs, p: Seq<Seq<char>>, u2: DirView) -> bool {
    &&& wf(m2)
    &&& holds_at(m2, p, u2)
    &&& forall|x: Seq<Seq<char>>| !under(p, x) ==> #[trigger] get(m2, x) == get(m, x)
}

proof fn lemma_single_op(m: Fs, sm: Fs, now: u128, o: OpView, done: Seq<bool>)
    requires
        o.guard is None,
    ensures
        run_ops(m, sm, now, seq![o], done).0 == op_step(m, sm, now, o).0,
{
    let r = op_step(m, sm, now, o);
    assert(seq![o][0] == o);
    assert(seq![o].drop_first() =~= Seq::<OpView>::empty());
    assert(run_ops(r.0, sm, now, Seq::<OpView>::empty(), done.push(r.1)).0 == r.0);
}

proof fn lemma_rem_unchanged(m: Fs, sm: Fs, now: u128, u: DirView, n: Seq<char>, p: Seq<Seq<char>>)
    requires
        wf(m),
        unique_names(u),
        holds_at(m, p, u),
    ensures
        settled(m, m, p, put(u, n, entry(u, n))),
{
    assert forall|q: Seq<Seq<char>>| q.len() >= 1 implies #[trigger] get(m, p + q) == kind_at(
        put(u, n, entry(u, n)),
        q,
    ) by {
        lemma_same_kinds(u, n, q);
    }
}

proof fn lemma_rem_file(m: Fs, sm: Fs, now: u128, u: DirView, n: Seq<char>, p: Seq<Seq<char>>)
    requires
        wf(m),
        unique_names(u),
        holds_at(m, p, u),
        entry(u, n) is Some && entry(u, n)->Some_0 is File,
    ensures
        settled(m, m.remove(p.push(n)), p, put(u, n, None)),
{
    let w = p.push(n);
    let m2 = m.remove(w);
    lemma_entry(u, n);
    lemma_path_split(p, n, seq![n]);
    assert(get(m, p + seq![n]) == kind_at(u, seq![n]));
    lemma_put(u, n, None);
    assert forall|q: Seq<Seq<char>>| q.len() >= 1 implies #[trigger] get(m2, p + q) == kind_at(
        put(u, n, None),
        q,
    ) by {
        lemma_path_split(p, n, q);
        lemma_kind_put(u, n, None, q);
        lemma_kind_unique(u, q);
        assert(get(m, p + q) == kind_at(u, q));
        if p + q != w {
            assert(get(m2, p + q) == get(m, p + q));
        }
    }
    assert forall|y: Seq<Seq<char>>| #[trigger] m2.contains_key(y) implies y.len() >= 1 && (y.len() > 1
        ==> get(m2, y.drop_last()) == Some(Kind::Dir)) by {
        assert(m.contains_key(y));
        if y.len() > 1 {
            assert(y.drop_last() != w);
        }
    }
    assert forall|x: Seq<Seq<char>>| !under(p, x) implies #[trigger] get(m2, x) == get(m, x) by {
        lemma_outside(p, n, x);
    }
}

pub open spec fn cut(m: Fs, w: Seq<Seq<char>>) -> Fs {
    Map::new(|x: Seq<Seq<char>>| m.contains_key(x) && x != w && !under(w, x), |x: Seq<Seq<char>>| m[x])
}

proof fn lemma_rem_whole(m: Fs, sm: Fs, now: u128, u: DirView, n: Seq<char>, p: Seq<Seq<char>>)
    requires
        wf(m),
        unique_names(u),
        holds_at(m, p, u),
        entry(u, n) is Some && entry(u, n)->Some_0 is Dir,
    ensures
        settled(m, cut(m, p.push(n)), p, put(u, n, None)),
{
    let w = p.push(n);
    let m2 = cut(m, w);
    lemma_entry(u, n);
    lemma_put(u, n, None);
    assert forall|q: Seq<Seq<char>>| q.len() >= 1 implies #[trigger] get(m2, p + q) == kind_at(
        put(u, n, None),
        q,
    ) by {
        lemma_path_split(p, n, q);
        lemma_kind_put(u, n, None, q);
        assert(get(m, p + q) == kind_at(u, q));
        if q[0] != n {
            assert(get(m2, p + q) == get(m, p + q));
        } else {
            assert(!m2.contains_key(p + q));
        }
    }
    assert forall|y: Seq<Seq<char>>| #[trigger] m2.contains_key(y) implies y.len() >= 1 && (y.len() > 1
        ==> get(m2, y.drop_last()) == Some(Kind::Dir)) by {
        assert(m.contains_key(y));
        if y.len() > 1 {
            let par = y.drop_last();
            if par == w {
                assert(y.subrange(0, w.len() as int) =~= w);
                assert(under(w, y));
            } else if under(w, par) {
                assert(y.subrange(0, w.len() as int) =~= par.subrange(0, w.len() as int));
                assert(under(w, y));
            }
        }
    }
    assert forall|x: Seq<Seq<char>>| !under(p, x) implies #[trigger] get(m2, x) == get(m, x) by {
        lemma_outside(p, n, x);
    }
}

proof fn lemma_rem_dead_below(m: Fs, u: DirView, n: Seq<char>, p: Seq<Seq<char>>)
    requires
        unique_names(u),
        holds_at(m, p, u),
        !(entry(u, n) is Some && entry(u, n)->Some_0 is Dir),
    ensures
        dead(m, p.push(n)),
{
    let w = p.push(n);
    lemma_entry(u, n);
    lemma_path_split(p, n, seq![n]);
    assert(get(m, p + seq![n]) == kind_at(u, seq![n]));
    assert forall|y: Seq<Seq<char>>| under(w, y) implies #[trigger] get(m, y) is None by {
        let q = y.subrange(p.len() as int, y.len() as int);
        assert(y.subrange(0, p.len() as int) =~= y.subrange(0, w.len() as int).subrange(0, p.len() as int));
        assert(w.subrange(0, p.len() as int) =~= p);
        assert(y =~= p + q);
        assert(y.subrange(0, w.len() as int)[p.len() as int] == w[p.len() as int]);
        assert(q[0] == y[p.len() as int]);
        lemma_kind_unique(u, q);
    }
}

proof fn lemma_rem_descend(
    m: Fs,
    sm: Fs,
    now: u128,
    u: DirView,
    n: Seq<char>,
    x: DirView,
    p: Seq<Seq<char>>,
    done: Seq<bool>,
)
    requires
        wf(m),
        unique_names(u),
        holds_at(m, p, u),
        entry(u, n) is Some && entry(u, n)->Some_0 is Dir,
    ensures
        settled(
            m,
            run_ops(m, sm, now, rem_children_ops(x.children, p.push(n)), done).0,
            p,
            put(u, n, Some(NodeView::Dir(rem_apply(entry(u, n)->Some_0->Dir_0, x.children)))),
        ),
    decreases x, 0int,
{
    let w = p.push(n);
    let sub = entry(u, n)->Some_0->Dir_0;
    lemma_entry(u, n);
    lemma_holds_sub(m, p, u, n);
    lemma_run_rem(m, sm, now, sub, x.children, w, done);
    let m2 = run_ops(m, sm, now, rem_children_ops(x.children, w), done).0;
    let e2 = Some(NodeView::Dir(rem_apply(sub, x.children)));
    lemma_rem_unique(sub, x.children);
    lemma_put(u, n, e2);
    assert forall|q: Seq<Seq<char>>| q.len() >= 1 implies #[trigger] get(m2, p + q) == kind_at(
        put(u, n, e2),
        q,
    ) by {
        lemma_path_split(p, n, q);
        lemma_kind_put(u, n, e2, q);
        if q[0] == n && q.len() > 1 {
            assert(get(m2, w + q.drop_first()) == kind_at(rem_apply(sub, x.children), q.drop_first()));
        } else if q[0] != n {
            assert(get(m2, p + q) == get(m, p + q));
        } else {
            assert(!under(w, w));
            assert(get(m2, w) == get(m, w));
        }
    }
    assert forall|y: Seq<Seq<char>>| !under(p, y) implies #[trigger] get(m2, y) == get(m, y) by {
        lemma_outside(p, n, y);
    }
}

proof fn lemma_run_rem_node(
    m: Fs,
    sm: Fs,
    now: u128,
    u: DirView,
    n: Seq<char>,
    node: NodeView,
    p: Seq<Seq<char>>,
    done: Seq<bool>,
)
    requires
        wf(m),
        unique_names(u),
        holds_at(m, p, u),
    ensures
        settled(
            m,
            run_ops(m, sm, now, rem_node_ops(node, p.push(n)), done).0,
            p,
            put(u, n, rem_entry(entry(u, n), node)),
        ),
    decreases node, 1int,
{
    let w = p.push(n);
    let e = entry(u, n);
    lemma_entry(u, n);
    lemma_path_split(p, n, seq![n]);
    assert(get(m, p + seq![n]) == kind_at(u, seq![n]));
    match node {
        NodeView::File(f) => {
            let o = OpView { path: w, kind: OpKind::RemoveFile, guard: None };
            assert(rem_node_ops(node, w) == seq![o]);
            lemma_single_op(m, sm, now, o, done);
            if e is Some && e->Some_0 is File {
                lemma_rem_file(m, sm, now, u, n, p);
            } else {
                lemma_rem_unchanged(m, sm, now, u, n, p);
            }
        },
        NodeView::Dir(x) => {
            if x.entirety {
                let o = OpView { path: w, kind: OpKind::RemoveDir, guard: None };
                assert(rem_node_ops(node, w) == seq![o]);
                lemma_single_op(m, sm, now, o, done);
                if e is Some && e->Some_0 is Dir {
                    lemma_rem_whole(m, sm, now, u, n, p);
                    assert(op_step(m, sm, now, o).0 =~= cut(m, w));
                } else {
                    lemma_rem_unchanged(m, sm, now, u, n, p);
                }
            } else {
                if e is Some && e->Some_0 is Dir {
                    lemma_rem_descend(m, sm, now, u, n, x, p, done);
                } else {
                    lemma_rem_ops_under(x.children, w);
                    lemma_rem_dead_below(m, u, n, p);
                    lemma_run_dead(m, sm, now, rem_children_ops(x.children, w), done, w);
                    lemma_rem_unchanged(m, sm, now, u, n, p);
                }
            }
        },
    }
}

/// Carrying out the removals that the rem-tree children `cs` ask for below `p`
/// does to the filesystem what the removal walk does to the tree held there.
pub proof fn lemma_run_rem(
    m: Fs,
    sm: Fs,
    now: u128,
    u: DirView,
    cs: Children,
    p: Seq<Seq<char>>,
    done: Seq<bool>,
)
    requires
        wf(m),
        unique_names(u),
        holds_at(m, p, u),
    ensures
        wf(run_ops(m, sm, now, rem_children_ops(cs, p), done).0),
        holds_at(run_ops(m, sm, now, rem_children_ops(cs, p), done).0, p, rem_apply(u, cs)),
        forall|x: Seq<Seq<char>>|
            !under(p, x) ==> #[trigger] get(run_ops(m, sm, now, rem_children_ops(cs, p), done).0, x)
                == get(m, x),
    decreases cs, 0int,
{
    if cs.len() > 0 {
        let pre = cs.subrange(0, cs.len() - 1);
        let c = cs[cs.len() - 1];
        let a = rem_children_ops(pre, p);
        let b = rem_node_ops(c.1, p.push(c.0));
        assert(rem_children_ops(cs, p) == a + b);
        lemma_run_concat(m, sm, now, a, b, done);
        lemma_run_rem(m, sm, now, u, pre, p, done);
        let r1 = run_ops(m, sm, now, a, done);
        let u1 = rem_apply(u, pre);
        lemma_rem_unique(u, pre);
        lemma_run_rem_node(r1.0, sm, now, u1, c.0, c.1, p, r1.1);
    }
}

/// Every file that the add-tree children `cs` copy is, under the same name, a file
/// of the source directory `sp`; every directory of `cs` is one of `sp` too.
pub open spec fn sourced(cs: Children, sp: DirView) -> bool
    decreases cs,
{
    forall|i: int|
        0 <= i < cs.len() ==> match (#[trigger] cs[i]).1 {
            NodeView::File(f) => entry(sp, cs[i].0) == Some(NodeView::File(f)),
            NodeView::Dir(x) => entry(sp, cs[i].0) is Some && entry(sp, cs[i].0)->Some_0 is Dir
                && sourced(x.children, entry(sp, cs[i].0)->Some_0->Dir_0),
        }
}

/// In a well-formed filesystem nothing lies below a path that is not a directory.
proof fn lemma_nothing_under(m: Fs, w: Seq<Seq<char>>, x: Seq<Seq<char>>)
    requires
        wf(m),
        w.len() >= 1,
        get(m, w) != Some(Kind::Dir),
        under(w, x),
    ensures
        get(m, x) is None,
    decreases x.len(),
{
    if m.contains_key(x) {
        let par = x.drop_last();
        assert(get(m, par) == Some(Kind::Dir));
        if par.len() == w.len() {
            assert(par =~= x.subrange(0, w.len() as int));
        } else {
            assert(par.subrange(0, w.len() as int) =~= x.subrange(0, w.len() as int));
            lemma_nothing_under(m, w, par);
        }
    }
}

pub proof fn lemma_run_skip(
    m: Fs,
    sm: Fs,
    now: u128,
    cs: Children,
    w: Seq<Seq<char>>,
    g: int,
    done: Seq<bool>,
)
    requires
        0 <= g < done.len(),
        !done[g],
    ensures
        run_ops(m, sm, now, add_children_ops(cs, w, Some(g), done.len() as int), done).0 == m,
        forall|k: int|
            done.len() <= k < run_ops(m, sm, now, add_children_ops(cs, w, Some(g), done.len() as int), done).1.len()
                ==> !(#[trigger] run_ops(
                m,
                sm,
                now,
                add_children_ops(cs, w, Some(g), done.len() as int),
                done,
            ).1[k]),
    decreases cs, 0int,
{
    if cs.len() > 0 {
        let b = done.len() as int;
        let pre = cs.subrange(0, cs.len() - 1);
        let a = add_children_ops(pre, w, Some(g), b);
        let c = cs[cs.len() - 1];
        let tail = add_node_ops(c.1, w.push(c.0), Some(g), b + a.len());
        assert(add_children_ops(cs, w, Some(g), b) == a + tail);
        lemma_run_concat(m, sm, now, a, tail, done);
        lemma_run_skip(m, sm, now, pre, w, g, done);
        let r1 = run_ops(m, sm, now, a, done);
        assert(r1.1.len() == b + a.len());
        assert(r1.1[g] == r1.1.subrange(0, b)[g]);
        lemma_node_skip(m, sm, now, c.1, w.push(c.0), g, r1.1);
        let r2 = run_ops(m, sm, now, tail, r1.1);
        lemma_run_concat(m, sm, now, tail, Seq::empty(), r1.1);
        assert forall|k: int| b <= k < r2.1.len() implies !(#[trigger] r2.1[k]) by {
            if k < r1.1.len() {
                assert(r2.1.subrange(0, r1.1.len() as int)[k] == r2.1[k]);
            }
        }
    }
}

proof fn lemma_node_skip(m: Fs, sm: Fs, now: u128, node: NodeView, w: Seq<Seq<char>>, g: int, done: Seq<bool>)
    requires
        0 <= g < done.len(),
        !done[g],
    ensures
        run_ops(m, sm, now, add_node_ops(node, w, Some(g), done.len() as int), done).0 == m,
        forall|k: int|
            done.len() <= k < run_ops(m, sm, now, add_node_ops(node, w, Some(g), done.len() as int), done).1.len()
                ==> !(#[trigger] run_ops(
                m,
                sm,
                now,
                add_node_ops(node, w, Some(g), done.len() as int),
                done,
            ).1[k]),
    decreases node, 1int,
{
    let b = done.len() as int;
    let ops = add_node_ops(node, w, Some(g), b);
    match node {
        NodeView::File(_) => {
            assert(ops.drop_first() =~= Seq::<OpView>::empty());
            assert(ops[0].guard == Some(g));
            let d1 = done.push(false);
            assert(run_ops(m, sm, now, ops, done) == run_ops(m, sm, now, ops.drop_first(), d1));
        },
        NodeView::Dir(x) => {
            if x.entirety {
                let head = seq![OpView { path: w, kind: OpKind::CreateDir, guard: Some(g) }];
                let rest = add_children_ops(x.children, w, Some(b), b + 1);
                assert(ops == head + rest);
                lemma_run_concat(m, sm, now, head, rest, done);
                let d1 = done.push(false);
                assert(head.drop_first() =~= Seq::<OpView>::empty());
                assert(run_ops(m, sm, now, head, done) == run_ops(m, sm, now, head.drop_first(), d1));
                lemma_run_skip(m, sm, now, x.children, w, b, d1);
                let r = run_ops(m, sm, now, ops, done);
                assert forall|k: int| b <= k < r.1.len() implies !(#[trigger] r.1[k]) by {
                    if k > b {
                    } else {
                        lemma_run_concat(m, sm, now, rest, Seq::empty(), d1);
                        assert(r.1.subrange(0, d1.len() as int)[k] == r.1[k]);
                    }
                }
            } else {
                lemma_run_skip(m, sm, now, x.children, w, g, done);
            }
        },
    }
}

proof fn lemma_guarded_op(m: Fs, sm: Fs, now: u128, o: OpView, done: Seq<bool>)
    requires
        allowed(o.guard, done),
    ensures
        run_ops(m, sm, now, seq![o], done).0 == op_step(m, sm, now, o).0,
        run_ops(m, sm, now, seq![o], done).1 == done.push(op_step(m, sm, now, o).1),
{
    let r = op_step(m, sm, now, o);
    assert(seq![o][0] == o);
    assert(seq![o].drop_first() =~= Seq::<OpView>::empty());
    assert(run_ops(r.0, sm, now, Seq::<OpView>::empty(), done.push(r.1)) == (r.0, done.push(r.1)));
}

/// Settling a child directory settles its parent.
proof fn lemma_combine(m1: Fs, mid: Fs, m2: Fs, u: DirView, n: Seq<char>, p: Seq<Seq<char>>, v: DirView)
    requires
        unique_names(u),
        unique_names(v),
        holds_at(m1, p, u),
        settled(mid, m2, p.push(n), v),
        get(mid, p.push(n)) == Some(Kind::Dir),
        forall|x: Seq<Seq<char>>|
            !(x == p.push(n) || under(p.push(n), x)) ==> #[trigger] get(mid, x) == get(m1, x),
    ensures
        settled(m1, m2, p, put(u, n, Some(NodeView::Dir(v)))),
{
    let w = p.push(n);
    let e2 = Some(NodeView::Dir(v));
    lemma_put(u, n, e2);
    assert forall|q: Seq<Seq<char>>| q.len() >= 1 implies #[trigger] get(m2, p + q) == kind_at(
        put(u, n, e2),
        q,
    ) by {
        lemma_path_split(p, n, q);
        lemma_kind_put(u, n, e2, q);
        if q[0] == n && q.len() > 1 {
            assert(get(m2, w + q.drop_first()) == kind_at(v, q.drop_first()));
        } else if q[0] != n {
            assert(get(m2, p + q) == get(mid, p + q));
            assert(get(m1, p + q) == kind_at(u, q));
        } else {
            assert(!under(w, w));
            assert(get(m2, w) == get(mid, w));
        }
    }
    assert forall|y: Seq<Seq<char>>| !under(p, y) implies #[trigger] get(m2, y) == get(m1, y) by {
        lemma_outside(p, n, y);
        assert(get(m2, y) == get(mid, y));
    }
}

proof fn lemma_add_copy(
    m: Fs,
    sm: Fs,
    now: u128,
    u: DirView,
    sp: DirView,
    n: Seq<char>,
    f: FnodeFile,
    p: Seq<Seq<char>>,
    g: Option<int>,
    done: Seq<bool>,
)
    requires
        wf(m),
        unique_names(u),
        holds_at(m, p, u),
        p.len() == 0 || get(m, p) == Some(Kind::Dir),
        holds_at(sm, p, sp),
        entry(sp, n) == Some(NodeView::File(f)),
        allowed(g, done),
    ensures
        settled(
            m,
            run_ops(m, sm, now, add_node_ops(NodeView::File(f), p.push(n), g, done.len() as int), done).0,
            p,
            put(u, n, add_entry(entry(u, n), NodeView::File(f), now)),
        ),
{
    let w = p.push(n);
    let o = OpView { path: w, kind: OpKind::CopyFile, guard: g };
    assert(add_node_ops(NodeView::File(f), w, g, done.len() as int) == seq![o]);
    lemma_guarded_op(m, sm, now, o, done);
    let e = entry(u, n);
    lemma_entry(u, n);
    lemma_path_split(p, n, seq![n]);
    assert(get(m, p + seq![n]) == kind_at(u, seq![n]));
    assert(get(sm, p + seq![n]) == kind_at(sp, seq![n]));
    assert(w.drop_last() =~= p);
    if e is Some && e->Some_0 is Dir {
        lemma_rem_unchanged(m, sm, now, u, n, p);
    } else {
        let e2 = Some(NodeView::File(copied(f, now)));
        let m2 = m.insert(w, Kind::File(copied(f, now)));
        assert(op_step(m, sm, now, o).0 == m2);
        lemma_put(u, n, e2);
        assert forall|q: Seq<Seq<char>>| q.len() >= 1 implies #[trigger] get(m2, p + q) == kind_at(
            put(u, n, e2),
            q,
        ) by {
            lemma_path_split(p, n, q);
            lemma_kind_put(u, n, e2, q);
            lemma_kind_unique(u, q);
            assert(get(m, p + q) == kind_at(u, q));
        }
        assert forall|y: Seq<Seq<char>>| #[trigger] m2.contains_key(y) implies y.len() >= 1 && (y.len()
            > 1 ==> get(m2, y.drop_last()) == Some(Kind::Dir)) by {
            if y != w {
                assert(m.contains_key(y));
                if y.len() > 1 {
                    if y.drop_last() == w {
                        lemma_path_split(p, n, seq![n]);
                    }
                }
            } else {
                if y.len() > 1 {
                    assert(y.drop_last() == p);
                }
            }
        }
        assert forall|y: Seq<Seq<char>>| !under(p, y) implies #[trigger] get(m2, y) == get(m, y) by {
            lemma_outside(p, n, y);
        }
    }
}

proof fn lemma_add_dead(
    m: Fs,
    sm: Fs,
    now: u128,
    u: DirView,
    n: Seq<char>,
    x: DirView,
    p: Seq<Seq<char>>,
    g: Option<int>,
    done: Seq<bool>,
)
    requires
        wf(m),
        unique_names(u),
        holds_at(m, p, u),
        !(entry(u, n) is Some && entry(u, n)->Some_0 is Dir),
    ensures
        run_ops(m, sm, now, add_children_ops(x.children, p.push(n), g, done.len() as int), done).0 == m,
{
    let w = p.push(n);
    let ops = add_children_ops(x.children, w, g, done.len() as int);
    crate::laws::lemma_children_below(x.children, w, g, done.len() as int);
    assert forall|k: int| 0 <= k < ops.len() implies under(w, (#[trigger] ops[k]).path) by {}
    lemma_rem_dead_below(m, u, n, p);
    lemma_run_dead(m, sm, now, ops, done, w);
}

proof fn lemma_run_add_node(
    m: Fs,
    sm: Fs,
    now: u128,
    u: DirView,
    sp: DirView,
    n: Seq<char>,
    node: NodeView,
    p: Seq<Seq<char>>,
    g: Option<int>,
    done: Seq<bool>,
)
    requires
        wf(m),
        unique_names(u),
        holds_at(m, p, u),
        p.len() == 0 || get(m, p) == Some(Kind::Dir),
        unique_names(sp),
        holds_at(sm, p, sp),
        sourced(seq![(n, node)], sp),
        allowed(g, done),
    ensures
        settled(
            m,
            run_ops(m, sm, now, add_node_ops(node, p.push(n), g, done.len() as int), done).0,
            p,
            put(u, n, add_entry(entry(u, n), node, now)),
        ),
    decreases node, 1int,
{
    let w = p.push(n);
    let b = done.len() as int;
    let e = entry(u, n);
    lemma_entry(u, n);
    lemma_entry(sp, n);
    assert(seq![(n, node)][0] == (n, node));
    lemma_path_split(p, n, seq![n]);
    assert(get(m, p + seq![n]) == kind_at(u, seq![n]));
    assert(w.drop_last() =~= p);
    match node {
        NodeView::File(f) => {
            lemma_add_copy(m, sm, now, u, sp, n, f, p, g, done);
        },
        NodeView::Dir(x) => {
            let sx = entry(sp, n)->Some_0->Dir_0;
            lemma_holds_sub(sm, p, sp, n);
            if x.entirety {
                let o = OpView { path: w, kind: OpKind::CreateDir, guard: g };
                let head = seq![o];
                let rest = add_children_ops(x.children, w, Some(b), b + 1);
                assert(add_node_ops(node, w, g, b) == head + rest);
                lemma_run_concat(m, sm, now, head, rest, done);
                lemma_guarded_op(m, sm, now, o, done);
                if e is None {
                    let mid = m.insert(w, Kind::Dir);
                    assert(op_step(m, sm, now, o) == (mid, true));
                    let d1 = done.push(true);
                    assert forall|y: Seq<Seq<char>>| #[trigger] mid.contains_key(y) implies y.len() >= 1 && (
                    y.len() > 1 ==> get(mid, y.drop_last()) == Some(Kind::Dir)) by {
                        if y != w {
                            assert(m.contains_key(y));
                            if y.len() > 1 && y.drop_last() == w {
                                assert(get(m, w) is None);
                            }
                        } else if y.len() > 1 {
                            assert(y.drop_last() == p);
                        }
                    }
                    assert(unique_names(empty_dir()));
                    assert forall|q: Seq<Seq<char>>| q.len() >= 1 implies #[trigger] get(mid, w + q)
                        == kind_at(empty_dir(), q) by {
                        assert(under(w, w + q)) by {
                            assert((w + q).subrange(0, w.len() as int) =~= w);
                        }
                        lemma_nothing_under(m, w, w + q);
                        lemma_find_absent(empty_dir().children, q[0], 0);
                        lemma_kind_unique(empty_dir(), q);
                        assert(w + q != w);
                    }
                    lemma_run_add(mid, sm, now, empty_dir(), sx, x.children, w, Some(b), d1);
                    lemma_add_unique(empty_dir(), x.children, now);
                    assert forall|y: Seq<Seq<char>>| !(y == w || under(w, y)) implies #[trigger] get(mid, y)
                        == get(m, y) by {}
                    lemma_combine(m, mid, run_ops(mid, sm, now, rest, d1).0, u, n, p, add_apply(
                        empty_dir(),
                        x.children,
                        now,
                    ));
                } else {
                    assert(op_step(m, sm, now, o) == (m, false));
                    let d1 = done.push(false);
                    lemma_run_skip(m, sm, now, x.children, w, b, d1);
                    lemma_rem_unchanged(m, sm, now, u, n, p);
                }
            } else {
                if e is Some && e->Some_0 is Dir {
                    let sub = e->Some_0->Dir_0;
                    lemma_holds_sub(m, p, u, n);
                    lemma_run_add(m, sm, now, sub, sx, x.children, w, g, done);
                    lemma_add_unique(sub, x.children, now);
                    lemma_combine(
                        m,
                        m,
                        run_ops(m, sm, now, add_children_ops(x.children, w, g, b), done).0,
                        u,
                        n,
                        p,
                        add_apply(sub, x.children, now),
                    );
                } else {
                    lemma_add_dead(m, sm, now, u, n, x, p, g, done);
                    lemma_rem_unchanged(m, sm, now, u, n, p);
                }
            }
        },
    }
}

/// Carrying out the creations and copies that the add-tree children `cs` ask for
/// below `p` does to the filesystem what the addition walk does to the tree held
/// there, when their guard allows them and the source holds what they copy.
pub proof fn lemma_run_add(
    m: Fs,
    sm: Fs,
    now: u128,
    u: DirView,
    sp: DirView,
    cs: Children,
    p: Seq<Seq<char>>,
    g: Option<int>,
    done: Seq<bool>,
)
    requires
        wf(m),
        unique_names(u),
        holds_at(m, p, u),
        p.len() == 0 || get(m, p) == Some(Kind::Dir),
        unique_names(sp),
        holds_at(sm, p, sp),
        sourced(cs, sp),
        allowed(g, done),
    ensures
        settled(
            m,
            run_ops(m, sm, now, add_children_ops(cs, p, g, done.len() as int), done).0,
            p,
            add_apply(u, cs, now),
        ),
    decreases cs, 0int,
{
    let b = done.len() as int;
    if cs.len() == 0 {
        assert forall|x: Seq<Seq<char>>| #[trigger] m.contains_key(x) implies x.len() >= 1 && (x.len() > 1
            ==> get(m, x.drop_last()) == Some(Kind::Dir)) by {}
    } else {
        let pre = cs.subrange(0, cs.len() - 1);
        let c = cs[cs.len() - 1];
        let a = add_children_ops(pre, p, g, b);
        let tail = add_node_ops(c.1, p.push(c.0), g, b + a.len());
        assert(add_children_ops(cs, p, g, b) == a + tail);
        lemma_run_concat(m, sm, now, a, tail, done);
        assert forall|i: int| 0 <= i < pre.len() implies match (#[trigger] pre[i]).1 {
            NodeView::File(f) => entry(sp, pre[i].0) == Some(NodeView::File(f)),
            NodeView::Dir(x) => entry(sp, pre[i].0) is Some && entry(sp, pre[i].0)->Some_0 is Dir
                && sourced(x.children, entry(sp, pre[i].0)->Some_0->Dir_0),
        } by {
            assert(pre[i] == cs[i]);
        }
        lemma_run_add(m, sm, now, u, sp, pre, p, g, done);
        let r1 = run_ops(m, sm, now, a, done);
        let u1 = add_apply(u, pre, now);
        lemma_add_unique(u, pre, now);
        assert(r1.1.len() == b + a.len());
        assert(allowed(g, r1.1)) by {
            if g is Some {
                assert(r1.1.subrange(0, b)[g->Some_0] == r1.1[g->Some_0]);
            }
        }
        if p.len() > 0 {
            assert(!under(p, p));
        }
        let one = seq![c];
        assert(one[0] == c);
        assert(sourced(one, sp));
        lemma_run_add_node(r1.0, sm, now, u1, sp, c.0, c.1, p, g, r1.1);
    }
}

} // verus!
