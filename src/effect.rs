use vstd::prelude::*;
use crate::ftree::{
    distinct_names, empty_dir, find_name, lookup_dir, lookup_file, unique_names, with_child,
    without_child, Children, DirView, FnodeFile, NodeView,
};
use crate::pruning::{lemma_find_absent, lemma_lookup_at, lemma_without};
use crate::{sync_diff, SyncMode};

verus! {

/// What a directory holds under `name`: the file, else the directory, else nothing.
pub open spec fn entry(t: DirView, name: Seq<char>) -> Option<NodeView> {
    match lookup_file(t, name) {
        Some(f) => Some(NodeView::File(f)),
        None => match lookup_dir(t, name) {
            Some(x) => Some(NodeView::Dir(x)),
            None => None,
        },
    }
}

/// `t` with `e` under `name` in place of what was there.
pub open spec fn put(t: DirView, name: Seq<char>, e: Option<NodeView>) -> DirView {
    let t1 = match find_name(t.children, name, 0) {
        Some(i) => without_child(t, i),
        None => t,
    };
    match e {
        Some(x) => with_child(t1, name, x),
        None => t1,
    }
}

/// What a removal walk leaves under a name that held `e`, for the rem-tree node
/// `node`: a file is deleted where a file is found; a directory with the entirety
/// flag is deleted where a directory is found; another directory is walked into.
pub open spec fn rem_entry(e: Option<NodeView>, node: NodeView) -> Option<NodeView>
    decreases node, 1int,
{
    match node {
        NodeView::File(_) => if e is Some && e->Some_0 is File {
            None
        } else {
            e
        },
        NodeView::Dir(x) => if e is Some && e->Some_0 is Dir {
            if x.entirety {
                None
            } else {
                Some(NodeView::Dir(rem_apply(e->Some_0->Dir_0, x.children)))
            }
        } else {
            e
        },
    }
}

/// The destination directory `t` after the removal walk over the rem-tree
/// children `cs`, each deletion taking place where what it deletes is found.
pub open spec fn rem_apply(t: DirView, cs: Children) -> DirView
    decreases cs, 0int,
{
    if cs.len() == 0 {
        t
    } else {
        let t1 = rem_apply(t, cs.subrange(0, cs.len() - 1));
        let c = cs[cs.len() - 1];
        put(t1, c.0, rem_entry(entry(t1, c.0), c.1))
    }
}

/// A copy of `f` made at time `now`: the source's size, and `now` as its time.
pub open spec fn copied(f: FnodeFile, now: u128) -> FnodeFile {
    FnodeFile { date: now, size: f.size }
}

/// What an addition walk leaves under a name that held `e`, for the add-tree node
/// `node`: a file is copied unless a directory stands there; a directory with the
/// entirety flag is created where nothing stands, and filled; another directory is
/// walked into where it exists.
pub open spec fn add_entry(e: Option<NodeView>, node: NodeView, now: u128) -> Option<NodeView>
    decreases node, 1int,
{
    match node {
        NodeView::File(f) => if e is Some && e->Some_0 is Dir {
            e
        } else {
            Some(NodeView::File(copied(f, now)))
        },
        NodeView::Dir(x) => if x.entirety {
            if e is None {
                Some(NodeView::Dir(add_apply(empty_dir(), x.children, now)))
            } else {
                e
            }
        } else if e is Some && e->Some_0 is Dir {
            Some(NodeView::Dir(add_apply(e->Some_0->Dir_0, x.children, now)))
        } else {
            e
        },
    }
}

/// The destination directory `t` after the addition walk over the add-tree
/// children `cs`, each creation and copy taking place where the tree allows it,
/// copies at time `now`.
pub open spec fn add_apply(t: DirView, cs: Children, now: u128) -> DirView
    decreases cs, 0int,
{
    if cs.len() == 0 {
        t
    } else {
        let t1 = add_apply(t, cs.subrange(0, cs.len() - 1), now);
        let c = cs[cs.len() - 1];
        put(t1, c.0, add_entry(entry(t1, c.0), c.1, now))
    }
}

/// The destination after a sync in `mode`: the removal walk over the rem-tree, then
/// the addition walk over the add-tree, with each copy made at `now`.
pub open spec fn synced(src: DirView, dest: DirView, mode: SyncMode, now: u128) -> DirView {
    let diff = sync_diff(src, dest, mode);
    add_apply(rem_apply(dest, diff.1.children), diff.0.children, now)
}

pub open spec fn entry_ok(e: Option<NodeView>) -> bool {
    e is Some && e->Some_0 is Dir ==> unique_names(e->Some_0->Dir_0)
}

/// In a directory with distinct names, the lookups of a name agree with its entry.
pub proof fn lemma_entry(t: DirView, name: Seq<char>)
    requires
        unique_names(t),
    ensures
        lookup_file(t, name) == (if entry(t, name) is Some && entry(t, name)->Some_0 is File {
            Some(entry(t, name)->Some_0->File_0)
        } else {
            None
        }),
        lookup_dir(t, name) == (if entry(t, name) is Some && entry(t, name)->Some_0 is Dir {
            Some(entry(t, name)->Some_0->Dir_0)
        } else {
            None
        }),
        entry_ok(entry(t, name)),
{
    let cs = t.children;
    if exists|j: int| 0 <= j < cs.len() && (#[trigger] cs[j]).0 == name {
        let j = choose|j: int| 0 <= j < cs.len() && (#[trigger] cs[j]).0 == name;
        lemma_lookup_at(cs, j);
    } else {
        lemma_find_absent(cs, name, 0);
    }
}

/// Putting an entry under a name changes that entry alone and keeps names distinct.
pub proof fn lemma_put(t: DirView, name: Seq<char>, e: Option<NodeView>)
    requires
        unique_names(t),
        entry_ok(e),
    ensures
        unique_names(put(t, name, e)),
        entry(put(t, name, e), name) == e,
        forall|m: Seq<char>| m != name ==> entry(put(t, name, e), m) == entry(t, m),
{
    let cs = t.children;
    let t1 = match find_name(cs, name, 0) {
        Some(i) => without_child(t, i),
        None => t,
    };
    if exists|j: int| 0 <= j < cs.len() && (#[trigger] cs[j]).0 == name {
        let j = choose|j: int| 0 <= j < cs.len() && (#[trigger] cs[j]).0 == name;
        lemma_lookup_at(cs, j);
        lemma_without(t, j);
    } else {
        lemma_find_absent(cs, name, 0);
    }
    assert(unique_names(t1));
    assert(forall|j: int| 0 <= j < t1.children.len() ==> (#[trigger] t1.children[j]).0 != name);
    assert(forall|m: Seq<char>| m != name ==> lookup_dir(t1, m) == lookup_dir(t, m) && lookup_file(t1, m) == lookup_file(t, m));
    match e {
        None => {
            lemma_find_absent(t1.children, name, 0);
        },
        Some(x) => {
            lemma_with_node(t1, name, x);
        },
    }
}

proof fn lemma_with_node(d: DirView, n: Seq<char>, x: NodeView)
    requires
        unique_names(d),
        x is Dir ==> unique_names(x->Dir_0),
        forall|j: int| 0 <= j < d.children.len() ==> (#[trigger] d.children[j]).0 != n,
    ensures
        unique_names(with_child(d, n, x)),
        entry(with_child(d, n, x), n) == Some(x),
        forall|m: Seq<char>|
            m != n ==> lookup_dir(with_child(d, n, x), m) == lookup_dir(d, m) && lookup_file(
                with_child(d, n, x),
                m,
            ) == lookup_file(d, m),
{
    let cs = d.children;
    let c2 = cs.push((n, x));
    let v = with_child(d, n, x);
    assert(v.children == c2);
    assert forall|a: int, b: int| 0 <= a < b < c2.len() implies c2[a].0 != c2[b].0 by {
        assert(c2[a] == cs[a]);
        if b < cs.len() {
            assert(c2[b] == cs[b]);
        }
    }
    assert forall|j: int| 0 <= j < c2.len() && (#[trigger] c2[j]).1 is Dir implies unique_names(
        c2[j].1->Dir_0,
    ) by {
        if j < cs.len() {
            assert(c2[j] == cs[j]);
        }
    }
    assert(unique_names(v));
    lemma_lookup_at(c2, cs.len() as int);
    assert forall|m: Seq<char>| m != n implies lookup_dir(v, m) == lookup_dir(d, m) && lookup_file(
        v,
        m,
    ) == lookup_file(d, m) by {
        if exists|j: int| 0 <= j < cs.len() && (#[trigger] cs[j]).0 == m {
            let j = choose|j: int| 0 <= j < cs.len() && (#[trigger] cs[j]).0 == m;
            assert(c2[j] == cs[j]);
            lemma_lookup_at(cs, j);
            lemma_lookup_at(c2, j);
        } else {
            lemma_find_absent(cs, m, 0);
            assert forall|j: int| 0 <= j < c2.len() implies (#[trigger] c2[j]).0 != m by {
                if j < cs.len() {
                    assert(c2[j] == cs[j]);
                }
            }
            lemma_find_absent(c2, m, 0);
        }
    }
}

proof fn lemma_rem_entry_ok(e: Option<NodeView>, node: NodeView)
    requires
        entry_ok(e),
    ensures
        entry_ok(rem_entry(e, node)),
    decreases node, 1int,
{
    match node {
        NodeView::Dir(x) => {
            if e is Some && e->Some_0 is Dir && !x.entirety {
                lemma_rem_unique(e->Some_0->Dir_0, x.children);
            }
        },
        NodeView::File(_) => {},
    }
}

pub proof fn lemma_rem_unique(t: DirView, cs: Children)
    requires
        unique_names(t),
    ensures
        unique_names(rem_apply(t, cs)),
    decreases cs, 0int,
{
    if cs.len() > 0 {
        let pre = cs.subrange(0, cs.len() - 1);
        lemma_rem_unique(t, pre);
        let t1 = rem_apply(t, pre);
        let c = cs[cs.len() - 1];
        lemma_entry(t1, c.0);
        lemma_rem_entry_ok(entry(t1, c.0), c.1);
        lemma_put(t1, c.0, rem_entry(entry(t1, c.0), c.1));
    }
}

proof fn lemma_add_entry_ok(e: Option<NodeView>, node: NodeView, now: u128)
    requires
        entry_ok(e),
    ensures
        entry_ok(add_entry(e, node, now)),
    decreases node, 1int,
{
    match node {
        NodeView::Dir(x) => {
            if x.entirety {
                if e is None {
                    assert(unique_names(empty_dir()));
                    lemma_add_unique(empty_dir(), x.children, now);
                }
            } else if e is Some && e->Some_0 is Dir {
                lemma_add_unique(e->Some_0->Dir_0, x.children, now);
            }
        },
        NodeView::File(_) => {},
    }
}

pub proof fn lemma_add_unique(t: DirView, cs: Children, now: u128)
    requires
        unique_names(t),
    ensures
        unique_names(add_apply(t, cs, now)),
    decreases cs, 0int,
{
    if cs.len() > 0 {
        let pre = cs.subrange(0, cs.len() - 1);
        lemma_add_unique(t, pre, now);
        let t1 = add_apply(t, pre, now);
        let c = cs[cs.len() - 1];
        lemma_entry(t1, c.0);
        lemma_add_entry_ok(entry(t1, c.0), c.1, now);
        lemma_put(t1, c.0, add_entry(entry(t1, c.0), c.1, now));
    }
}

/// The removal walk over children with distinct names settles each name on its own.
pub proof fn lemma_rem_fold(t: DirView, cs: Children)
    requires
        unique_names(t),
        distinct_names(cs),
    ensures
        forall|i: int|
            0 <= i < cs.len() ==> entry(rem_apply(t, cs), (#[trigger] cs[i]).0) == rem_entry(
                entry(t, cs[i].0),
                cs[i].1,
            ),
        forall|n: Seq<char>|
            (forall|i: int| 0 <= i < cs.len() ==> (#[trigger] cs[i]).0 != n) ==> entry(
                rem_apply(t, cs),
                n,
            ) == entry(t, n),
    decreases cs.len(),
{
    if cs.len() > 0 {
        let pre = cs.subrange(0, cs.len() - 1);
        assert forall|a: int, b: int| 0 <= a < b < pre.len() implies pre[a].0 != pre[b].0 by {
            assert(pre[a] == cs[a] && pre[b] == cs[b]);
        }
        lemma_rem_fold(t, pre);
        lemma_rem_unique(t, pre);
        let t1 = rem_apply(t, pre);
        let c = cs[cs.len() - 1];
        assert forall|i: int| 0 <= i < pre.len() implies (#[trigger] pre[i]).0 != c.0 by {
            assert(pre[i] == cs[i]);
        }
        assert(entry(t1, c.0) == entry(t, c.0));
        lemma_entry(t1, c.0);
        lemma_rem_entry_ok(entry(t1, c.0), c.1);
        lemma_put(t1, c.0, rem_entry(entry(t1, c.0), c.1));
        assert forall|i: int| 0 <= i < cs.len() implies entry(rem_apply(t, cs), (#[trigger] cs[i]).0)
            == rem_entry(entry(t, cs[i].0), cs[i].1) by {
            if i < cs.len() - 1 {
                assert(pre[i] == cs[i]);
            }
        }
        assert forall|n: Seq<char>| (forall|i: int| 0 <= i < cs.len() ==> (#[trigger] cs[i]).0 != n) implies entry(
            rem_apply(t, cs),
            n,
        ) == entry(t, n) by {
            assert(cs[cs.len() - 1].0 != n);
            assert forall|i: int| 0 <= i < pre.len() implies (#[trigger] pre[i]).0 != n by {
                assert(pre[i] == cs[i]);
            }
        }
    }
}

/// The addition walk over children with distinct names settles each name on its own.
pub proof fn lemma_add_fold(t: DirView, cs: Children, now: u128)
    requires
        unique_names(t),
        distinct_names(cs),
    ensures
        forall|i: int|
            0 <= i < cs.len() ==> entry(add_apply(t, cs, now), (#[trigger] cs[i]).0) == add_entry(
                entry(t, cs[i].0),
                cs[i].1,
                now,
            ),
        forall|n: Seq<char>|
            (forall|i: int| 0 <= i < cs.len() ==> (#[trigger] cs[i]).0 != n) ==> entry(
                add_apply(t, cs, now),
                n,
            ) == entry(t, n),
    decreases cs.len(),
{
    if cs.len() > 0 {
        let pre = cs.subrange(0, cs.len() - 1);
        assert forall|a: int, b: int| 0 <= a < b < pre.len() implies pre[a].0 != pre[b].0 by {
            assert(pre[a] == cs[a] && pre[b] == cs[b]);
        }
        lemma_add_fold(t, pre, now);
        lemma_add_unique(t, pre, now);
        let t1 = add_apply(t, pre, now);
        let c = cs[cs.len() - 1];
        assert forall|i: int| 0 <= i < pre.len() implies (#[trigger] pre[i]).0 != c.0 by {
            assert(pre[i] == cs[i]);
        }
        assert(entry(t1, c.0) == entry(t, c.0));
        lemma_entry(t1, c.0);
        lemma_add_entry_ok(entry(t1, c.0), c.1, now);
        lemma_put(t1, c.0, add_entry(entry(t1, c.0), c.1, now));
        assert forall|i: int| 0 <= i < cs.len() implies entry(add_apply(t, cs, now), (#[trigger] cs[i]).0)
            == add_entry(entry(t, cs[i].0), cs[i].1, now) by {
            if i < cs.len() - 1 {
                assert(pre[i] == cs[i]);
            }
        }
        assert forall|n: Seq<char>| (forall|i: int| 0 <= i < cs.len() ==> (#[trigger] cs[i]).0 != n) implies entry(
            add_apply(t, cs, now),
            n,
        ) == entry(t, n) by {
            assert(cs[cs.len() - 1].0 != n);
            assert forall|i: int| 0 <= i < pre.len() implies (#[trigger] pre[i]).0 != n by {
                assert(pre[i] == cs[i]);
            }
        }
    }
}

} // verus!
