use vstd::prelude::*;
use crate::diff::{
    differs, dir_of, hard_dest_child, hard_dest_pass, hard_diff, hard_src_pass, soft_child,
    soft_diff, soft_pass, update_child, update_diff, update_pass,
};
use crate::effect::{
    add_apply, add_entry, copied, entry, lemma_add_fold, lemma_add_unique, lemma_entry,
    lemma_rem_fold, lemma_rem_unique, rem_apply, rem_entry, synced,
};
use crate::ftree::{
    distinct_names, empty_dir, entire_dir, entire_node, find_dir, find_file, find_name,
    lookup_dir, lookup_file, unique_names, Children, DirView, NodeView,
};
use crate::SyncMode;
use crate::pruning::{lemma_find_absent, lemma_lookup_at};
use crate::laws::{all_quiet, lemma_quiet_no_adds, lemma_quiet_no_ops, quiet};
use crate::plan::{add_children_ops, apply_ops, rem_children_ops, remove_ops, OpView};
use crate::sync_diff;
use crate::execution::{
    flat, get, kind_at, lemma_flat, lemma_run_add, lemma_run_rem, run_ops, sourced, Fs, Kind,
};

verus! {

/// Every file of `s`, at any depth, is dated no later than `now`.
pub open spec fn dated_by(s: DirView, now: u128) -> bool
    decreases s,
{
    forall|i: int|
        0 <= i < s.children.len() ==> {
            &&& ((#[trigger] s.children[i]).1 is File ==> s.children[i].1->File_0.date <= now)
            &&& (s.children[i].1 is Dir ==> dated_by(s.children[i].1->Dir_0, now))
        }
}

/// `t` mirrors `s`: its names are those of `s`, each of the same kind; each file
/// has the size of the source's and is not older; each directory mirrors the
/// source's.
pub open spec fn mirrors(t: DirView, s: DirView) -> bool
    decreases s, 1int,
{
    &&& unique_names(t)
    &&& forall|n: Seq<char>| entry(s, n) is None ==> entry(t, n) is None
    &&& forall|i: int|
        0 <= i < s.children.len() ==> mirrors_child(
            entry(t, (#[trigger] s.children[i]).0),
            s.children[i].1,
        )
}

pub open spec fn mirrors_child(e: Option<NodeView>, node: NodeView) -> bool
    decreases node, 0int,
{
    match node {
        NodeView::File(sf) => e is Some && e->Some_0 is File && !differs(sf, e->Some_0->File_0),
        NodeView::Dir(sd) => e is Some && e->Some_0 is Dir && mirrors(e->Some_0->Dir_0, sd),
    }
}

pub proof fn lemma_find_named(cs: Children, j: int, k: int)
    requires
        0 <= k <= j < cs.len(),
    ensures
        cs[j].1 is File ==> find_file(cs, cs[j].0, k) is Some,
        cs[j].1 is Dir ==> find_dir(cs, cs[j].0, k) is Some,
        find_name(cs, cs[j].0, k) is Some,
    decreases j - k,
{
    if k < j {
        lemma_find_named(cs, j, k + 1);
    }
}

pub proof fn lemma_find_name_hit(cs: Children, n: Seq<char>, k: int)
    requires
        0 <= k,
        find_name(cs, n, k) is Some,
    ensures
        k <= find_name(cs, n, k)->Some_0 < cs.len(),
        cs[find_name(cs, n, k)->Some_0].0 == n,
    decreases cs.len() - k,
{
    if cs[k].0 != n {
        lemma_find_name_hit(cs, n, k + 1);
    }
}

/// A name with no entry in a children sequence is borne by none of them.
pub proof fn lemma_entry_none(cs: Children, n: Seq<char>)
    requires
        entry(dir_of(cs), n) is None,
    ensures
        forall|j: int| 0 <= j < cs.len() ==> (#[trigger] cs[j]).0 != n,
{
    assert forall|j: int| 0 <= j < cs.len() implies (#[trigger] cs[j]).0 != n by {
        if cs[j].0 == n {
            lemma_find_named(cs, j, 0);
        }
    }
}

proof fn lemma_find_push(cs: Children, x: (Seq<char>, NodeView), n: Seq<char>, k: int)
    requires
        0 <= k <= cs.len(),
        forall|j: int| 0 <= j < cs.len() ==> (#[trigger] cs[j]).0 != x.0,
    ensures
        n != x.0 ==> find_file(cs.push(x), n, k) == find_file(cs, n, k) && find_dir(
            cs.push(x),
            n,
            k,
        ) == find_dir(cs, n, k),
        n == x.0 ==> find_file(cs.push(x), n, k) == (if x.1 is File {
            Some(x.1->File_0)
        } else {
            None
        }) && find_dir(cs.push(x), n, k) == (if x.1 is Dir {
            Some(x.1->Dir_0)
        } else {
            None
        }),
    decreases cs.len() - k,
{
    let c2 = cs.push(x);
    if k < cs.len() {
        assert(c2[k] == cs[k]);
        lemma_find_push(cs, x, n, k + 1);
    } else {
        assert(c2[k] == x);
        assert(find_file(c2, n, k + 1) is None);
        assert(find_dir(c2, n, k + 1) is None);
    }
}

/// Pushing a child under a new name adds that entry and keeps the others.
pub proof fn lemma_entry_push(cs: Children, x: (Seq<char>, NodeView))
    requires
        distinct_names(cs),
        entry(dir_of(cs), x.0) is None,
    ensures
        distinct_names(cs.push(x)),
        entry(dir_of(cs.push(x)), x.0) == Some(x.1),
        forall|n: Seq<char>| n != x.0 ==> entry(dir_of(cs.push(x)), n) == entry(dir_of(cs), n),
{
    lemma_entry_none(cs, x.0);
    let c2 = cs.push(x);
    assert forall|a: int, b: int| 0 <= a < b < c2.len() implies c2[a].0 != c2[b].0 by {
        assert(c2[a] == cs[a]);
        if b < cs.len() {
            assert(c2[b] == cs[b]);
        }
    }
    lemma_find_push(cs, x, x.0, 0);
    assert forall|n: Seq<char>| n != x.0 implies entry(dir_of(c2), n) == entry(dir_of(cs), n) by {
        lemma_find_push(cs, x, n, 0);
    }
}

/// In a distinctly named children sequence, the entry of a child's name is that child.
pub proof fn lemma_entry_at(cs: Children, j: int)
    requires
        distinct_names(cs),
        0 <= j < cs.len(),
    ensures
        entry(dir_of(cs), cs[j].0) == Some(cs[j].1),
{
    lemma_lookup_at(cs, j);
}

/// The removal walk over distinct children, read name by name.
pub proof fn lemma_rem_by_name(t: DirView, cs: Children, n: Seq<char>)
    requires
        unique_names(t),
        distinct_names(cs),
    ensures
        entry(rem_apply(t, cs), n) == match entry(dir_of(cs), n) {
            Some(node) => rem_entry(entry(t, n), node),
            None => entry(t, n),
        },
{
    lemma_rem_fold(t, cs);
    if exists|j: int| 0 <= j < cs.len() && (#[trigger] cs[j]).0 == n {
        let j = choose|j: int| 0 <= j < cs.len() && (#[trigger] cs[j]).0 == n;
        lemma_entry_at(cs, j);
    } else {
        lemma_find_absent(cs, n, 0);
    }
}

/// The addition walk over distinct children, read name by name.
pub proof fn lemma_add_by_name(t: DirView, cs: Children, now: u128, n: Seq<char>)
    requires
        unique_names(t),
        distinct_names(cs),
    ensures
        entry(add_apply(t, cs, now), n) == match entry(dir_of(cs), n) {
            Some(node) => add_entry(entry(t, n), node, now),
            None => entry(t, n),
        },
{
    lemma_add_fold(t, cs, now);
    if exists|j: int| 0 <= j < cs.len() && (#[trigger] cs[j]).0 == n {
        let j = choose|j: int| 0 <= j < cs.len() && (#[trigger] cs[j]).0 == n;
        lemma_entry_at(cs, j);
    } else {
        lemma_find_absent(cs, n, 0);
    }
}

/// In a tree with distinct names, the entry of a child's name is that child.
pub proof fn lemma_entry_child(s: DirView, i: int)
    requires
        unique_names(s),
        0 <= i < s.children.len(),
    ensures
        entry(s, s.children[i].0) == Some(s.children[i].1),
{
    lemma_lookup_at(s.children, i);
}

/// A directory created whole from `s` mirrors `s`.
pub proof fn lemma_fresh_copy(s: DirView, now: u128)
    requires
        unique_names(s),
        dated_by(s, now),
    ensures
        mirrors(add_apply(empty_dir(), entire_dir(s, true).children, now), s),
    decreases s,
{
    let e = entire_dir(s, true);
    let cs = e.children;
    let t = add_apply(empty_dir(), cs, now);
    assert(unique_names(empty_dir()));
    assert forall|a: int, b: int| 0 <= a < b < cs.len() implies cs[a].0 != cs[b].0 by {
        assert(cs[a].0 == s.children[a].0);
        assert(cs[b].0 == s.children[b].0);
    }
    lemma_add_unique(empty_dir(), cs, now);
    lemma_add_fold(empty_dir(), cs, now);
    assert forall|n: Seq<char>| entry(s, n) is None implies entry(t, n) is None by {
        assert forall|i: int| 0 <= i < cs.len() implies (#[trigger] cs[i]).0 != n by {
            if cs[i].0 == n {
                lemma_entry_child(s, i);
            }
        }
        lemma_find_absent(empty_dir().children, n, 0);
        assert(entry(empty_dir(), n) is None);
        assert(entry(t, n) == entry(empty_dir(), n));
    }
    assert forall|i: int| 0 <= i < s.children.len() implies mirrors_child(
        entry(t, (#[trigger] s.children[i]).0),
        s.children[i].1,
    ) by {
        assert(cs[i] == (s.children[i].0, entire_node(s.children[i].1, true)));
        lemma_find_absent(empty_dir().children, s.children[i].0, 0);
        assert(entry(empty_dir(), s.children[i].0) is None);
        match s.children[i].1 {
            NodeView::File(f) => {
                assert(entry(t, cs[i].0) == add_entry(None, cs[i].1, now));
            },
            NodeView::Dir(x) => {
                assert(unique_names(x));
                assert(dated_by(x, now));
                lemma_fresh_copy(x, now);
                assert(entry(t, cs[i].0) == add_entry(None, cs[i].1, now));
            },
        }
    }
}

/// Whether the name `n` is borne by one of the first `m` children of `cs`.
pub open spec fn in_prefix(cs: Children, n: Seq<char>, m: int) -> bool {
    find_name(cs, n, 0) is Some && find_name(cs, n, 0)->Some_0 < m
}

/// What Hard's rem-tree holds under `n`.
pub open spec fn hard_rem_for(s: DirView, d: DirView, n: Seq<char>) -> Option<NodeView> {
    match entry(d, n) {
        Some(NodeView::File(df)) => if lookup_file(s, n) is None {
            Some(NodeView::File(df))
        } else {
            None
        },
        Some(NodeView::Dir(dd)) => match lookup_dir(s, n) {
            Some(sd) => Some(NodeView::Dir(hard_diff(sd, dd).1)),
            None => Some(NodeView::Dir(entire_dir(dd, true))),
        },
        None => None,
    }
}

/// What the pass over the destination puts into Hard's add-tree under `n`.
pub open spec fn hard_add_dest(s: DirView, d: DirView, n: Seq<char>) -> Option<NodeView> {
    match entry(d, n) {
        Some(NodeView::File(df)) => match lookup_file(s, n) {
            Some(sf) => if differs(sf, df) {
                Some(NodeView::File(sf))
            } else {
                None
            },
            None => None,
        },
        Some(NodeView::Dir(dd)) => match lookup_dir(s, n) {
            Some(sd) => Some(NodeView::Dir(hard_diff(sd, dd).0)),
            None => None,
        },
        None => None,
    }
}

/// What the pass over the source puts into Hard's add-tree under `n`.
pub open spec fn hard_add_src(s: DirView, d: DirView, n: Seq<char>) -> Option<NodeView> {
    match entry(s, n) {
        Some(NodeView::File(sf)) => if lookup_file(d, n) is None {
            Some(NodeView::File(sf))
        } else {
            None
        },
        Some(NodeView::Dir(sd)) => if lookup_dir(d, n) is None {
            Some(NodeView::Dir(entire_dir(sd, true)))
        } else {
            None
        },
        None => None,
    }
}

proof fn lemma_prefix_step(cs: Children, m: int, n: Seq<char>)
    requires
        distinct_names(cs),
        0 < m <= cs.len(),
    ensures
        in_prefix(cs, cs[m - 1].0, m),
        !in_prefix(cs, cs[m - 1].0, m - 1),
        n != cs[m - 1].0 ==> in_prefix(cs, n, m) == in_prefix(cs, n, m - 1),
{
    lemma_lookup_at(cs, m - 1);
    if find_name(cs, n, 0) is Some {
        lemma_find_name_hit(cs, n, 0);
    }
}

proof fn lemma_prefix_all(cs: Children, n: Seq<char>)
    requires
        distinct_names(cs),
        !in_prefix(cs, n, cs.len() as int),
    ensures
        entry(dir_of(cs), n) is None,
        forall|j: int| 0 <= j < cs.len() ==> (#[trigger] cs[j]).0 != n,
{
    if find_name(cs, n, 0) is Some {
        lemma_find_name_hit(cs, n, 0);
    }
    assert forall|j: int| 0 <= j < cs.len() implies (#[trigger] cs[j]).0 != n by {
        if cs[j].0 == n {
            lemma_lookup_at(cs, j);
        }
    }
    lemma_find_absent(cs, n, 0);
}

proof fn lemma_hard_dest_pass(s: DirView, d: DirView, m: int)
    requires
        unique_names(s),
        unique_names(d),
        0 <= m <= d.children.len(),
    ensures
        distinct_names(hard_dest_pass(s, d.children.subrange(0, m)).0),
        distinct_names(hard_dest_pass(s, d.children.subrange(0, m)).1),
        forall|n: Seq<char>|
            entry(dir_of(hard_dest_pass(s, d.children.subrange(0, m)).1), n) == if in_prefix(
                d.children,
                n,
                m,
            ) {
                hard_rem_for(s, d, n)
            } else {
                None
            },
        forall|n: Seq<char>|
            entry(dir_of(hard_dest_pass(s, d.children.subrange(0, m)).0), n) == if in_prefix(
                d.children,
                n,
                m,
            ) {
                hard_add_dest(s, d, n)
            } else {
                None
            },
    decreases m,
{
    let cs = d.children.subrange(0, m);
    if m == 0 {
        assert(cs =~= Seq::<(Seq<char>, NodeView)>::empty());
        assert forall|n: Seq<char>| !in_prefix(d.children, n, 0) && entry(dir_of(Seq::empty()), n) is None by {
            if find_name(d.children, n, 0) is Some {
                lemma_find_name_hit(d.children, n, 0);
            }
            lemma_find_absent(Seq::<(Seq<char>, NodeView)>::empty(), n, 0);
        }
    } else {
        assert(cs.subrange(0, m - 1) =~= d.children.subrange(0, m - 1));
        lemma_hard_dest_pass(s, d, m - 1);
        let prev = hard_dest_pass(s, d.children.subrange(0, m - 1));
        let x = d.children[m - 1];
        assert(cs[m - 1] == x);
        let n0 = x.0;
        lemma_entry_child(d, m - 1);
        lemma_entry(s, n0);
        lemma_prefix_step(d.children, m, n0);
        let cur = hard_dest_pass(s, cs);
        assert(cur == hard_dest_child(s, n0, x.1, prev.0, prev.1));
        assert(entry(dir_of(prev.0), n0) is None);
        assert(entry(dir_of(prev.1), n0) is None);
        match x.1 {
            NodeView::File(df) => {
                assert(cur.1 == prev.1 || cur.1 == prev.1.push((n0, NodeView::File(df))));
                if lookup_file(s, n0) is None {
                    assert(cur.1 == prev.1.push((n0, NodeView::File(df))));
                    lemma_entry_push(prev.1, (n0, NodeView::File(df)));
                    assert(cur.0 == prev.0);
                } else {
                    let sf = lookup_file(s, n0)->Some_0;
                    assert(cur.1 == prev.1);
                    if differs(sf, df) {
                        assert(cur.0 == prev.0.push((n0, NodeView::File(sf))));
                        lemma_entry_push(prev.0, (n0, NodeView::File(sf)));
                    } else {
                        assert(cur.0 == prev.0);
                    }
                }
            },
            NodeView::Dir(dd) => {
                match lookup_dir(s, n0) {
                    Some(sd) => {
                        let sub = hard_diff(sd, dd);
                        assert(cur.0 == prev.0.push((n0, NodeView::Dir(sub.0))));
                        assert(cur.1 == prev.1.push((n0, NodeView::Dir(sub.1))));
                        lemma_entry_push(prev.0, (n0, NodeView::Dir(sub.0)));
                        lemma_entry_push(prev.1, (n0, NodeView::Dir(sub.1)));
                    },
                    None => {
                        assert(cur.0 == prev.0);
                        assert(cur.1 == prev.1.push((n0, NodeView::Dir(entire_dir(dd, true)))));
                        lemma_entry_push(prev.1, (n0, NodeView::Dir(entire_dir(dd, true))));
                    },
                }
            },
        }
        assert(entry(dir_of(cur.1), n0) == hard_rem_for(s, d, n0));
        assert(entry(dir_of(cur.0), n0) == hard_add_dest(s, d, n0));
        assert forall|n: Seq<char>| true implies {
            &&& entry(dir_of(cur.1), n) == if in_prefix(d.children, n, m) {
                hard_rem_for(s, d, n)
            } else {
                None
            }
            &&& entry(dir_of(cur.0), n) == if in_prefix(d.children, n, m) {
                hard_add_dest(s, d, n)
            } else {
                None
            }
        } by {
            lemma_prefix_step(d.children, m, n);
        }
    }
}

proof fn lemma_hard_src_pass(s: DirView, d: DirView, m: int)
    requires
        unique_names(s),
        unique_names(d),
        0 <= m <= s.children.len(),
    ensures
        distinct_names(hard_src_pass(s.children.subrange(0, m), d)),
        forall|n: Seq<char>|
            entry(dir_of(hard_src_pass(s.children.subrange(0, m), d)), n) == if in_prefix(
                s.children,
                n,
                m,
            ) {
                hard_add_src(s, d, n)
            } else {
                None
            },
    decreases m,
{
    let cs = s.children.subrange(0, m);
    if m == 0 {
        assert(cs =~= Seq::<(Seq<char>, NodeView)>::empty());
        assert forall|n: Seq<char>| !in_prefix(s.children, n, 0) && entry(dir_of(Seq::empty()), n) is None by {
            if find_name(s.children, n, 0) is Some {
                lemma_find_name_hit(s.children, n, 0);
            }
            lemma_find_absent(Seq::<(Seq<char>, NodeView)>::empty(), n, 0);
        }
    } else {
        assert(cs.subrange(0, m - 1) =~= s.children.subrange(0, m - 1));
        lemma_hard_src_pass(s, d, m - 1);
        let prev = hard_src_pass(s.children.subrange(0, m - 1), d);
        let x = s.children[m - 1];
        assert(cs[m - 1] == x);
        let n0 = x.0;
        lemma_entry_child(s, m - 1);
        lemma_entry(d, n0);
        lemma_prefix_step(s.children, m, n0);
        let cur = hard_src_pass(cs, d);
        assert(entry(dir_of(prev), n0) is None);
        match x.1 {
            NodeView::File(sf) => {
                if lookup_file(d, n0) is None {
                    assert(cur == prev.push((n0, NodeView::File(sf))));
                    lemma_entry_push(prev, (n0, NodeView::File(sf)));
                } else {
                    assert(cur == prev);
                }
            },
            NodeView::Dir(sd) => {
                if lookup_dir(d, n0) is None {
                    assert(cur == prev.push((n0, NodeView::Dir(entire_dir(sd, true)))));
                    lemma_entry_push(prev, (n0, NodeView::Dir(entire_dir(sd, true))));
                } else {
                    assert(cur == prev);
                }
            },
        }
        assert(entry(dir_of(cur), n0) == hard_add_src(s, d, n0));
        assert forall|n: Seq<char>| true implies entry(dir_of(cur), n) == if in_prefix(
            s.children,
            n,
            m,
        ) {
            hard_add_src(s, d, n)
        } else {
            None
        } by {
            lemma_prefix_step(s.children, m, n);
        }
    }
}

proof fn lemma_entry_concat(a: Children, b: Children)
    requires
        distinct_names(a),
        distinct_names(b),
        forall|n: Seq<char>| !(entry(dir_of(a), n) is Some && entry(dir_of(b), n) is Some),
    ensures
        distinct_names(a + b),
        forall|n: Seq<char>|
            entry(dir_of(a + b), n) == if entry(dir_of(b), n) is Some {
                entry(dir_of(b), n)
            } else {
                entry(dir_of(a), n)
            },
    decreases b.len(),
{
    if b.len() == 0 {
        assert(a + b =~= a);
        assert forall|n: Seq<char>| entry(dir_of(b), n) is None by {
            lemma_find_absent(b, n, 0);
        }
    } else {
        let bp = b.drop_last();
        let y = b.last();
        assert forall|i: int, j: int| 0 <= i < j < bp.len() implies bp[i].0 != bp[j].0 by {
            assert(bp[i] == b[i] && bp[j] == b[j]);
        }
        assert(b == bp.push(y));
        lemma_entry_at(b, b.len() - 1);
        assert(entry(dir_of(bp), y.0) is None) by {
            assert forall|j: int| 0 <= j < bp.len() implies (#[trigger] bp[j]).0 != y.0 by {
                assert(bp[j] == b[j]);
            }
            lemma_find_absent(bp, y.0, 0);
        }
        lemma_entry_push(bp, y);
        lemma_entry_concat(a, bp);
        assert(a + b == (a + bp).push(y));
        assert(entry(dir_of(a), y.0) is None);
        lemma_entry_push(a + bp, y);
        assert forall|n: Seq<char>| true implies entry(dir_of(a + b), n) == if entry(dir_of(b), n) is Some {
            entry(dir_of(b), n)
        } else {
            entry(dir_of(a), n)
        } by {
            let ab = a + bp;
            assert(entry(dir_of(ab), n) == if entry(dir_of(bp), n) is Some {
                entry(dir_of(bp), n)
            } else {
                entry(dir_of(a), n)
            });
            if n != y.0 {
                assert(entry(dir_of(bp.push(y)), n) == entry(dir_of(bp), n));
                assert(entry(dir_of(ab.push(y)), n) == entry(dir_of(ab), n));
            } else {
                assert(entry(dir_of(bp.push(y)), n) == Some(y.1));
                assert(entry(dir_of(ab.push(y)), n) == Some(y.1));
            }
        }
    }
}

proof fn lemma_hard_trees(s: DirView, d: DirView)
    requires
        unique_names(s),
        unique_names(d),
    ensures
        distinct_names(hard_diff(s, d).1.children),
        distinct_names(hard_diff(s, d).0.children),
        forall|n: Seq<char>| entry(dir_of(hard_diff(s, d).1.children), n) == hard_rem_for(s, d, n),
        forall|n: Seq<char>|
            entry(dir_of(hard_diff(s, d).0.children), n) == if hard_add_src(s, d, n) is Some {
                hard_add_src(s, d, n)
            } else {
                hard_add_dest(s, d, n)
            },
{
    let dl = d.children.len() as int;
    let sl = s.children.len() as int;
    lemma_hard_dest_pass(s, d, dl);
    lemma_hard_src_pass(s, d, sl);
    assert(d.children.subrange(0, dl) =~= d.children);
    assert(s.children.subrange(0, sl) =~= s.children);
    let dp = hard_dest_pass(s, d.children);
    let sp = hard_src_pass(s.children, d);
    assert forall|n: Seq<char>| true implies (!in_prefix(d.children, n, dl) ==> entry(d, n) is None)
        && (!in_prefix(s.children, n, sl) ==> entry(s, n) is None) by {
        if !in_prefix(d.children, n, dl) {
            lemma_prefix_all(d.children, n);
        }
        if !in_prefix(s.children, n, sl) {
            lemma_prefix_all(s.children, n);
        }
    }
    assert forall|n: Seq<char>| !(entry(dir_of(dp.0), n) is Some && entry(dir_of(sp), n) is Some) by {
        lemma_entry(s, n);
        lemma_entry(d, n);
    }
    lemma_entry_concat(dp.0, sp);
}

/// What a Hard sync leaves under `n`, name by name.
pub open spec fn hard_result(s: DirView, d: DirView, now: u128, n: Seq<char>) -> Option<NodeView> {
    match entry(s, n) {
        None => None,
        Some(NodeView::File(sf)) => match entry(d, n) {
            Some(NodeView::File(df)) => if differs(sf, df) {
                Some(NodeView::File(copied(sf, now)))
            } else {
                Some(NodeView::File(df))
            },
            _ => Some(NodeView::File(copied(sf, now))),
        },
        Some(NodeView::Dir(sd)) => match entry(d, n) {
            Some(NodeView::Dir(dd)) => Some(NodeView::Dir(synced(sd, dd, SyncMode::Hard, now))),
            _ => Some(NodeView::Dir(add_apply(empty_dir(), entire_dir(sd, true).children, now))),
        },
    }
}

proof fn lemma_hard_name(s: DirView, d: DirView, now: u128, n: Seq<char>)
    requires
        unique_names(s),
        unique_names(d),
    ensures
        unique_names(synced(s, d, SyncMode::Hard, now)),
        entry(synced(s, d, SyncMode::Hard, now), n) == hard_result(s, d, now, n),
{
    let (a, r) = hard_diff(s, d);
    let t1 = rem_apply(d, r.children);
    let t = add_apply(t1, a.children, now);
    assert(t == synced(s, d, SyncMode::Hard, now));
    lemma_hard_trees(s, d);
    lemma_rem_unique(d, r.children);
    lemma_add_unique(t1, a.children, now);
    lemma_rem_by_name(d, r.children, n);
    lemma_add_by_name(t1, a.children, now, n);
    lemma_entry(s, n);
    lemma_entry(d, n);
    let rn = hard_rem_for(s, d, n);
    assert(entry(dir_of(r.children), n) == rn);
    let e1 = match rn {
        Some(node) => rem_entry(entry(d, n), node),
        None => entry(d, n),
    };
    assert(entry(t1, n) == e1);
    let an = if hard_add_src(s, d, n) is Some {
        hard_add_src(s, d, n)
    } else {
        hard_add_dest(s, d, n)
    };
    assert(entry(dir_of(a.children), n) == an);
    let e2 = match an {
        Some(node) => add_entry(e1, node, now),
        None => e1,
    };
    assert(entry(t, n) == e2);
    match entry(d, n) {
        Some(NodeView::Dir(dd)) => {
            assert(entire_dir(dd, true).entirety);
            match lookup_dir(s, n) {
                Some(sd) => {
                    assert(!hard_diff(sd, dd).1.entirety);
                    assert(!hard_diff(sd, dd).0.entirety);
                },
                None => {},
            }
        },
        _ => {},
    }
    match entry(s, n) {
        Some(NodeView::Dir(sd)) => {
            assert(entire_dir(sd, true).entirety);
        },
        _ => {},
    }
}

proof fn lemma_hard_mirrors(src: DirView, dest: DirView, now: u128)
    requires
        unique_names(src),
        unique_names(dest),
        dated_by(src, now),
    ensures
        mirrors(synced(src, dest, SyncMode::Hard, now), src),
    decreases src,
{
    let t = synced(src, dest, SyncMode::Hard, now);
    lemma_hard_name(src, dest, now, Seq::empty());
    assert forall|n: Seq<char>| entry(src, n) is None implies entry(t, n) is None by {
        lemma_hard_name(src, dest, now, n);
    }
    assert forall|i: int| 0 <= i < src.children.len() implies mirrors_child(
        entry(t, (#[trigger] src.children[i]).0),
        src.children[i].1,
    ) by {
        let n = src.children[i].0;
        lemma_entry_child(src, i);
        lemma_hard_name(src, dest, now, n);
        lemma_entry(dest, n);
        match src.children[i].1 {
            NodeView::File(sf) => {
                assert(sf.date <= now);
            },
            NodeView::Dir(sd) => {
                assert(unique_names(sd));
                assert(dated_by(sd, now));
                match entry(dest, n) {
                    Some(NodeView::Dir(dd)) => {
                        assert(unique_names(dd));
                        lemma_hard_mirrors(sd, dd, now);
                    },
                    _ => {
                        lemma_fresh_copy(sd, now);
                    },
                }
            },
        }
    }
}

/// What Update's add-tree holds under `n`.
pub open spec fn update_add_for(s: DirView, d: DirView, n: Seq<char>) -> Option<NodeView> {
    match entry(d, n) {
        Some(NodeView::File(df)) => match lookup_file(s, n) {
            Some(sf) => if differs(sf, df) {
                Some(NodeView::File(sf))
            } else {
                None
            },
            None => None,
        },
        Some(NodeView::Dir(dd)) => match lookup_dir(s, n) {
            Some(sd) => Some(NodeView::Dir(update_diff(sd, dd))),
            None => None,
        },
        None => None,
    }
}

proof fn lemma_update_pass(s: DirView, d: DirView, m: int)
    requires
        unique_names(d),
        0 <= m <= d.children.len(),
    ensures
        distinct_names(update_pass(s, d.children.subrange(0, m))),
        forall|n: Seq<char>|
            entry(dir_of(update_pass(s, d.children.subrange(0, m))), n) == if in_prefix(
                d.children,
                n,
                m,
            ) {
                update_add_for(s, d, n)
            } else {
                None
            },
    decreases m,
{
    let cs = d.children.subrange(0, m);
    if m == 0 {
        assert(cs =~= Seq::<(Seq<char>, NodeView)>::empty());
        assert forall|n: Seq<char>| !in_prefix(d.children, n, 0) && entry(dir_of(Seq::empty()), n) is None by {
            if find_name(d.children, n, 0) is Some {
                lemma_find_name_hit(d.children, n, 0);
            }
            lemma_find_absent(Seq::<(Seq<char>, NodeView)>::empty(), n, 0);
        }
    } else {
        assert(cs.subrange(0, m - 1) =~= d.children.subrange(0, m - 1));
        lemma_update_pass(s, d, m - 1);
        let prev = update_pass(s, d.children.subrange(0, m - 1));
        let x = d.children[m - 1];
        assert(cs[m - 1] == x);
        let n0 = x.0;
        lemma_entry_child(d, m - 1);
        lemma_prefix_step(d.children, m, n0);
        let cur = update_pass(s, cs);
        assert(cur == update_child(s, n0, x.1, prev));
        assert(entry(dir_of(prev), n0) is None);
        match x.1 {
            NodeView::File(df) => {
                match lookup_file(s, n0) {
                    Some(sf) => {
                        if differs(sf, df) {
                            assert(cur == prev.push((n0, NodeView::File(sf))));
                            lemma_entry_push(prev, (n0, NodeView::File(sf)));
                        } else {
                            assert(cur == prev);
                        }
                    },
                    None => {
                        assert(cur == prev);
                    },
                }
            },
            NodeView::Dir(dd) => {
                match lookup_dir(s, n0) {
                    Some(sd) => {
                        assert(cur == prev.push((n0, NodeView::Dir(update_diff(sd, dd)))));
                        lemma_entry_push(prev, (n0, NodeView::Dir(update_diff(sd, dd))));
                    },
                    None => {
                        assert(cur == prev);
                    },
                }
            },
        }
        assert(entry(dir_of(cur), n0) == update_add_for(s, d, n0));
        assert forall|n: Seq<char>| true implies entry(dir_of(cur), n) == if in_prefix(
            d.children,
            n,
            m,
        ) {
            update_add_for(s, d, n)
        } else {
            None
        } by {
            lemma_prefix_step(d.children, m, n);
            if n != n0 {
                assert(entry(dir_of(cur), n) == entry(dir_of(prev), n));
                assert(in_prefix(d.children, n, m) == in_prefix(d.children, n, m - 1));
            }
        }
    }
}

/// What an Update sync leaves under `n`, name by name.
pub open spec fn update_result(s: DirView, d: DirView, now: u128, n: Seq<char>) -> Option<
    NodeView,
> {
    match entry(d, n) {
        Some(NodeView::File(df)) => match lookup_file(s, n) {
            Some(sf) => if differs(sf, df) {
                Some(NodeView::File(copied(sf, now)))
            } else {
                Some(NodeView::File(df))
            },
            None => Some(NodeView::File(df)),
        },
        Some(NodeView::Dir(dd)) => match lookup_dir(s, n) {
            Some(sd) => Some(NodeView::Dir(synced(sd, dd, SyncMode::Update, now))),
            None => Some(NodeView::Dir(dd)),
        },
        None => None,
    }
}

proof fn lemma_update_name(s: DirView, d: DirView, now: u128, n: Seq<char>)
    requires
        unique_names(d),
    ensures
        unique_names(synced(s, d, SyncMode::Update, now)),
        entry(synced(s, d, SyncMode::Update, now), n) == update_result(s, d, now, n),
{
    let a = update_diff(s, d);
    assert(rem_apply(d, empty_dir().children) == d);
    let t = add_apply(d, a.children, now);
    assert(t == synced(s, d, SyncMode::Update, now));
    let dl = d.children.len() as int;
    lemma_update_pass(s, d, dl);
    assert(d.children.subrange(0, dl) =~= d.children);
    lemma_add_unique(d, a.children, now);
    lemma_add_by_name(d, a.children, now, n);
    lemma_entry(d, n);
    if !in_prefix(d.children, n, dl) {
        lemma_prefix_all(d.children, n);
    }
    assert(entry(dir_of(a.children), n) == update_add_for(s, d, n));
    match entry(d, n) {
        Some(NodeView::Dir(dd)) => {
            match lookup_dir(s, n) {
                Some(sd) => {
                    assert(!update_diff(sd, dd).entirety);
                    assert(rem_apply(dd, empty_dir().children) == dd);
                },
                None => {},
            }
        },
        _ => {},
    }
}

/// A destination that a first Update left: wherever it holds a file that the
/// source holds too, the two do not differ, and likewise below.
pub open spec fn update_fixed(t: DirView, s: DirView) -> bool
    decreases t,
{
    &&& unique_names(t)
    &&& forall|i: int|
        0 <= i < t.children.len() ==> {
            &&& ((#[trigger] t.children[i]).1 is File && lookup_file(s, t.children[i].0) is Some
                ==> !differs(lookup_file(s, t.children[i].0)->Some_0, t.children[i].1->File_0))
            &&& (t.children[i].1 is Dir && lookup_dir(s, t.children[i].0) is Some ==> update_fixed(
                t.children[i].1->Dir_0,
                lookup_dir(s, t.children[i].0)->Some_0,
            ))
        }
}

proof fn lemma_update_first(s: DirView, d: DirView, now: u128)
    requires
        unique_names(d),
        dated_by(s, now),
    ensures
        update_fixed(synced(s, d, SyncMode::Update, now), s),
    decreases d,
{
    let t = synced(s, d, SyncMode::Update, now);
    lemma_update_name(s, d, now, Seq::empty());
    assert forall|i: int| 0 <= i < t.children.len() implies {
        &&& ((#[trigger] t.children[i]).1 is File && lookup_file(s, t.children[i].0) is Some
            ==> !differs(lookup_file(s, t.children[i].0)->Some_0, t.children[i].1->File_0))
        &&& (t.children[i].1 is Dir && lookup_dir(s, t.children[i].0) is Some ==> update_fixed(
            t.children[i].1->Dir_0,
            lookup_dir(s, t.children[i].0)->Some_0,
        ))
    } by {
        let n = t.children[i].0;
        lemma_entry_child(t, i);
        lemma_update_name(s, d, now, n);
        lemma_entry(d, n);
        match lookup_file(s, n) {
            Some(sf) => {
                lemma_file_dated(s, n, now);
            },
            None => {},
        }
        match entry(d, n) {
            Some(NodeView::Dir(dd)) => {
                let j = crate::pruning::lemma_name_present(d.children, n);
                lemma_entry_child(d, j);
                if lookup_dir(s, n) is Some {
                    lemma_dir_dated(s, n, now);
                    lemma_update_first(lookup_dir(s, n)->Some_0, dd, now);
                }
            },
            _ => {},
        }
    }
}

/// A file that a tree dated by `now` holds is dated no later than `now`.
pub proof fn lemma_file_dated(s: DirView, n: Seq<char>, now: u128)
    requires
        dated_by(s, now),
        lookup_file(s, n) is Some,
    ensures
        lookup_file(s, n)->Some_0.date <= now,
{
    lemma_find_file_at(s.children, n, 0);
}

/// A directory that a tree dated by `now` holds is dated by `now` as well.
pub proof fn lemma_dir_dated(s: DirView, n: Seq<char>, now: u128)
    requires
        dated_by(s, now),
        lookup_dir(s, n) is Some,
    ensures
        dated_by(lookup_dir(s, n)->Some_0, now),
{
    lemma_find_dir_at(s.children, n, 0);
}

proof fn lemma_find_file_at(cs: Children, n: Seq<char>, k: int) -> (j: int)
    requires
        0 <= k,
        find_file(cs, n, k) is Some,
    ensures
        0 <= j < cs.len(),
        cs[j].1 == NodeView::File(find_file(cs, n, k)->Some_0),
    decreases cs.len() - k,
{
    if cs[k].0 == n && cs[k].1 is File {
        k
    } else {
        lemma_find_file_at(cs, n, k + 1)
    }
}

proof fn lemma_find_dir_at(cs: Children, n: Seq<char>, k: int) -> (j: int)
    requires
        0 <= k,
        find_dir(cs, n, k) is Some,
    ensures
        0 <= j < cs.len(),
        cs[j].1 == NodeView::Dir(find_dir(cs, n, k)->Some_0),
    decreases cs.len() - k,
{
    if cs[k].0 == n && cs[k].1 is Dir {
        k
    } else {
        lemma_find_dir_at(cs, n, k + 1)
    }
}

/// What Soft (`mixed` false) or Mixed (`mixed` true) puts into the rem-tree under `n`.
pub open spec fn soft_rem_for(s: DirView, d: DirView, mixed: bool, n: Seq<char>) -> Option<NodeView> {
    match entry(s, n) {
        Some(NodeView::Dir(sd)) => match lookup_dir(d, n) {
            Some(dd) => Some(NodeView::Dir(soft_diff(sd, dd, mixed).1)),
            None => match lookup_file(d, n) {
                Some(df) => if mixed {
                    Some(NodeView::File(df))
                } else {
                    None
                },
                None => None,
            },
        },
        Some(NodeView::File(_)) => match lookup_file(d, n) {
            Some(_) => None,
            None => match lookup_dir(d, n) {
                Some(dd) => if mixed {
                    Some(NodeView::Dir(DirView { entirety: true, ..dd }))
                } else {
                    None
                },
                None => None,
            },
        },
        None => None,
    }
}

/// What Soft (`mixed` false) or Mixed (`mixed` true) puts into the add-tree under `n`.
pub open spec fn soft_add_for(s: DirView, d: DirView, mixed: bool, n: Seq<char>) -> Option<NodeView> {
    match entry(s, n) {
        Some(NodeView::Dir(sd)) => match lookup_dir(d, n) {
            Some(dd) => Some(NodeView::Dir(soft_diff(sd, dd, mixed).0)),
            None => if lookup_file(d, n) is Some && !mixed {
                None
            } else {
                Some(NodeView::Dir(entire_dir(sd, true)))
            },
        },
        Some(NodeView::File(sf)) => match lookup_file(d, n) {
            Some(df) => if differs(sf, df) {
                Some(NodeView::File(sf))
            } else {
                None
            },
            None => if lookup_dir(d, n) is Some && !mixed {
                None
            } else {
                Some(NodeView::File(sf))
            },
        },
        None => None,
    }
}

proof fn lemma_soft_pass(s: DirView, d: DirView, mixed: bool, m: int)
    requires
        unique_names(s),
        0 <= m <= s.children.len(),
    ensures
        distinct_names(soft_pass(s.children.subrange(0, m), d, mixed).0),
        distinct_names(soft_pass(s.children.subrange(0, m), d, mixed).1),
        forall|n: Seq<char>|
            entry(dir_of(soft_pass(s.children.subrange(0, m), d, mixed).1), n) == if in_prefix(
                s.children,
                n,
                m,
            ) {
                soft_rem_for(s, d, mixed, n)
            } else {
                None
            },
        forall|n: Seq<char>|
            entry(dir_of(soft_pass(s.children.subrange(0, m), d, mixed).0), n) == if in_prefix(
                s.children,
                n,
                m,
            ) {
                soft_add_for(s, d, mixed, n)
            } else {
                None
            },
    decreases m,
{
    let cs = s.children.subrange(0, m);
    if m == 0 {
        assert(cs =~= Seq::<(Seq<char>, NodeView)>::empty());
        assert forall|n: Seq<char>| !in_prefix(s.children, n, 0) && entry(dir_of(Seq::empty()), n) is None by {
            if find_name(s.children, n, 0) is Some {
                lemma_find_name_hit(s.children, n, 0);
            }
            lemma_find_absent(Seq::<(Seq<char>, NodeView)>::empty(), n, 0);
        }
    } else {
        assert(cs.subrange(0, m - 1) =~= s.children.subrange(0, m - 1));
        lemma_soft_pass(s, d, mixed, m - 1);
        let prev = soft_pass(s.children.subrange(0, m - 1), d, mixed);
        let x = s.children[m - 1];
        assert(cs[m - 1] == x);
        let n0 = x.0;
        lemma_entry_child(s, m - 1);
        lemma_prefix_step(s.children, m, n0);
        let cur = soft_pass(cs, d, mixed);
        assert(cur == soft_child(n0, x.1, d, mixed, prev.0, prev.1));
        assert(entry(dir_of(prev.0), n0) is None);
        assert(entry(dir_of(prev.1), n0) is None);
        let ra = soft_add_for(s, d, mixed, n0);
        let rr = soft_rem_for(s, d, mixed, n0);
        if ra is Some {
            assert(cur.0 == prev.0.push((n0, ra->Some_0)));
            lemma_entry_push(prev.0, (n0, ra->Some_0));
        } else {
            assert(cur.0 == prev.0);
        }
        if rr is Some {
            assert(cur.1 == prev.1.push((n0, rr->Some_0)));
            lemma_entry_push(prev.1, (n0, rr->Some_0));
        } else {
            assert(cur.1 == prev.1);
        }
        assert forall|n: Seq<char>| true implies {
            &&& entry(dir_of(cur.1), n) == if in_prefix(s.children, n, m) {
                soft_rem_for(s, d, mixed, n)
            } else {
                None
            }
            &&& entry(dir_of(cur.0), n) == if in_prefix(s.children, n, m) {
                soft_add_for(s, d, mixed, n)
            } else {
                None
            }
        } by {
            lemma_prefix_step(s.children, m, n);
            if n != n0 {
                assert(entry(dir_of(cur.0), n) == entry(dir_of(prev.0), n));
                assert(entry(dir_of(cur.1), n) == entry(dir_of(prev.1), n));
                assert(in_prefix(s.children, n, m) == in_prefix(s.children, n, m - 1));
            }
        }
    }
}

pub open spec fn soft_mode(mixed: bool) -> SyncMode {
    if mixed {
        SyncMode::Mixed
    } else {
        SyncMode::Soft
    }
}

/// What a Soft (`mixed` false) or Mixed (`mixed` true) sync leaves under `n`.
pub open spec fn soft_result(s: DirView, d: DirView, mixed: bool, now: u128, n: Seq<char>) -> Option<
    NodeView,
> {
    match entry(s, n) {
        None => entry(d, n),
        Some(NodeView::File(sf)) => match entry(d, n) {
            Some(NodeView::File(df)) => if differs(sf, df) {
                Some(NodeView::File(copied(sf, now)))
            } else {
                Some(NodeView::File(df))
            },
            Some(NodeView::Dir(dd)) => if mixed {
                Some(NodeView::File(copied(sf, now)))
            } else {
                Some(NodeView::Dir(dd))
            },
            None => Some(NodeView::File(copied(sf, now))),
        },
        Some(NodeView::Dir(sd)) => match entry(d, n) {
            Some(NodeView::Dir(dd)) => Some(NodeView::Dir(synced(sd, dd, soft_mode(mixed), now))),
            Some(NodeView::File(df)) => if mixed {
                Some(NodeView::Dir(add_apply(empty_dir(), entire_dir(sd, true).children, now)))
            } else {
                Some(NodeView::File(df))
            },
            None => Some(NodeView::Dir(add_apply(empty_dir(), entire_dir(sd, true).children, now))),
        },
    }
}

proof fn lemma_soft_name(s: DirView, d: DirView, mixed: bool, now: u128, n: Seq<char>)
    requires
        unique_names(s),
        unique_names(d),
    ensures
        unique_names(synced(s, d, soft_mode(mixed), now)),
        entry(synced(s, d, soft_mode(mixed), now), n) == soft_result(s, d, mixed, now, n),
{
    let (a, r) = soft_diff(s, d, mixed);
    let t1 = rem_apply(d, r.children);
    let t = add_apply(t1, a.children, now);
    assert(t == synced(s, d, soft_mode(mixed), now));
    let sl = s.children.len() as int;
    lemma_soft_pass(s, d, mixed, sl);
    assert(s.children.subrange(0, sl) =~= s.children);
    if !in_prefix(s.children, n, sl) {
        lemma_prefix_all(s.children, n);
    }
    lemma_rem_unique(d, r.children);
    lemma_add_unique(t1, a.children, now);
    lemma_rem_by_name(d, r.children, n);
    lemma_add_by_name(t1, a.children, now, n);
    lemma_entry(s, n);
    lemma_entry(d, n);
    assert(entry(dir_of(r.children), n) == soft_rem_for(s, d, mixed, n));
    assert(entry(dir_of(a.children), n) == soft_add_for(s, d, mixed, n));
    match entry(s, n) {
        Some(NodeView::Dir(sd)) => {
            assert(entire_dir(sd, true).entirety);
            match entry(d, n) {
                Some(NodeView::Dir(dd)) => {
                    assert(!soft_diff(sd, dd, mixed).1.entirety);
                    assert(!soft_diff(sd, dd, mixed).0.entirety);
                },
                _ => {},
            }
        },
        _ => {},
    }
}

/// A destination that a first Soft (`mixed` false) or Mixed (`mixed` true) left:
/// each source file stands as a file that does not differ from it, each source
/// directory as a directory left the same way; under Soft a name held by the other
/// kind may stay as it is.
pub open spec fn soft_fixed(t: DirView, s: DirView, mixed: bool) -> bool
    decreases s,
{
    &&& unique_names(t)
    &&& forall|i: int|
        0 <= i < s.children.len() ==> {
            let e = entry(t, (#[trigger] s.children[i]).0);
            match s.children[i].1 {
                NodeView::File(sf) => (e is Some && e->Some_0 is File && !differs(
                    sf,
                    e->Some_0->File_0,
                )) || (!mixed && e is Some && e->Some_0 is Dir),
                NodeView::Dir(sd) => (e is Some && e->Some_0 is Dir && soft_fixed(
                    e->Some_0->Dir_0,
                    sd,
                    mixed,
                )) || (!mixed && e is Some && e->Some_0 is File),
            }
        }
}

proof fn lemma_mirrors_fixed(t: DirView, s: DirView, mixed: bool)
    requires
        mirrors(t, s),
    ensures
        soft_fixed(t, s, mixed),
    decreases s,
{
    assert forall|i: int| 0 <= i < s.children.len() implies {
        let e = entry(t, (#[trigger] s.children[i]).0);
        match s.children[i].1 {
            NodeView::File(sf) => (e is Some && e->Some_0 is File && !differs(sf, e->Some_0->File_0))
                || (!mixed && e is Some && e->Some_0 is Dir),
            NodeView::Dir(sd) => (e is Some && e->Some_0 is Dir && soft_fixed(
                e->Some_0->Dir_0,
                sd,
                mixed,
            )) || (!mixed && e is Some && e->Some_0 is File),
        }
    } by {
        let e = entry(t, s.children[i].0);
        assert(mirrors_child(e, s.children[i].1));
        match s.children[i].1 {
            NodeView::Dir(sd) => {
                lemma_mirrors_fixed(e->Some_0->Dir_0, sd, mixed);
            },
            NodeView::File(_) => {},
        }
    }
}

proof fn lemma_soft_first(s: DirView, d: DirView, mixed: bool, now: u128)
    requires
        unique_names(s),
        unique_names(d),
        dated_by(s, now),
    ensures
        soft_fixed(synced(s, d, soft_mode(mixed), now), s, mixed),
    decreases s,
{
    let t = synced(s, d, soft_mode(mixed), now);
    lemma_soft_name(s, d, mixed, now, Seq::empty());
    assert forall|i: int| 0 <= i < s.children.len() implies {
        let e = entry(t, (#[trigger] s.children[i]).0);
        match s.children[i].1 {
            NodeView::File(sf) => (e is Some && e->Some_0 is File && !differs(sf, e->Some_0->File_0))
                || (!mixed && e is Some && e->Some_0 is Dir),
            NodeView::Dir(sd) => (e is Some && e->Some_0 is Dir && soft_fixed(
                e->Some_0->Dir_0,
                sd,
                mixed,
            )) || (!mixed && e is Some && e->Some_0 is File),
        }
    } by {
        let n = s.children[i].0;
        lemma_entry_child(s, i);
        lemma_soft_name(s, d, mixed, now, n);
        lemma_entry(d, n);
        match s.children[i].1 {
            NodeView::File(sf) => {
                assert(sf.date <= now);
            },
            NodeView::Dir(sd) => {
                assert(unique_names(sd));
                assert(dated_by(sd, now));
                match entry(d, n) {
                    Some(NodeView::Dir(dd)) => {
                        assert(unique_names(dd));
                        lemma_soft_first(sd, dd, mixed, now);
                    },
                    _ => {
                        lemma_fresh_copy(sd, now);
                        lemma_mirrors_fixed(
                            add_apply(empty_dir(), entire_dir(sd, true).children, now),
                            sd,
                            mixed,
                        );
                    },
                }
            },
        }
    }
}

/// An entry that asks for no operation: absent, or a quiet directory.
pub open spec fn idle_entry(e: Option<NodeView>) -> bool {
    e is None || (e->Some_0 is Dir && quiet(e->Some_0->Dir_0))
}

proof fn lemma_quiet_by_name(cs: Children)
    requires
        distinct_names(cs),
        forall|n: Seq<char>| idle_entry(#[trigger] entry(dir_of(cs), n)),
    ensures
        all_quiet(cs),
{
    assert forall|i: int| 0 <= i < cs.len() implies (#[trigger] cs[i]).1 is Dir && quiet(
        cs[i].1->Dir_0,
    ) by {
        lemma_entry_at(cs, i);
        assert(idle_entry(entry(dir_of(cs), cs[i].0)));
    }
}

/// Where a name of `s` stands in a tree that mirrors it, and what stands there.
proof fn lemma_mirror_entry(t: DirView, s: DirView, n: Seq<char>) -> (j: int)
    requires
        unique_names(s),
        mirrors(t, s),
        entry(t, n) is Some || entry(s, n) is Some,
    ensures
        0 <= j < s.children.len(),
        s.children[j].0 == n,
        entry(s, n) == Some(s.children[j].1),
        mirrors_child(entry(t, n), s.children[j].1),
{
    lemma_entry(s, n);
    let j = crate::pruning::lemma_name_present(s.children, n);
    lemma_entry_child(s, j);
    j
}

proof fn lemma_mirror_quiet(s: DirView, t: DirView)
    requires
        unique_names(s),
        mirrors(t, s),
    ensures
        quiet(hard_diff(s, t).0),
        quiet(hard_diff(s, t).1),
    decreases s,
{
    lemma_hard_trees(s, t);
    let (a, r) = hard_diff(s, t);
    assert forall|n: Seq<char>| true implies idle_entry(entry(dir_of(r.children), n)) && idle_entry(
        entry(dir_of(a.children), n),
    ) by {
        lemma_entry(s, n);
        lemma_entry(t, n);
        if entry(t, n) is Some || entry(s, n) is Some {
            let j = lemma_mirror_entry(t, s, n);
            match s.children[j].1 {
                NodeView::Dir(sd) => {
                    let td = entry(t, n)->Some_0->Dir_0;
                    assert(unique_names(sd));
                    assert(mirrors(td, sd));
                    lemma_mirror_quiet(sd, td);
                    assert(hard_rem_for(s, t, n) == Some(NodeView::Dir(hard_diff(sd, td).1)));
                    assert(hard_add_src(s, t, n) is None);
                    assert(hard_add_dest(s, t, n) == Some(NodeView::Dir(hard_diff(sd, td).0)));
                },
                NodeView::File(sf) => {
                    let tf = entry(t, n)->Some_0->File_0;
                    assert(!differs(sf, tf));
                    assert(hard_rem_for(s, t, n) is None);
                    assert(hard_add_src(s, t, n) is None);
                    assert(hard_add_dest(s, t, n) is None);
                },
            }
        }
    }
    assert(forall|n: Seq<char>| idle_entry(#[trigger] entry(dir_of(r.children), n)));
    assert(forall|n: Seq<char>| idle_entry(#[trigger] entry(dir_of(a.children), n)));
    lemma_quiet_by_name(r.children);
    lemma_quiet_by_name(a.children);
}

proof fn lemma_update_fixed_quiet(s: DirView, t: DirView)
    requires
        update_fixed(t, s),
    ensures
        quiet(update_diff(s, t)),
    decreases t,
{
    let a = update_diff(s, t);
    let tl = t.children.len() as int;
    lemma_update_pass(s, t, tl);
    assert(t.children.subrange(0, tl) =~= t.children);
    assert forall|n: Seq<char>| idle_entry(#[trigger] entry(dir_of(a.children), n)) by {
        lemma_entry(t, n);
        if !in_prefix(t.children, n, tl) {
            lemma_prefix_all(t.children, n);
        }
        if entry(t, n) is Some {
            let j = crate::pruning::lemma_name_present(t.children, n);
            lemma_entry_child(t, j);
            match t.children[j].1 {
                NodeView::Dir(td) => {
                    if lookup_dir(s, n) is Some {
                        lemma_update_fixed_quiet(lookup_dir(s, n)->Some_0, td);
                    }
                },
                NodeView::File(_) => {},
            }
        }
    }
    lemma_quiet_by_name(a.children);
}

proof fn lemma_soft_fixed_quiet(s: DirView, t: DirView, mixed: bool)
    requires
        unique_names(s),
        soft_fixed(t, s, mixed),
    ensures
        quiet(soft_diff(s, t, mixed).0),
        quiet(soft_diff(s, t, mixed).1),
    decreases s,
{
    let (a, r) = soft_diff(s, t, mixed);
    let sl = s.children.len() as int;
    lemma_soft_pass(s, t, mixed, sl);
    assert(s.children.subrange(0, sl) =~= s.children);
    assert forall|n: Seq<char>| true implies idle_entry(entry(dir_of(r.children), n)) && idle_entry(
        entry(dir_of(a.children), n),
    ) by {
        lemma_entry(s, n);
        lemma_entry(t, n);
        if !in_prefix(s.children, n, sl) {
            lemma_prefix_all(s.children, n);
        }
        if entry(s, n) is Some {
            let j = crate::pruning::lemma_name_present(s.children, n);
            lemma_entry_child(s, j);
            match s.children[j].1 {
                NodeView::Dir(sd) => {
                    if entry(t, n) is Some && entry(t, n)->Some_0 is Dir {
                        assert(unique_names(sd));
                        lemma_soft_fixed_quiet(sd, entry(t, n)->Some_0->Dir_0, mixed);
                    }
                },
                NodeView::File(_) => {},
            }
        }
    }
    assert(forall|n: Seq<char>| idle_entry(#[trigger] entry(dir_of(r.children), n)));
    assert(forall|n: Seq<char>| idle_entry(#[trigger] entry(dir_of(a.children), n)));
    lemma_quiet_by_name(r.children);
    lemma_quiet_by_name(a.children);
}

/// No operation at all is planned from a diff whose two trees are quiet.
proof fn lemma_idle_plans(a: DirView, r: DirView)
    requires
        quiet(a),
        quiet(r),
    ensures
        remove_ops(r) == Seq::<OpView>::empty(),
        apply_ops(a) == Seq::<OpView>::empty(),
{
    let empty = Seq::<Seq<char>>::empty();
    lemma_quiet_no_ops(r.children, empty);
    lemma_quiet_no_adds(a.children, empty, None, 0);
    assert(remove_ops(r) == rem_children_ops(r.children, empty));
    assert(apply_ops(a) == add_children_ops(a.children, empty, None, 0));
}

proof fn lemma_sourced_entire(sd: DirView)
    requires
        unique_names(sd),
    ensures
        sourced(entire_dir(sd, true).children, sd),
    decreases sd,
{
    let cs = entire_dir(sd, true).children;
    assert forall|i: int| 0 <= i < cs.len() implies match (#[trigger] cs[i]).1 {
        NodeView::File(f) => entry(sd, cs[i].0) == Some(NodeView::File(f)),
        NodeView::Dir(x) => entry(sd, cs[i].0) is Some && entry(sd, cs[i].0)->Some_0 is Dir && sourced(
            x.children,
            entry(sd, cs[i].0)->Some_0->Dir_0,
        ),
    } by {
        assert(cs[i] == (sd.children[i].0, entire_node(sd.children[i].1, true)));
        lemma_entry_child(sd, i);
        match sd.children[i].1 {
            NodeView::Dir(x) => {
                assert(unique_names(x));
                lemma_sourced_entire(x);
            },
            NodeView::File(_) => {},
        }
    }
}

/// A children sequence whose entries, name by name, are sourced from `s`.
proof fn lemma_sourced_by_name(cs: Children, s: DirView)
    requires
        distinct_names(cs),
        forall|n: Seq<char>|
            #[trigger] entry(dir_of(cs), n) is Some ==> sourced(seq![(n, entry(dir_of(cs), n)->Some_0)], s),
    ensures
        sourced(cs, s),
{
    assert forall|i: int| 0 <= i < cs.len() implies match (#[trigger] cs[i]).1 {
        NodeView::File(f) => entry(s, cs[i].0) == Some(NodeView::File(f)),
        NodeView::Dir(x) => entry(s, cs[i].0) is Some && entry(s, cs[i].0)->Some_0 is Dir && sourced(
            x.children,
            entry(s, cs[i].0)->Some_0->Dir_0,
        ),
    } by {
        lemma_entry_at(cs, i);
        let one = seq![(cs[i].0, cs[i].1)];
        assert(sourced(one, s));
        assert(one[0] == cs[i]);
    }
}

proof fn lemma_hard_sourced(s: DirView, d: DirView)
    requires
        unique_names(s),
        unique_names(d),
    ensures
        sourced(hard_diff(s, d).0.children, s),
    decreases s,
{
    lemma_hard_trees(s, d);
    let a = hard_diff(s, d).0;
    assert forall|n: Seq<char>| #[trigger] entry(dir_of(a.children), n) is Some implies sourced(
        seq![(n, entry(dir_of(a.children), n)->Some_0)],
        s,
    ) by {
        let node = entry(dir_of(a.children), n)->Some_0;
        let one = seq![(n, node)];
        assert(one[0] == (n, node));
        lemma_entry(s, n);
        lemma_entry(d, n);
        let j = crate::pruning::lemma_name_present(s.children, n);
        lemma_entry_child(s, j);
        match s.children[j].1 {
            NodeView::Dir(sd) => {
                assert(unique_names(sd));
                lemma_sourced_entire(sd);
                match entry(d, n) {
                    Some(NodeView::Dir(dd)) => {
                        lemma_hard_sourced(sd, dd);
                    },
                    _ => {},
                }
            },
            NodeView::File(_) => {},
        }
    }
    lemma_sourced_by_name(a.children, s);
}

proof fn lemma_soft_sourced(s: DirView, d: DirView, mixed: bool)
    requires
        unique_names(s),
        unique_names(d),
    ensures
        sourced(soft_diff(s, d, mixed).0.children, s),
    decreases s,
{
    let a = soft_diff(s, d, mixed).0;
    let sl = s.children.len() as int;
    lemma_soft_pass(s, d, mixed, sl);
    assert(s.children.subrange(0, sl) =~= s.children);
    assert forall|n: Seq<char>| #[trigger] entry(dir_of(a.children), n) is Some implies sourced(
        seq![(n, entry(dir_of(a.children), n)->Some_0)],
        s,
    ) by {
        let node = entry(dir_of(a.children), n)->Some_0;
        let one = seq![(n, node)];
        assert(one[0] == (n, node));
        lemma_entry(s, n);
        lemma_entry(d, n);
        if !in_prefix(s.children, n, sl) {
            lemma_prefix_all(s.children, n);
        }
        let j = crate::pruning::lemma_name_present(s.children, n);
        lemma_entry_child(s, j);
        match s.children[j].1 {
            NodeView::Dir(sd) => {
                assert(unique_names(sd));
                lemma_sourced_entire(sd);
                match entry(d, n) {
                    Some(NodeView::Dir(dd)) => {
                        lemma_soft_sourced(sd, dd, mixed);
                    },
                    _ => {},
                }
            },
            NodeView::File(_) => {},
        }
    }
    lemma_sourced_by_name(a.children, s);
}

proof fn lemma_update_sourced(s: DirView, d: DirView)
    requires
        unique_names(s),
        unique_names(d),
    ensures
        sourced(update_diff(s, d).children, s),
    decreases s,
{
    let a = update_diff(s, d);
    let dl = d.children.len() as int;
    lemma_update_pass(s, d, dl);
    assert(d.children.subrange(0, dl) =~= d.children);
    assert forall|n: Seq<char>| #[trigger] entry(dir_of(a.children), n) is Some implies sourced(
        seq![(n, entry(dir_of(a.children), n)->Some_0)],
        s,
    ) by {
        let node = entry(dir_of(a.children), n)->Some_0;
        let one = seq![(n, node)];
        assert(one[0] == (n, node));
        lemma_entry(s, n);
        lemma_entry(d, n);
        if !in_prefix(d.children, n, dl) {
            lemma_prefix_all(d.children, n);
        }
        if entry(s, n) is Some {
            let j = crate::pruning::lemma_name_present(s.children, n);
            lemma_entry_child(s, j);
            match s.children[j].1 {
                NodeView::Dir(sd) => {
                    assert(unique_names(sd));
                    match entry(d, n) {
                        Some(NodeView::Dir(dd)) => {
                            lemma_update_sourced(sd, dd);
                        },
                        _ => {},
                    }
                },
                NodeView::File(_) => {},
            }
        }
    }
    lemma_sourced_by_name(a.children, s);
}

/// The destination's filesystem after a sync in `mode`: its planned removals
/// carried out in order, then its planned creations and copies, each succeeding or
/// failing as the filesystem then allows, with the source's filesystem to copy from.
pub open spec fn executed(src: DirView, dest: DirView, mode: SyncMode, now: u128) -> Fs {
    let diff = sync_diff(src, dest, mode);
    let removed = run_ops(flat(dest), flat(src), now, remove_ops(diff.1), Seq::empty()).0;
    run_ops(removed, flat(src), now, apply_ops(diff.0), Seq::empty()).0
}

/// Carrying out a sync's planned operations on the destination's filesystem gives
/// exactly the filesystem of the tree that the removal and addition walks produce.
pub proof fn plans_carry_out_walks(src: DirView, dest: DirView, mode: SyncMode, now: u128)
    requires
        unique_names(src),
        unique_names(dest),
    ensures
        executed(src, dest, mode, now) == flat(synced(src, dest, mode, now)),
{
    let diff = sync_diff(src, dest, mode);
    let (a, r) = diff;
    let empty = Seq::<Seq<char>>::empty();
    lemma_flat(dest);
    lemma_flat(src);
    assert(!r.entirety);
    assert(!a.entirety);
    assert(remove_ops(r) == rem_children_ops(r.children, empty));
    assert(apply_ops(a) == add_children_ops(a.children, empty, None, 0));
    let sm = flat(src);
    lemma_run_rem(flat(dest), sm, now, dest, r.children, empty, Seq::empty());
    let m1 = run_ops(flat(dest), sm, now, remove_ops(r), Seq::empty()).0;
    let u1 = rem_apply(dest, r.children);
    lemma_rem_unique(dest, r.children);
    match mode {
        SyncMode::Hard => lemma_hard_sourced(src, dest),
        SyncMode::Update => lemma_update_sourced(src, dest),
        SyncMode::Soft => lemma_soft_sourced(src, dest, false),
        SyncMode::Mixed => lemma_soft_sourced(src, dest, true),
    }
    assert(Seq::<bool>::empty().len() == 0);
    lemma_run_add(m1, sm, now, u1, src, a.children, empty, None, Seq::empty());
    let m2 = run_ops(m1, sm, now, apply_ops(a), Seq::empty()).0;
    let t = synced(src, dest, mode, now);
    assert(t == add_apply(u1, a.children, now));
    assert forall|q: Seq<Seq<char>>| #[trigger] m2.contains_key(q) == flat(t).contains_key(q) && (m2.contains_key(q)
        ==> m2[q] == flat(t)[q]) by {
        if q.len() >= 1 {
            assert(empty + q =~= q);
            assert(get(m2, empty + q) == kind_at(t, q));
        } else {
            assert(kind_at(t, q) is None);
        }
    }
    assert(m2 =~= flat(t));
}

/// Mirroring, read on the filesystems of the two trees.
proof fn lemma_mirrors_kinds(t: DirView, s: DirView, p: Seq<Seq<char>>)
    requires
        unique_names(s),
        mirrors(t, s),
        p.len() >= 1,
    ensures
        (kind_at(t, p) == Some(Kind::Dir)) <==> (kind_at(s, p) == Some(Kind::Dir)),
        (kind_at(t, p) is Some && kind_at(t, p)->Some_0 is File) <==> (kind_at(s, p) is Some
            && kind_at(s, p)->Some_0 is File),
        kind_at(s, p) is Some && kind_at(s, p)->Some_0 is File ==> !differs(
            kind_at(s, p)->Some_0->File_0,
            kind_at(t, p)->Some_0->File_0,
        ),
    decreases p.len(),
{
    let n = p[0];
    lemma_entry(s, n);
    lemma_entry(t, n);
    if entry(t, n) is Some || entry(s, n) is Some {
        let j = lemma_mirror_entry(t, s, n);
        if p.len() > 1 {
            match s.children[j].1 {
                NodeView::Dir(sd) => {
                    let td = entry(t, n)->Some_0->Dir_0;
                    assert(unique_names(sd));
                    lemma_mirrors_kinds(td, sd, p.drop_first());
                },
                NodeView::File(_) => {},
            }
        }
    }
}

/// Hard converges on disk: once its planned removals, creations and copies are
/// carried out, the destination holds a directory exactly at the paths where the
/// source holds one, and a file exactly where the source holds one, each such file
/// with the source's size and not older, provided the trees' directories hold
/// distinct names and the copies are stamped no earlier than the source's files.
pub proof fn hard_converges_on_disk(src: DirView, dest: DirView, now: u128)
    requires
        unique_names(src),
        unique_names(dest),
        dated_by(src, now),
    ensures
        forall|p: Seq<Seq<char>>|
            #![trigger get(executed(src, dest, SyncMode::Hard, now), p)]
            {
                let e = executed(src, dest, SyncMode::Hard, now);
                let sm = flat(src);
                &&& (get(e, p) == Some(Kind::Dir) <==> get(sm, p) == Some(Kind::Dir))
                &&& (get(e, p) is Some && get(e, p)->Some_0 is File) <==> (get(sm, p) is Some
                    && get(sm, p)->Some_0 is File)
                &&& (get(sm, p) is Some && get(sm, p)->Some_0 is File ==> !differs(
                    get(sm, p)->Some_0->File_0,
                    get(e, p)->Some_0->File_0,
                ))
            },
{
    plans_carry_out_walks(src, dest, SyncMode::Hard, now);
    lemma_hard_mirrors(src, dest, now);
    let t = synced(src, dest, SyncMode::Hard, now);
    assert forall|p: Seq<Seq<char>>| #![trigger get(executed(src, dest, SyncMode::Hard, now), p)] {
        let e = executed(src, dest, SyncMode::Hard, now);
        let sm = flat(src);
        &&& (get(e, p) == Some(Kind::Dir) <==> get(sm, p) == Some(Kind::Dir))
        &&& (get(e, p) is Some && get(e, p)->Some_0 is File) <==> (get(sm, p) is Some && get(
            sm,
            p,
        )->Some_0 is File)
        &&& (get(sm, p) is Some && get(sm, p)->Some_0 is File ==> !differs(
            get(sm, p)->Some_0->File_0,
            get(e, p)->Some_0->File_0,
        ))
    } by {
        if p.len() >= 1 {
            lemma_mirrors_kinds(t, src, p);
        } else {
            assert(kind_at(t, p) is None && kind_at(src, p) is None);
        }
    }
}

/// Two trees that describe the same filesystem.
pub open spec fn same_kinds(a: DirView, b: DirView) -> bool {
    forall|q: Seq<Seq<char>>| #[trigger] kind_at(a, q) == kind_at(b, q)
}

/// Trees that describe the same filesystem agree name by name: the same files, and
/// directories that again describe the same filesystem.
proof fn lemma_same_kinds_entry(a: DirView, b: DirView, n: Seq<char>)
    requires
        unique_names(a),
        unique_names(b),
        same_kinds(a, b),
    ensures
        entry(a, n) is None <==> entry(b, n) is None,
        entry(a, n) is Some && entry(a, n)->Some_0 is File ==> entry(b, n) == entry(a, n),
        entry(a, n) is Some && entry(a, n)->Some_0 is Dir ==> entry(b, n) is Some && entry(b, n)->Some_0 is Dir
            && same_kinds(entry(a, n)->Some_0->Dir_0, entry(b, n)->Some_0->Dir_0),
{
    lemma_entry(a, n);
    lemma_entry(b, n);
    assert(kind_at(a, seq![n]) == kind_at(b, seq![n]));
    if entry(a, n) is Some && entry(a, n)->Some_0 is Dir {
        let da = entry(a, n)->Some_0->Dir_0;
        let db = entry(b, n)->Some_0->Dir_0;
        assert forall|q: Seq<Seq<char>>| #[trigger] kind_at(da, q) == kind_at(db, q) by {
            if q.len() >= 1 {
                let q2 = seq![n] + q;
                assert(q2.drop_first() =~= q);
                assert(q2[0] == n);
                assert(kind_at(a, q2) == kind_at(b, q2));
            }
        }
    }
}

proof fn lemma_flat_same(a: DirView, b: DirView)
    requires
        flat(a) == flat(b),
    ensures
        same_kinds(a, b),
{
    assert forall|q: Seq<Seq<char>>| #[trigger] kind_at(a, q) == kind_at(b, q) by {
        assert(flat(a).dom().contains(q) == (kind_at(a, q) is Some));
        assert(flat(b).dom().contains(q) == (kind_at(b, q) is Some));
        if kind_at(a, q) is Some {
            assert(flat(a)[q] == kind_at(a, q)->Some_0);
            assert(flat(b)[q] == kind_at(b, q)->Some_0);
        }
    }
}

proof fn lemma_mirrors_transfer(t: DirView, t2: DirView, s: DirView)
    requires
        unique_names(s),
        unique_names(t2),
        mirrors(t, s),
        same_kinds(t, t2),
    ensures
        mirrors(t2, s),
    decreases s,
{
    assert forall|n: Seq<char>| entry(s, n) is None implies entry(t2, n) is None by {
        lemma_same_kinds_entry(t, t2, n);
    }
    assert forall|i: int| 0 <= i < s.children.len() implies mirrors_child(
        entry(t2, (#[trigger] s.children[i]).0),
        s.children[i].1,
    ) by {
        let n = s.children[i].0;
        lemma_same_kinds_entry(t, t2, n);
        assert(mirrors_child(entry(t, n), s.children[i].1));
        match s.children[i].1 {
            NodeView::Dir(sd) => {
                assert(unique_names(sd));
                lemma_entry(t2, n);
                lemma_mirrors_transfer(entry(t, n)->Some_0->Dir_0, entry(t2, n)->Some_0->Dir_0, sd);
            },
            NodeView::File(_) => {},
        }
    }
}

proof fn lemma_update_transfer(t: DirView, t2: DirView, s: DirView)
    requires
        unique_names(t2),
        update_fixed(t, s),
        same_kinds(t, t2),
    ensures
        update_fixed(t2, s),
    decreases t2,
{
    assert forall|i: int| 0 <= i < t2.children.len() implies {
        &&& ((#[trigger] t2.children[i]).1 is File && lookup_file(s, t2.children[i].0) is Some
            ==> !differs(lookup_file(s, t2.children[i].0)->Some_0, t2.children[i].1->File_0))
        &&& (t2.children[i].1 is Dir && lookup_dir(s, t2.children[i].0) is Some ==> update_fixed(
            t2.children[i].1->Dir_0,
            lookup_dir(s, t2.children[i].0)->Some_0,
        ))
    } by {
        let n = t2.children[i].0;
        lemma_entry_child(t2, i);
        lemma_same_kinds_entry(t2, t, n);
        lemma_same_kinds_sym(t, t2);
        let j = crate::pruning::lemma_name_present(t.children, n);
        lemma_entry_child(t, j);
        lemma_entry(t, n);
        match t2.children[i].1 {
            NodeView::Dir(td2) => {
                if lookup_dir(s, n) is Some {
                    let td = t.children[j].1->Dir_0;
                    lemma_same_kinds_sym(td2, td);
                    lemma_update_transfer(td, td2, lookup_dir(s, n)->Some_0);
                }
            },
            NodeView::File(_) => {},
        }
    }
}

proof fn lemma_same_kinds_sym(a: DirView, b: DirView)
    requires
        same_kinds(a, b),
    ensures
        same_kinds(b, a),
{
}

proof fn lemma_soft_transfer(t: DirView, t2: DirView, s: DirView, mixed: bool)
    requires
        unique_names(s),
        unique_names(t2),
        soft_fixed(t, s, mixed),
        same_kinds(t, t2),
    ensures
        soft_fixed(t2, s, mixed),
    decreases s,
{
    assert forall|i: int| 0 <= i < s.children.len() implies {
        let e = entry(t2, (#[trigger] s.children[i]).0);
        match s.children[i].1 {
            NodeView::File(sf) => (e is Some && e->Some_0 is File && !differs(sf, e->Some_0->File_0))
                || (!mixed && e is Some && e->Some_0 is Dir),
            NodeView::Dir(sd) => (e is Some && e->Some_0 is Dir && soft_fixed(
                e->Some_0->Dir_0,
                sd,
                mixed,
            )) || (!mixed && e is Some && e->Some_0 is File),
        }
    } by {
        let n = s.children[i].0;
        lemma_same_kinds_entry(t, t2, n);
        lemma_entry(t, n);
        lemma_entry(t2, n);
        lemma_same_kinds_sym(t, t2);
        lemma_same_kinds_entry(t2, t, n);
        match s.children[i].1 {
            NodeView::Dir(sd) => {
                let e = entry(t, n);
                if e is Some && e->Some_0 is Dir && soft_fixed(e->Some_0->Dir_0, sd, mixed) {
                    assert(unique_names(sd));
                    lemma_soft_transfer(e->Some_0->Dir_0, entry(t2, n)->Some_0->Dir_0, sd, mixed);
                }
            },
            NodeView::File(_) => {},
        }
    }
}

/// A sync is idempotent on disk, in every mode: rescan the destination after a first
/// sync, as any tree with distinct names that describes what the first sync left,
/// and sync again; the second sync plans no operation and leaves the destination
/// exactly as the first left it. This holds provided the first sync's copies are
/// stamped no earlier than the source's files, and the trees' directories hold
/// distinct names.
pub proof fn sync_idempotent_on_disk(
    src: DirView,
    dest: DirView,
    rescan: DirView,
    mode: SyncMode,
    now: u128,
    later: u128,
)
    requires
        unique_names(src),
        unique_names(dest),
        unique_names(rescan),
        dated_by(src, now),
        flat(rescan) == executed(src, dest, mode, now),
    ensures
        remove_ops(sync_diff(src, rescan, mode).1) == Seq::<OpView>::empty(),
        apply_ops(sync_diff(src, rescan, mode).0) == Seq::<OpView>::empty(),
        executed(src, rescan, mode, later) == executed(src, dest, mode, now),
{
    let t = synced(src, dest, mode, now);
    plans_carry_out_walks(src, dest, mode, now);
    lemma_flat_same(t, rescan);
    match mode {
        SyncMode::Hard => {
            lemma_hard_mirrors(src, dest, now);
            lemma_mirrors_transfer(t, rescan, src);
            lemma_mirror_quiet(src, rescan);
        },
        SyncMode::Update => {
            lemma_update_first(src, dest, now);
            lemma_update_transfer(t, rescan, src);
            lemma_update_fixed_quiet(src, rescan);
            assert(quiet(empty_dir()));
        },
        SyncMode::Soft => {
            lemma_soft_first(src, dest, false, now);
            lemma_soft_transfer(t, rescan, src, false);
            lemma_soft_fixed_quiet(src, rescan, false);
        },
        SyncMode::Mixed => {
            lemma_soft_first(src, dest, true, now);
            lemma_soft_transfer(t, rescan, src, true);
            lemma_soft_fixed_quiet(src, rescan, true);
        },
    }
    lemma_idle_plans(sync_diff(src, rescan, mode).0, sync_diff(src, rescan, mode).1);
    let sm = flat(src);
    let m0 = flat(rescan);
    assert(run_ops(m0, sm, later, Seq::<OpView>::empty(), Seq::empty()).0 == m0);
}

} // verus!
