use vstd::prelude::*;
use crate::ignore::{ignore_entries, ignore_entry, ignored};
use crate::path::{components, is_component, kept_segments, lemma_pieces_nonempty, pieces};
use crate::ftree::{
    dir_at, distinct_names, file_at, find_dir, find_file, find_name, lemma_find_dir_unique,
    lemma_find_file_unique, lookup_dir, lookup_file, removed, removed_last, unique_names,
    with_child, without_child, Children, DirView, NodeView,
};

verus! {

pub proof fn lemma_find_absent(cs: Children, n: Seq<char>, k: int)
    requires
        0 <= k,
        forall|j: int| k <= j < cs.len() ==> (#[trigger] cs[j]).0 != n,
    ensures
        find_dir(cs, n, k) is None,
        find_file(cs, n, k) is None,
        find_name(cs, n, k) is None,
    decreases cs.len() - k,
{
    if k < cs.len() {
        lemma_find_absent(cs, n, k + 1);
    }
}

proof fn lemma_find_name_unique(cs: Children, i: int, k: int)
    requires
        distinct_names(cs),
        0 <= k <= i < cs.len(),
    ensures
        find_name(cs, cs[i].0, k) == Some(i),
    decreases i - k,
{
    if k < i {
        lemma_find_name_unique(cs, i, k + 1);
    }
}

/// In a directory with distinct names, what the lookups of the name of child `j`
/// give.
pub proof fn lemma_lookup_at(cs: Children, j: int)
    requires
        distinct_names(cs),
        0 <= j < cs.len(),
    ensures
        find_dir(cs, cs[j].0, 0) == (if cs[j].1 is Dir {
            Some(cs[j].1->Dir_0)
        } else {
            None
        }),
        find_file(cs, cs[j].0, 0) == (if cs[j].1 is File {
            Some(cs[j].1->File_0)
        } else {
            None
        }),
        find_name(cs, cs[j].0, 0) == Some(j),
{
    lemma_find_name_unique(cs, j, 0);
    if cs[j].1 is Dir {
        lemma_find_dir_unique(cs, j, 0);
        lemma_find_file_skip(cs, j, 0);
    } else {
        lemma_find_file_unique(cs, j, 0);
        lemma_find_dir_skip(cs, j, 0);
    }
}

proof fn lemma_find_file_skip(cs: Children, j: int, k: int)
    requires
        distinct_names(cs),
        0 <= k,
        0 <= j < cs.len(),
        cs[j].1 is Dir,
    ensures
        find_file(cs, cs[j].0, k) is None,
    decreases cs.len() - k,
{
    if k < cs.len() {
        lemma_find_file_skip(cs, j, k + 1);
    }
}

proof fn lemma_find_dir_skip(cs: Children, j: int, k: int)
    requires
        distinct_names(cs),
        0 <= k,
        0 <= j < cs.len(),
        cs[j].1 is File,
    ensures
        find_dir(cs, cs[j].0, k) is None,
    decreases cs.len() - k,
{
    if k < cs.len() {
        lemma_find_dir_skip(cs, j, k + 1);
    }
}

/// Taking child `i` out of a directory with distinct names keeps the names distinct,
/// leaves nothing under its name, and changes no lookup of another name.
pub proof fn lemma_without(d: DirView, i: int)
    requires
        unique_names(d),
        0 <= i < d.children.len(),
    ensures
        unique_names(without_child(d, i)),
        lookup_dir(without_child(d, i), d.children[i].0) is None,
        lookup_file(without_child(d, i), d.children[i].0) is None,
        forall|j: int|
            0 <= j < without_child(d, i).children.len() ==> (#[trigger] without_child(
                d,
                i,
            ).children[j]).0 != d.children[i].0,
        forall|n: Seq<char>|
            n != d.children[i].0 ==> lookup_dir(without_child(d, i), n) == lookup_dir(d, n)
                && lookup_file(without_child(d, i), n) == lookup_file(d, n),
{
    let cs = d.children;
    let c2 = cs.remove(i);
    let v = without_child(d, i);
    assert(v.children == c2);
    assert forall|a: int, b: int| 0 <= a < b < c2.len() implies c2[a].0 != c2[b].0 by {
        let a0 = if a < i { a } else { a + 1 };
        let b0 = if b < i { b } else { b + 1 };
        assert(c2[a] == cs[a0]);
        assert(c2[b] == cs[b0]);
    }
    assert forall|j: int| 0 <= j < c2.len() && (#[trigger] c2[j]).1 is Dir implies unique_names(
        c2[j].1->Dir_0,
    ) by {
        let j0 = if j < i { j } else { j + 1 };
        assert(c2[j] == cs[j0]);
    }
    assert(unique_names(v));
    assert forall|j: int| 0 <= j < c2.len() implies (#[trigger] c2[j]).0 != cs[i].0 by {
        let j0 = if j < i { j } else { j + 1 };
        assert(c2[j] == cs[j0]);
    }
    lemma_find_absent(c2, cs[i].0, 0);
    assert forall|n: Seq<char>| n != cs[i].0 implies lookup_dir(v, n) == lookup_dir(d, n)
        && lookup_file(v, n) == lookup_file(d, n) by {
        if exists|j: int| 0 <= j < cs.len() && (#[trigger] cs[j]).0 == n {
            let j = choose|j: int| 0 <= j < cs.len() && (#[trigger] cs[j]).0 == n;
            let j2 = if j < i { j } else { j - 1 };
            assert(c2[j2] == cs[j]);
            lemma_lookup_at(cs, j);
            lemma_lookup_at(c2, j2);
        } else {
            lemma_find_absent(cs, n, 0);
            assert forall|j: int| 0 <= j < c2.len() implies (#[trigger] c2[j]).0 != n by {
                let j0 = if j < i { j } else { j + 1 };
                assert(c2[j] == cs[j0]);
            }
            lemma_find_absent(c2, n, 0);
        }
    }
}

/// Adding a directory under a name that `d` lacks.
proof fn lemma_with_dir(d: DirView, n: Seq<char>, x: DirView)
    requires
        unique_names(d),
        unique_names(x),
        lookup_dir(d, n) is None,
        lookup_file(d, n) is None,
        forall|j: int| 0 <= j < d.children.len() ==> (#[trigger] d.children[j]).0 != n,
    ensures
        unique_names(with_child(d, n, NodeView::Dir(x))),
        lookup_dir(with_child(d, n, NodeView::Dir(x)), n) == Some(x),
        lookup_file(with_child(d, n, NodeView::Dir(x)), n) is None,
        forall|m: Seq<char>|
            m != n ==> lookup_dir(with_child(d, n, NodeView::Dir(x)), m) == lookup_dir(d, m)
                && lookup_file(with_child(d, n, NodeView::Dir(x)), m) == lookup_file(d, m),
{
    let cs = d.children;
    let c2 = cs.push((n, NodeView::Dir(x)));
    let v = with_child(d, n, NodeView::Dir(x));
    assert(v.children == c2);
    assert forall|a: int, b: int| 0 <= a < b < c2.len() implies c2[a].0 != c2[b].0 by {
        assert(c2[a] == cs[a]);
        if b < cs.len() {
            assert(c2[b] == cs[b]);
        }
    }
    assert forall|j: int| 0 <= j < c2.len() && (#[trigger] c2[j]).1 is Dir implies unique_names(
        c2[j].1->Dir_0,
    ) by {
        if j < cs.len() {
            assert(c2[j] == cs[j]);
        }
    }
    assert(unique_names(v));
    lemma_lookup_at(c2, cs.len() as int);
    assert forall|m: Seq<char>| m != n implies lookup_dir(v, m) == lookup_dir(d, m) && lookup_file(
        v,
        m,
    ) == lookup_file(d, m) by {
        if exists|j: int| 0 <= j < cs.len() && (#[trigger] cs[j]).0 == m {
            let j = choose|j: int| 0 <= j < cs.len() && (#[trigger] cs[j]).0 == m;
            assert(c2[j] == cs[j]);
            lemma_lookup_at(cs, j);
            lemma_lookup_at(c2, j);
        } else {
            lemma_find_absent(cs, m, 0);
            assert forall|j: int| 0 <= j < c2.len() implies (#[trigger] c2[j]).0 != m by {
                if j < cs.len() {
                    assert(c2[j] == cs[j]);
                }
            }
            lemma_find_absent(c2, m, 0);
        }
    }
}

pub proof fn lemma_name_present(cs: Children, n: Seq<char>) -> (j: int)
    requires
        find_dir(cs, n, 0) is Some || find_file(cs, n, 0) is Some,
    ensures
        0 <= j < cs.len(),
        cs[j].0 == n,
{
    if exists|j: int| 0 <= j < cs.len() && (#[trigger] cs[j]).0 == n {
        choose|j: int| 0 <= j < cs.len() && (#[trigger] cs[j]).0 == n
    } else {
        lemma_find_absent(cs, n, 0);
        0
    }
}

proof fn lemma_removed_last(d: DirView, name: Seq<char>, isdir: bool)
    requires
        unique_names(d),
    ensures
        unique_names(removed_last(d, name, isdir)),
        lookup_dir(removed_last(d, name, isdir), name) is None,
        !isdir ==> lookup_file(removed_last(d, name, isdir), name) is None,
        lookup_file(removed_last(d, name, isdir), name) is None || lookup_file(
            removed_last(d, name, isdir),
            name,
        ) == lookup_file(d, name),
        forall|m: Seq<char>|
            m != name ==> lookup_dir(removed_last(d, name, isdir), m) == lookup_dir(d, m)
                && lookup_file(removed_last(d, name, isdir), m) == lookup_file(d, m),
{
    let cs = d.children;
    if exists|j: int| 0 <= j < cs.len() && (#[trigger] cs[j]).0 == name {
        let j = choose|j: int| 0 <= j < cs.len() && (#[trigger] cs[j]).0 == name;
        lemma_lookup_at(cs, j);
        lemma_without(d, j);
    } else {
        lemma_find_absent(cs, name, 0);
    }
}

/// The outcome of a removal by path in a tree with distinct names.
proof fn lemma_removed(d: DirView, q: Seq<Seq<char>>, isdir: bool)
    requires
        unique_names(d),
        q.len() >= 1,
    ensures
        match removed(d, q, isdir) {
            Some(v) => {
                &&& unique_names(v)
                &&& dir_at(v, q) is None
                &&& (!isdir ==> file_at(v, q) is None)
            },
            None => dir_at(d, q) is None && file_at(d, q) is None,
        },
    decreases q.len(),
{
    if q.len() == 1 {
        lemma_removed_last(d, q[0], isdir);
    } else {
        match lookup_dir(d, q[0]) {
            None => {},
            Some(sub) => {
                let cs = d.children;
                let j = lemma_name_present(cs, q[0]);
                lemma_lookup_at(cs, j);
                assert(unique_names(sub));
                lemma_removed(sub, q.drop_first(), isdir);
                match removed(sub, q.drop_first(), isdir) {
                    None => {},
                    Some(sub2) => {
                        lemma_without(d, j);
                        let w = without_child(d, j);
                        lemma_with_dir(w, q[0], sub2);
                    },
                }
            },
        }
    }
}

/// A removal by path takes entries away and brings none: what a tree with distinct
/// names lacks at `r`, it still lacks after the removal.
proof fn lemma_removed_mono(d: DirView, q: Seq<Seq<char>>, isdir: bool, r: Seq<Seq<char>>)
    requires
        unique_names(d),
        q.len() >= 1,
        removed(d, q, isdir) is Some,
    ensures
        dir_at(d, r) is None ==> dir_at(removed(d, q, isdir)->Some_0, r) is None,
        file_at(d, r) is None ==> file_at(removed(d, q, isdir)->Some_0, r) is None,
    decreases q.len(),
{
    let v = removed(d, q, isdir)->Some_0;
    if r.len() > 0 {
        if q.len() == 1 {
            lemma_removed_last(d, q[0], isdir);
        } else {
            let sub = lookup_dir(d, q[0])->Some_0;
            let cs = d.children;
            let j = lemma_name_present(cs, q[0]);
            lemma_lookup_at(cs, j);
            let sub2 = removed(sub, q.drop_first(), isdir)->Some_0;
            lemma_removed(sub, q.drop_first(), isdir);
            lemma_without(d, j);
            let w = without_child(d, j);
            lemma_with_dir(w, q[0], sub2);
            if r[0] == q[0] && r.len() > 1 {
                lemma_removed_mono(sub, q.drop_first(), isdir, r.drop_first());
            }
        }
    }
}

proof fn lemma_first_piece(l: Seq<char>, sep: char)
    requires
        l.len() > 0,
        l[0] != sep,
    ensures
        pieces(l, sep)[0].len() > 0,
    decreases l.len(),
{
    let pre = l.drop_last();
    let p = pieces(pre, sep);
    lemma_pieces_nonempty(pre, sep);
    if l.len() > 1 {
        assert(pre[0] == l[0]);
        lemma_first_piece(pre, sep);
    } else {
        assert(pre =~= Seq::<char>::empty());
        assert(p == seq![Seq::<char>::empty()]);
        assert(l.last() == l[0]);
    }
    if l.last() == sep {
        assert(pieces(l, sep) == p.push(Seq::empty()));
        assert(pieces(l, sep)[0] == p[0]);
    } else {
        assert(pieces(l, sep) == p.update(p.len() - 1, p.last().push(l.last())));
        if p.len() > 1 {
            assert(pieces(l, sep)[0] == p[0]);
        }
    }
}

proof fn lemma_kept_nonempty(segs: Seq<Seq<char>>)
    requires
        segs.len() >= 1,
        segs[0].len() > 0,
    ensures
        kept_segments(segs).len() >= 1,
    decreases segs.len(),
{
    if segs.len() > 1 {
        lemma_kept_nonempty(segs.drop_last());
    } else {
        assert(segs.drop_last() =~= Seq::<Seq<char>>::empty());
        assert(is_component(0, segs[0]));
    }
}

proof fn lemma_components_nonempty(l: Seq<char>)
    requires
        l.len() > 0,
    ensures
        components(l).len() >= 1,
{
    if l[0] != '/' {
        lemma_first_piece(l, '/');
        lemma_pieces_nonempty(l, '/');
        lemma_kept_nonempty(pieces(l, '/'));
    }
}

/// Nothing is found at the path that the ignore entry `l` names: no directory, and
/// no file either unless `l` ends in `/`.
pub open spec fn absent(t: DirView, l: Seq<char>) -> bool {
    &&& dir_at(t, components(l)) is None
    &&& (l.last() != '/' ==> file_at(t, components(l)) is None)
}

proof fn lemma_ignored(d: DirView, ls: Seq<Seq<char>>)
    requires
        unique_names(d),
    ensures
        unique_names(ignored(d, ls)),
        forall|k: int| 0 <= k < ls.len() && (#[trigger] ls[k]).len() > 0 ==> absent(ignored(d, ls), ls[k]),
    decreases ls.len(),
{
    if ls.len() > 0 {
        let pre = ls.drop_last();
        lemma_ignored(d, pre);
        let t = ignored(d, pre);
        let l = ls.last();
        let v = ignored(d, ls);
        assert(v == ignore_entry(t, l));
        if l.len() > 0 {
            let q = components(l);
            let isdir = l.last() == '/';
            lemma_components_nonempty(l);
            lemma_removed(t, q, isdir);
            assert forall|k: int| 0 <= k < ls.len() && (#[trigger] ls[k]).len() > 0 implies absent(
                v,
                ls[k],
            ) by {
                if k < ls.len() - 1 {
                    assert(ls[k] == pre[k]);
                    assert(absent(t, pre[k]));
                    if removed(t, q, isdir) is Some {
                        lemma_removed_mono(t, q, isdir, components(ls[k]));
                    }
                }
            }
        } else {
            assert forall|k: int| 0 <= k < ls.len() && (#[trigger] ls[k]).len() > 0 implies absent(
                v,
                ls[k],
            ) by {
                assert(ls[k] == pre[k]);
            }
        }
    }
}

/// An ignore text is respected: in a tree whose directories hold distinct names,
/// after the text no non-empty entry of it names anything that is still there
/// (a directory, and a file too unless the entry ends in `/`), and the names stay
/// distinct.
pub proof fn ignored_entries_absent(d: DirView, text: Seq<char>)
    requires
        unique_names(d),
    ensures
        unique_names(ignored(d, ignore_entries(text))),
        forall|k: int|
            0 <= k < ignore_entries(text).len() && (#[trigger] ignore_entries(text)[k]).len() > 0
                ==> absent(ignored(d, ignore_entries(text)), ignore_entries(text)[k]),
{
    lemma_ignored(d, ignore_entries(text));
}

} // verus!
