use vstd::prelude::*;
use vstd::string::StrSliceExecFns;

verus! {

/// The views of a sequence of strings.
pub open spec fn names(p: Seq<String>) -> Seq<Seq<char>> {
    p.map_values(|s: String| s@)
}

/// The pieces of `s` between occurrences of `sep`, empty pieces included; there is
/// one piece more than there are separators.
pub open spec fn pieces(s: Seq<char>, sep: char) -> Seq<Seq<char>>
    decreases s.len(),
{
    if s.len() == 0 {
        seq![Seq::empty()]
    } else {
        let p = pieces(s.drop_last(), sep);
        if s.last() == sep {
            p.push(Seq::empty())
        } else {
            p.update(p.len() - 1, p.last().push(s.last()))
        }
    }
}

/// Whether the piece at position `k` names a component: it is not empty, and it is
/// not a `.` after the first position.
pub open spec fn is_component(k: int, g: Seq<char>) -> bool {
    g.len() > 0 && !(g == seq!['.'] && k > 0)
}

/// The pieces of `segs` that name components, in order.
pub open spec fn kept_segments(segs: Seq<Seq<char>>) -> Seq<Seq<char>>
    decreases segs.len(),
{
    if segs.len() == 0 {
        Seq::empty()
    } else {
        let p = kept_segments(segs.drop_last());
        if is_component(segs.len() - 1, segs.last()) {
            p.push(segs.last())
        } else {
            p
        }
    }
}

/// `/` as the first component where the path starts at the root.
pub open spec fn root_of(s: Seq<char>) -> Seq<Seq<char>> {
    if s.len() > 0 && s[0] == '/' {
        seq![seq!['/']]
    } else {
        Seq::empty()
    }
}

/// The components of a path: the root where it starts with `/`, then its names;
/// repeated separators and `.` after the start are left out.
pub open spec fn components(s: Seq<char>) -> Seq<Seq<char>> {
    root_of(s) + kept_segments(pieces(s, '/'))
}

pub proof fn lemma_pieces_nonempty(s: Seq<char>, sep: char)
    ensures
        pieces(s, sep).len() >= 1,
    decreases s.len(),
{
    if s.len() > 0 {
        lemma_pieces_nonempty(s.drop_last(), sep);
    }
}

proof fn lemma_dot_piece(s: Seq<char>, a: int, b: int)
    requires
        0 <= a <= b <= s.len(),
    ensures
        (s.subrange(a, b) == seq!['.']) <==> (b - a == 1 && s[a] == '.'),
{
    let g = s.subrange(a, b);
    if b - a == 1 {
        assert(g[0] == s[a]);
        if s[a] == '.' {
            assert(g =~= seq!['.']);
        } else {
            assert(g[0] != seq!['.'][0]);
        }
    } else {
        assert(g.len() != seq!['.'].len());
    }
}

/// Splits a path into its components.
pub fn path_components(s: &str) -> (r: Vec<String>)
    ensures
        names(r@) == components(s@),
{
    let len = s.unicode_len();
    let mut r: Vec<String> = Vec::new();
    if len > 0 && s.get_char(0) == '/' {
        let root = "/".to_owned();
        proof {
            reveal_strlit("/");
            assert(root@ =~= seq!['/']);
        }
        r.push(root);
        assert(names(r@) =~= root_of(s@));
    } else {
        assert(names(r@) =~= root_of(s@));
    }
    let ghost mut closed: Seq<Seq<char>> = Seq::empty();
    let mut start: usize = 0;
    let mut i: usize = 0;
    let mut k: usize = 0;
    assert(s@.subrange(0, 0) =~= Seq::<char>::empty());
    assert(pieces(s@.subrange(0, 0), '/') =~= closed.push(s@.subrange(0, 0)));
    while i < len
        invariant
            len == s@.len(),
            start <= i <= len,
            k <= i,
            k == closed.len(),
            pieces(s@.subrange(0, i as int), '/') == closed.push(s@.subrange(start as int, i as int)),
            names(r@) == root_of(s@) + kept_segments(closed),
        decreases len - i,
    {
        let c = s.get_char(i);
        let ghost prefix = s@.subrange(0, i as int);
        let ghost next = s@.subrange(0, i + 1);
        assert(next.drop_last() =~= prefix);
        assert(next.last() == c);
        if c == '/' {
            let ghost g = s@.subrange(start as int, i as int);
            let keep = i > start && !(k > 0 && i - start == 1 && s.get_char(start) == '.');
            assert(keep == is_component(k as int, g)) by {
                lemma_dot_piece(s@, start as int, i as int);
            }
            if keep {
                let piece = s.substring_char(start, i).to_owned();
                assert(piece@ == g);
                let ghost r0 = r@;
                r.push(piece);
                assert(names(r@) =~= names(r0).push(g));
            }
            proof {
                let c2 = closed.push(g);
                assert(c2.drop_last() =~= closed);
                if keep {
                    assert(names(r@) =~= root_of(s@) + kept_segments(c2));
                } else {
                    assert(names(r@) =~= root_of(s@) + kept_segments(c2));
                }
                closed = c2;
                assert(s@.subrange(i + 1, i + 1) =~= Seq::<char>::empty());
                assert(pieces(next, '/') =~= closed.push(s@.subrange(i + 1, i + 1)));
            }
            k = k + 1;
            start = i + 1;
        } else {
            proof {
                lemma_pieces_nonempty(prefix, '/');
                assert(s@.subrange(start as int, i + 1) =~= s@.subrange(start as int, i as int).push(c));
                assert(pieces(next, '/') =~= closed.push(s@.subrange(start as int, i + 1)));
            }
        }
        i = i + 1;
    }
    assert(s@.subrange(0, len as int) =~= s@);
    let ghost g = s@.subrange(start as int, len as int);
    let keep = len > start && !(k > 0 && len - start == 1 && s.get_char(start) == '.');
    assert(keep == is_component(k as int, g)) by {
        lemma_dot_piece(s@, start as int, len as int);
    }
    if keep {
        let piece = s.substring_char(start, len).to_owned();
        assert(piece@ == g);
        let ghost r0 = r@;
        r.push(piece);
        assert(names(r@) =~= names(r0).push(g));
    }
    proof {
        let c2 = closed.push(g);
        assert(c2.drop_last() =~= closed);
        assert(names(r@) =~= root_of(s@) + kept_segments(c2));
    }
    r
}

} // verus!
