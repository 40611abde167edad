use vstd::prelude::*;
use vstd::string::StrSliceExecFns;
use crate::ftree::{removed, DirView, FnodeDir};
use crate::path::{components, lemma_pieces_nonempty, pieces};

verus! {

/// Whether `c` is white space in the sense of Unicode's White_Space property.
pub open spec fn is_space(c: char) -> bool {
    let u = c as u32;
    (0x09 <= u && u <= 0x0D) || u == 0x20 || u == 0x85 || u == 0xA0 || u == 0x1680 || (0x2000
        <= u && u <= 0x200A) || u == 0x2028 || u == 0x2029 || u == 0x202F || u == 0x205F || u
        == 0x3000
}

/// `l` without its leading white space.
pub open spec fn trim_start(l: Seq<char>) -> Seq<char>
    decreases l.len(),
{
    if l.len() > 0 && is_space(l[0]) {
        trim_start(l.drop_first())
    } else {
        l
    }
}

/// `l` without its trailing white space.
pub open spec fn trim_end(l: Seq<char>) -> Seq<char>
    decreases l.len(),
{
    if l.len() > 0 && is_space(l.last()) {
        trim_end(l.drop_last())
    } else {
        l
    }
}

pub open spec fn trim(l: Seq<char>) -> Seq<char> {
    trim_end(trim_start(l))
}

/// The entries of an ignore text: its lines, trimmed. Empty ones stay, and mean
/// nothing.
pub open spec fn ignore_entries(text: Seq<char>) -> Seq<Seq<char>> {
    pieces(text, '\n').map_values(|l: Seq<char>| trim(l))
}

/// `d` after the removal that the entry `l` asks for: the path `l`, as a directory
/// where it ends in `/`. An empty entry, or one whose removal fails, leaves `d` as
/// it is.
pub open spec fn ignore_entry(d: DirView, l: Seq<char>) -> DirView {
    if l.len() == 0 {
        d
    } else {
        match removed(d, components(l), l.last() == '/') {
            Some(v) => v,
            None => d,
        }
    }
}

/// `d` after the entries `ls`, taken in order.
pub open spec fn ignored(d: DirView, ls: Seq<Seq<char>>) -> DirView
    decreases ls.len(),
{
    if ls.len() == 0 {
        d
    } else {
        ignore_entry(ignored(d, ls.drop_last()), ls.last())
    }
}

/// Whether `c` is white space; the same set as `char::is_whitespace`.
pub fn is_space_char(c: char) -> (r: bool)
    ensures
        r == is_space(c),
{
    let u = c as u32;
    (0x09 <= u && u <= 0x0D) || u == 0x20 || u == 0x85 || u == 0xA0 || u == 0x1680 || (0x2000
        <= u && u <= 0x200A) || u == 0x2028 || u == 0x2029 || u == 0x202F || u == 0x205F || u
        == 0x3000
}

proof fn lemma_trim_start_step(s: Seq<char>, a: int, e: int)
    requires
        0 <= a < e <= s.len(),
        is_space(s[a]),
    ensures
        trim_start(s.subrange(a, e)) == trim_start(s.subrange(a + 1, e)),
{
    assert(s.subrange(a, e).drop_first() =~= s.subrange(a + 1, e));
}

proof fn lemma_trim_end_step(s: Seq<char>, a: int, b: int)
    requires
        0 <= a < b <= s.len(),
        is_space(s[b - 1]),
    ensures
        trim_end(s.subrange(a, b)) == trim_end(s.subrange(a, b - 1)),
{
    assert(s.subrange(a, b).drop_last() =~= s.subrange(a, b - 1));
}

/// Removes from `dir` the entry named on the line `text[start..end]`, once trimmed.
fn ignore_line(dir: &mut FnodeDir, text: &str, start: usize, end: usize)
    requires
        start <= end <= text@.len(),
    ensures
        final(dir)@ == ignore_entry(old(dir)@, trim(text@.subrange(start as int, end as int))),
{
    let ghost s = text@;
    let mut a = start;
    while a < end && is_space_char(text.get_char(a))
        invariant
            start <= a <= end,
            end <= s.len(),
            s == text@,
            trim_start(s.subrange(start as int, end as int)) == trim_start(
                s.subrange(a as int, end as int),
            ),
        decreases end - a,
    {
        proof {
            lemma_trim_start_step(s, a as int, end as int);
        }
        a = a + 1;
    }
    assert(trim_start(s.subrange(a as int, end as int)) == s.subrange(a as int, end as int));
    let mut b = end;
    while b > a && is_space_char(text.get_char(b - 1))
        invariant
            a <= b <= end,
            end <= s.len(),
            s == text@,
            trim(s.subrange(start as int, end as int)) == trim_end(s.subrange(a as int, b as int)),
        decreases b - a,
    {
        proof {
            lemma_trim_end_step(s, a as int, b as int);
        }
        b = b - 1;
    }
    assert(trim_end(s.subrange(a as int, b as int)) == s.subrange(a as int, b as int));
    if a < b {
        let line = text.substring_char(a, b);
        let isdir = text.get_char(b - 1) == '/';
        assert(line@.last() == s[b - 1]);
        let _ = dir.remove_path(line, isdir);
    }
}

/// Applies an ignore text to a tree: each trimmed, non-empty line is a relative path
/// whose entry is removed, as a directory where the line ends in `/`. A line whose
/// path cannot be followed is passed over.
pub fn arsygnore_parse(dir: &mut FnodeDir, text: String)
    ensures
        final(dir)@ == ignored(old(dir)@, ignore_entries(text@)),
{
    let t = text.as_str();
    let len = t.unicode_len();
    let ghost s = t@;
    let ghost mut closed: Seq<Seq<char>> = Seq::empty();
    let mut start: usize = 0;
    let mut i: usize = 0;
    assert(s.subrange(0, 0) =~= Seq::<char>::empty());
    assert(pieces(s.subrange(0, 0), '\n') =~= closed.push(s.subrange(0, 0)));
    assert(closed.map_values(|l: Seq<char>| trim(l)) =~= Seq::empty());
    while i < len
        invariant
            len == s.len(),
            s == t@,
            start <= i <= len,
            pieces(s.subrange(0, i as int), '\n') == closed.push(s.subrange(start as int, i as int)),
            dir@ == ignored(old(dir)@, closed.map_values(|l: Seq<char>| trim(l))),
        decreases len - i,
    {
        let c = t.get_char(i);
        let ghost prefix = s.subrange(0, i as int);
        let ghost next = s.subrange(0, i + 1);
        assert(next.drop_last() =~= prefix);
        assert(next.last() == c);
        if c == '\n' {
            let ghost g = s.subrange(start as int, i as int);
            let ghost m0 = closed.map_values(|l: Seq<char>| trim(l));
            ignore_line(dir, t, start, i);
            proof {
                let c2 = closed.push(g);
                let m2 = c2.map_values(|l: Seq<char>| trim(l));
                assert(m2.drop_last() =~= m0);
                closed = c2;
                assert(s.subrange(i + 1, i + 1) =~= Seq::<char>::empty());
                assert(pieces(next, '\n') =~= closed.push(s.subrange(i + 1, i + 1)));
            }
            start = i + 1;
        } else {
            proof {
                lemma_pieces_nonempty(prefix, '\n');
                assert(s.subrange(start as int, i + 1) =~= s.subrange(start as int, i as int).push(c));
                assert(pieces(next, '\n') =~= closed.push(s.subrange(start as int, i + 1)));
            }
        }
        i = i + 1;
    }
    assert(s.subrange(0, len as int) =~= s);
    let ghost g = s.subrange(start as int, len as int);
    let ghost m0 = closed.map_values(|l: Seq<char>| trim(l));
    ignore_line(dir, t, start, len);
    proof {
        let c2 = closed.push(g);
        let m2 = c2.map_values(|l: Seq<char>| trim(l));
        assert(m2.drop_last() =~= m0);
        assert(m2 =~= ignore_entries(text@));
    }
}

} // verus!
