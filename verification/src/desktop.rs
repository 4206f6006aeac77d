//! Finding the icon of a running program from a desktop entry whose `Exec=`
//! line names it.

use vstd::prelude::*;
use crate::pango::{find_seq, find_seq_in, lemma_find_seq, range_eq_pub};
use crate::text::{chars_of, find_char_from, index_of, lemma_index_of, lowercase_of, string_of, to_lowercase};

verus! {

/// `l` without one trailing carriage return.
pub open spec fn strip_cr(l: Seq<char>) -> Seq<char> {
    if l.len() > 0 && l.last() == '\r' {
        l.drop_last()
    } else {
        l
    }
}

/// The lines of `s` as `str::lines` yields them: split at `\n` (or
/// `\r\n`), with no empty line after a final line ending.
#[verifier::opaque]
pub open spec fn lines_of(s: Seq<char>) -> Seq<Seq<char>>
    decreases s.len(),
{
    proof {
        lemma_index_of(s, '\n');
    }
    match index_of(s, '\n') {
        Some(k) => seq![strip_cr(s.take(k))] + lines_of(s.skip(k + 1)),
        None => if s.len() == 0 {
            Seq::empty()
        } else {
            seq![s]
        },
    }
}

pub open spec fn starts_with(s: Seq<char>, p: Seq<char>) -> bool {
    p.len() <= s.len() && s.take(p.len() as int) == p
}

pub open spec fn exec_key() -> Seq<char> {
    seq!['E', 'x', 'e', 'c', '=']
}

pub open spec fn icon_key() -> Seq<char> {
    seq!['I', 'c', 'o', 'n', '=']
}

/// `line` is an `Exec=` line that mentions `name`, ignoring case.
pub open spec fn runs_name(line: Seq<char>, name: Seq<char>) -> bool {
    starts_with(line, exec_key()) && find_seq(lowercase_of(line), lowercase_of(name)) is Some
}

/// The first `Icon=` line of `ls`.
pub open spec fn first_icon_line(ls: Seq<Seq<char>>) -> Option<Seq<char>>
    decreases ls.len(),
{
    if ls.len() == 0 {
        None
    } else if starts_with(ls[0], icon_key()) {
        Some(ls[0])
    } else {
        first_icon_line(ls.drop_first())
    }
}

/// `l` without every leading `Icon=`.
pub open spec fn strip_icon_keys(l: Seq<char>) -> Seq<char>
    decreases l.len(),
{
    if starts_with(l, icon_key()) {
        strip_icon_keys(l.skip(5))
    } else {
        l
    }
}

/// What the desktop entry `content` says of the program `name`: nothing
/// (`None`) when no `Exec=` line mentions it; otherwise the icon of its
/// first `Icon=` line, or `Some(None)` when it has none.
pub open spec fn entry_icon(content: Seq<char>, name: Seq<char>) -> Option<Option<Seq<char>>> {
    let ls = lines_of(content);
    if exists|k: int| 0 <= k < ls.len() && #[trigger] runs_name(ls[k], name) {
        match first_icon_line(ls) {
            Some(l) => Some(Some(strip_icon_keys(l))),
            None => Some(None),
        }
    } else {
        None
    }
}

/// The lines given as ranges of `cs`.
pub open spec fn ranges_view(cs: Seq<char>, rs: Seq<(usize, usize)>) -> Seq<Seq<char>> {
    Seq::new(rs.len(), |k: int| cs.subrange(rs[k].0 as int, rs[k].1 as int))
}

proof fn lemma_lines_step(cs: Seq<char>, pos: int, i: int)
    requires
        0 <= pos <= i < cs.len(),
        index_of(cs.skip(pos), '\n') == Some(i - pos),
    ensures
        lines_of(cs.skip(pos)) == seq![strip_cr(cs.subrange(pos, i))] + lines_of(cs.skip(i + 1)),
{
    reveal(lines_of);
    let s = cs.skip(pos);
    assert(s.take(i - pos) == cs.subrange(pos, i));
    assert(s.skip(i - pos + 1) == cs.skip(i + 1));
}

/// Cuts `cs` into line ranges.
fn line_ranges(cs: &[char]) -> (rs: Vec<(usize, usize)>)
    ensures
        ranges_view(cs@, rs@) == lines_of(cs@),
        forall|k: int| 0 <= k < rs@.len() ==> (#[trigger] rs@[k]).0 <= rs@[k].1 <= cs@.len(),
{
    let mut rs: Vec<(usize, usize)> = Vec::new();
    let mut pos: usize = 0;
    assert(cs@.skip(0) == cs@);
    while pos < cs.len()
        invariant
            pos <= cs@.len(),
            lines_of(cs@) == ranges_view(cs@, rs@) + lines_of(cs@.skip(pos as int)),
            forall|k: int| 0 <= k < rs@.len() ==> (#[trigger] rs@[k]).0 <= rs@[k].1 <= cs@.len(),
        decreases cs@.len() - pos,
    {
        match find_char_from(cs, pos, '\n') {
            Some(i) => {
                proof {
                    lemma_lines_step(cs@, pos as int, i as int);
                }
                let hi = if i > pos && cs[i - 1] == '\r' {
                    i - 1
                } else {
                    i
                };
                assert(cs@.subrange(pos as int, hi as int) == strip_cr(cs@.subrange(pos as int, i as int)));
                let ghost before = ranges_view(cs@, rs@);
                rs.push((pos, hi));
                assert(ranges_view(cs@, rs@) == before.push(cs@.subrange(pos as int, hi as int)));
                pos = i + 1;
            },
            None => {
                let ghost before = ranges_view(cs@, rs@);
                rs.push((pos, cs.len()));
                assert(cs@.skip(pos as int) == cs@.subrange(pos as int, cs@.len() as int));
                assert(ranges_view(cs@, rs@) == before.push(cs@.subrange(pos as int, cs@.len() as int)));
                assert(lines_of(cs@.skip(pos as int)) == seq![cs@.skip(pos as int)]) by {
                    reveal(lines_of);
                }
                assert(cs@.skip(cs@.len() as int) == Seq::<char>::empty());
                assert(lines_of(cs@.skip(cs@.len() as int)) == Seq::<Seq<char>>::empty()) by {
                    reveal(lines_of);
                }
                pos = cs.len();
            },
        }
    }
    assert(cs@.skip(pos as int) == Seq::<char>::empty());
    assert(lines_of(Seq::<char>::empty()) == Seq::<Seq<char>>::empty()) by {
        reveal(lines_of);
    }
    rs
}

/// Whether `cs[lo..hi]` starts with `key`.
fn range_starts_with(cs: &[char], lo: usize, hi: usize, key: &[char]) -> (r: bool)
    requires
        lo <= hi <= cs@.len(),
    ensures
        r == starts_with(cs@.subrange(lo as int, hi as int), key@),
{
    if key.len() > hi - lo {
        return false;
    }
    let r = range_eq_pub(cs, lo, lo + key.len(), key);
    assert(cs@.subrange(lo as int, hi as int).take(key@.len() as int) == cs@.subrange(
        lo as int,
        lo + key@.len(),
    ));
    r
}

/// `cs[lo..hi]` without every leading `Icon=`, as the start of what is left.
fn skip_icon_keys(cs: &[char], lo: usize, hi: usize) -> (a: usize)
    requires
        lo <= hi <= cs@.len(),
    ensures
        lo <= a <= hi,
        cs@.subrange(a as int, hi as int) == strip_icon_keys(cs@.subrange(lo as int, hi as int)),
{
    let icon = ['I', 'c', 'o', 'n', '='];
    assert(icon@ == icon_key());
    let mut a = lo;
    while a <= hi && hi - a >= 5 && range_eq_pub(cs, a, a + 5, &icon)
        invariant
            lo <= a <= hi <= cs@.len(),
            icon@ == icon_key(),
            strip_icon_keys(cs@.subrange(lo as int, hi as int)) == strip_icon_keys(
                cs@.subrange(a as int, hi as int),
            ),
        decreases hi - a,
    {
        let ghost t = cs@.subrange(a as int, hi as int);
        assert(t.take(5) == cs@.subrange(a as int, a + 5));
        assert(t.skip(5) == cs@.subrange(a + 5, hi as int));
        a = a + 5;
    }
    proof {
        let t = cs@.subrange(a as int, hi as int);
        if t.len() >= 5 {
            assert(t.take(5) == cs@.subrange(a as int, a + 5));
        }
    }
    a
}

/// Whether an `Exec=` line among `rs` mentions the program whose
/// lowercased name is `ln`.
fn mentions_program(cs: &[char], rs: &Vec<(usize, usize)>, ln: &Vec<char>, name: Ghost<Seq<char>>) -> (r: bool)
    requires
        forall|j: int| 0 <= j < rs@.len() ==> (#[trigger] rs@[j]).0 <= rs@[j].1 <= cs@.len(),
        ln@ == lowercase_of(name@),
    ensures
        r == exists|k: int| 0 <= k < rs@.len() && #[trigger] runs_name(ranges_view(cs@, rs@)[k], name@),
{
    let ghost ls = ranges_view(cs@, rs@);
    let exec = ['E', 'x', 'e', 'c', '='];
    assert(exec@ == exec_key());
    let mut k: usize = 0;
    while k < rs.len()
        invariant
            ls == ranges_view(cs@, rs@),
            forall|j: int| 0 <= j < rs@.len() ==> (#[trigger] rs@[j]).0 <= rs@[j].1 <= cs@.len(),
            ln@ == lowercase_of(name@),
            exec@ == exec_key(),
            k <= rs@.len(),
            forall|j: int| 0 <= j < k ==> !#[trigger] runs_name(ls[j], name@),
        decreases rs@.len() - k,
    {
        let (lo, hi) = rs[k];
        assert(ls[k as int] == cs@.subrange(lo as int, hi as int));
        if range_starts_with(cs, lo, hi, &exec) {
            let line = string_of(vstd::slice::slice_subrange(cs, lo, hi));
            let lower = to_lowercase(line.as_str());
            let lc = chars_of(lower.as_str());
            assert(lc@.skip(0) == lc@);
            let hit = find_seq_in(lc.as_slice(), 0, lc.len(), ln.as_slice());
            proof {
                lemma_find_seq(lc@, ln@);
                lemma_find_seq(lowercase_of(ls[k as int]), lowercase_of(name@));
            }
            if hit.is_some() {
                assert(runs_name(ls[k as int], name@));
                return true;
            }
        }
        k = k + 1;
    }
    false
}

/// The icon named by the first `Icon=` line among `rs`.
fn first_icon(cs: &[char], rs: &Vec<(usize, usize)>) -> (r: Option<String>)
    requires
        forall|j: int| 0 <= j < rs@.len() ==> (#[trigger] rs@[j]).0 <= rs@[j].1 <= cs@.len(),
    ensures
        match first_icon_line(ranges_view(cs@, rs@)) {
            Some(l) => r matches Some(s) && s@ == strip_icon_keys(l),
            None => r is None,
        },
{
    let ghost ls = ranges_view(cs@, rs@);
    let icon = ['I', 'c', 'o', 'n', '='];
    assert(icon@ == icon_key());
    let mut j: usize = 0;
    assert(ls.skip(0) == ls);
    while j < rs.len()
        invariant
            ls == ranges_view(cs@, rs@),
            forall|m: int| 0 <= m < rs@.len() ==> (#[trigger] rs@[m]).0 <= rs@[m].1 <= cs@.len(),
            icon@ == icon_key(),
            j <= rs@.len(),
            first_icon_line(ls) == first_icon_line(ls.skip(j as int)),
        decreases rs@.len() - j,
    {
        let (lo, hi) = rs[j];
        assert(ls[j as int] == cs@.subrange(lo as int, hi as int));
        assert(ls.skip(j as int)[0] == ls[j as int]);
        if range_starts_with(cs, lo, hi, &icon) {
            let a = skip_icon_keys(cs, lo, hi);
            return Some(string_of(vstd::slice::slice_subrange(cs, a, hi)));
        }
        assert(ls.skip(j as int).drop_first() == ls.skip(j + 1));
        j = j + 1;
    }
    assert(ls.skip(j as int).len() == 0);
    None
}

/// The icon that the desktop entry `content` gives the program `name`; see
/// `entry_icon`.
pub fn desktop_entry_icon(content: &str, name: &str) -> (r: Option<Option<String>>)
    ensures
        match entry_icon(content@, name@) {
            None => r is None,
            Some(None) => r == Some(None::<String>),
            Some(Some(icon)) => r matches Some(Some(s)) && s@ == icon,
        },
{
    let cs = chars_of(content);
    let lname = to_lowercase(name);
    let ln = chars_of(lname.as_str());
    let rs = line_ranges(cs.as_slice());
    if !mentions_program(cs.as_slice(), &rs, &ln, Ghost(name@)) {
        return None;
    }
    match first_icon(cs.as_slice(), &rs) {
        Some(s) => Some(Some(s)),
        None => Some(None),
    }
}

} // verus!
