//! Relevance scores for search results (lower is better).

use vstd::prelude::*;
use crate::pango::find_seq;
use crate::text::{
    byte_len, byte_len_of, chars_of, find_char_from, index_of, lemma_index_of, lowercase_of,
    split_front, string_of, to_lowercase,
};

verus! {

/// The edit distance between `a` and `b`: the fewest insertions, deletions
/// and substitutions of single characters that turn `a` into `b`.
pub open spec fn levenshtein_of(a: Seq<char>, b: Seq<char>) -> nat
    decreases a.len() + b.len(),
{
    if a.len() == 0 {
        b.len()
    } else if b.len() == 0 {
        a.len()
    } else {
        let substitute = levenshtein_of(a.drop_last(), b.drop_last()) + if a.last() == b.last() {
            0nat
        } else {
            1nat
        };
        let delete = levenshtein_of(a.drop_last(), b) + 1;
        let insert = levenshtein_of(a, b.drop_last()) + 1;
        if substitute <= delete && substitute <= insert {
            substitute
        } else if delete <= insert {
            delete
        } else {
            insert
        }
    }
}

/// Calls `levenshtein::levenshtein`, which computes the edit distance
/// between two strings over their characters, as its documentation says;
/// for equal strings it returns 0 before computing anything.
#[verifier::external_body]
fn levenshtein_distance(a: &str, b: &str) -> (res: usize)
    ensures
        res == levenshtein_of(a@, b@),
        a@ == b@ ==> res == 0,
{
    levenshtein::levenshtein(a, b)
}

/// `round(num / den)` for a rational `num / den` (`den > 0`), saturated into
/// `u16` the way a float-to-`u16` cast saturates: 0 for negative values.
pub open spec fn sat_round(num: int, den: int) -> int {
    if num <= 0 {
        0
    } else {
        let r = (2 * num + den) / (2 * den);
        if r > 65535 {
            65535
        } else {
            r
        }
    }
}

pub open spec fn min_int(a: int, b: int) -> int {
    if a <= b {
        a
    } else {
        b
    }
}

pub open spec fn clamp_int(x: int, lo: int, hi: int) -> int {
    if x < lo {
        lo
    } else if x > hi {
        hi
    } else {
        x
    }
}

pub open spec fn is_prefix(p: Seq<char>, s: Seq<char>) -> bool {
    p.len() <= s.len() && s.take(p.len() as int) == p
}

/// Score of a non-empty `element` that neither equals `query` nor equals it
/// ignoring case: a prefix match scores 1000 to 2000 by coverage, a
/// substring match 2500 to 3500 plus a position penalty, a near match by
/// edit distance 3500 to 10000, anything else 10000. Lengths are in bytes.
pub open spec fn element_score(element: Seq<char>, query: Seq<char>) -> int {
    let e = byte_len(element) as int;
    let q = byte_len(query) as int;
    let el = lowercase_of(element);
    let ql = lowercase_of(query);
    if is_prefix(ql, el) {
        sat_round(2000 * e - 1000 * q, e)
    } else {
        match find_seq(el, ql) {
            Some(k) => sat_round(3500 * e + 1000 * byte_len(el.take(k)) - 1000 * q, e),
            None => {
                let max_dist = min_int(q / 4 + 1, 4);
                let diff = if e >= q {
                    e - q
                } else {
                    q - e
                };
                if diff < max_dist {
                    clamp_int(sat_round(10000 * (levenshtein_of(ql, el) as int), e), 3500, 10000)
                } else {
                    10000
                }
            },
        }
    }
}

/// Scores the `;`-separated elements in order: the first exact match wins
/// with 0, the first case-insensitive match with 100, otherwise the best
/// (lowest) element score, starting from `best`.
pub open spec fn score_elements(els: Seq<Seq<char>>, query: Seq<char>, best: int) -> int
    decreases els.len(),
{
    if els.len() == 0 {
        best
    } else {
        let el = els[0];
        if el.len() == 0 {
            score_elements(els.drop_first(), query, best)
        } else if el == query {
            0
        } else if lowercase_of(el) == lowercase_of(query) {
            100
        } else {
            score_elements(els.drop_first(), query, min_int(best, element_score(el, query)))
        }
    }
}

/// How well `query` matches `match_in` (lower is better): 10000 for an
/// empty `match_in`, 8000 for an empty query, else the element scores of
/// the `;`-separated aliases of `match_in`.
pub open spec fn search_score_spec(query: Seq<char>, match_in: Seq<char>) -> int {
    if match_in.len() == 0 {
        10000
    } else if query.len() == 0 {
        8000
    } else {
        score_elements(split_front(match_in, ';'), query, 10000)
    }
}

/// `sat_round(num, den)` in machine integers.
fn sat_round_exec(num: i128, den: i128) -> (res: u16)
    requires
        den > 0,
        -0x1000_0000_0000_0000_0000_0000 <= num <= 0x1000_0000_0000_0000_0000_0000,
        den <= 0x1000_0000_0000_0000_0000_0000,
    ensures
        res == sat_round(num as int, den as int),
{
    if num <= 0 {
        0
    } else {
        let r = (2 * num + den) / (2 * den);
        if r > 65535 {
            65535
        } else {
            r as u16
        }
    }
}

/// Score of the non-empty element `cs[lo..hi]` for `query`; `ql` is the
/// lower-cased query and `qb` the query's byte length.
fn element_score_exec(cs: &[char], lo: usize, hi: usize, query: &str, ql: &Vec<char>, qb: u128) -> (res: u16)
    requires
        lo < hi <= cs@.len(),
        ql@ == lowercase_of(query@),
        qb == byte_len(query@),
        qb <= 4 * 0x1_0000_0000_0000_0000,
    ensures
        res == element_score(cs@.subrange(lo as int, hi as int), query@),
{
    let ghost element = cs@.subrange(lo as int, hi as int);
    let el_string = string_of(&cs[lo..hi]);
    let el_lower = to_lowercase(el_string.as_str());
    let el = chars_of(el_lower.as_str());
    let e = byte_len_of(cs, lo, hi);
    proof {
        vstd::utf8::char_is_scalar(cs@[lo as int]);
        assert(element =~= seq![cs@[lo as int]] + element.drop_first());
        crate::text::lemma_byte_len_concat(seq![cs@[lo as int]], element.drop_first());
        crate::text::lemma_byte_len_single(cs@[lo as int]);
    }
    assert(e >= 1);
    let ei = e as i128;
    let qi = qb as i128;
    let m = ql.len();
    // prefix match
    if m <= el.len() && crate::pango::range_eq_pub(el.as_slice(), 0, m, ql.as_slice()) {
        assert(el@.subrange(0, m as int) =~= el@.take(m as int));
        return sat_round_exec(2000 * ei - 1000 * qi, ei);
    }
    assert(!crate::scoring::is_prefix(ql@, el@)) by {
        if m <= el@.len() {
            assert(el@.subrange(0, m as int) =~= el@.take(m as int));
        }
    }
    assert(el@.subrange(0, el@.len() as int) =~= el@);
    match crate::pango::find_seq_in(el.as_slice(), 0, el.len(), ql.as_slice()) {
        Some(k) => {
            let pb = byte_len_of(el.as_slice(), 0, k);
            assert(el@.subrange(0, k as int) =~= el@.take(k as int));
            sat_round_exec(3500 * ei + 1000 * (pb as i128) - 1000 * qi, ei)
        },
        None => {
            let max_dist: i128 = if qi / 4 + 1 < 4 {
                qi / 4 + 1
            } else {
                4
            };
            let diff: i128 = if ei >= qi {
                ei - qi
            } else {
                qi - ei
            };
            if diff < max_dist {
                let qls = string_of(ql.as_slice());
                let d = levenshtein_distance(qls.as_str(), el_lower.as_str());
                let r = sat_round_exec(10000 * (d as i128), ei);
                if r < 3500 {
                    3500
                } else if r > 10000 {
                    10000
                } else {
                    r
                }
            } else {
                10000
            }
        },
    }
}

/// How well `query` matches `match_in` (lower is better); see
/// `search_score_spec`.
pub fn search_score(query: &str, match_in: &str) -> (res: u16)
    ensures
        res == search_score_spec(query@, match_in@),
{
    if match_in.is_empty() {
        return 10000;
    }
    if query.is_empty() {
        return 8000;
    }
    let ql_string = to_lowercase(query);
    let ql = chars_of(ql_string.as_str());
    let qc = chars_of(query);
    let qb = byte_len_of(qc.as_slice(), 0, qc.len());
    assert(qc@.subrange(0, qc@.len() as int) =~= query@);
    assert(ql@ == ql_string@);
    let chars = chars_of(match_in);
    let cs = chars.as_slice();
    let n = cs.len();
    let mut best: u16 = 10000;
    let mut start: usize = 0;
    assert(cs@.skip(0) =~= cs@);
    loop
        invariant
            n == cs@.len(),
            cs@ == match_in@,
            qc@ == query@,
            ql_string@ == lowercase_of(query@),
            query@.len() > 0,
            start <= n,
            ql@ == lowercase_of(query@),
            qb == byte_len(query@),
            qb <= 4 * 0x1_0000_0000_0000_0000,
            best <= 10000,
            search_score_spec(query@, match_in@) == score_elements(
                split_front(cs@.skip(start as int), ';'),
                query@,
                best as int,
            ),
        decreases n - start,
    {
        let ghost rest = cs@.skip(start as int);
        proof {
            lemma_index_of(rest, ';');
        }
        let (end, more) = match find_char_from(cs, start, ';') {
            Some(k) => (k, true),
            None => (n, false),
        };
        let ghost el = cs@.subrange(start as int, end as int);
        let ghost tail = if more {
            split_front(cs@.skip(end + 1), ';')
        } else {
            Seq::empty()
        };
        proof {
            if more {
                assert(rest.take(end - start) =~= el);
                assert(rest.skip(end - start + 1) =~= cs@.skip(end + 1));
            } else {
                assert(rest =~= el);
            }
            assert(split_front(rest, ';') =~= seq![el] + tail);
            assert(split_front(rest, ';').drop_first() =~= tail);
        }
        if end > start {
            if crate::pango::range_eq_pub(cs, start, end, qc.as_slice()) {
                return 0;
            }
            let el_string = string_of(&cs[start..end]);
            let el_lower = to_lowercase(el_string.as_str());
            if el_lower == ql_string {
                return 100;
            }
            let s = element_score_exec(cs, start, end, query, &ql, qb);
            if s < best {
                best = s;
            }
        }
        assert(search_score_spec(query@, match_in@) == score_elements(tail, query@, best as int));
        if !more {
            assert(tail =~= Seq::<Seq<char>>::empty());
            return best;
        }
        start = end + 1;
    }
}

proof fn lemma_score_elements_bounds(els: Seq<Seq<char>>, query: Seq<char>, best: int)
    requires
        0 <= best <= 10000,
    ensures
        0 <= score_elements(els, query, best) <= 10000,
    decreases els.len(),
{
    if els.len() > 0 {
        let el = els[0];
        if el.len() == 0 {
            lemma_score_elements_bounds(els.drop_first(), query, best);
        } else if el == query || lowercase_of(el) == lowercase_of(query) {
        } else {
            lemma_element_score_nonneg(el, query);
            lemma_score_elements_bounds(els.drop_first(), query, min_int(best, element_score(el, query)));
        }
    }
}

proof fn lemma_sat_round_nonneg(num: int, den: int)
    requires
        den > 0,
    ensures
        sat_round(num, den) >= 0,
{
    if num > 0 {
        assert((2 * num + den) / (2 * den) >= 0) by (nonlinear_arith)
            requires
                num > 0,
                den > 0,
        ;
    }
}

proof fn lemma_element_score_nonneg(el: Seq<char>, query: Seq<char>)
    requires
        el.len() > 0,
    ensures
        element_score(el, query) >= 0,
{
    crate::text::lemma_byte_len_ge_len(el);
    let e = byte_len(el) as int;
    let q = byte_len(query) as int;
    let ell = lowercase_of(el);
    let ql = lowercase_of(query);
    lemma_sat_round_nonneg(2000 * e - 1000 * q, e);
    match find_seq(ell, ql) {
        Some(k) => {
            lemma_sat_round_nonneg(3500 * e + 1000 * byte_len(ell.take(k)) - 1000 * q, e);
        },
        None => {},
    }
}

proof fn lemma_score_elements_alias(els: Seq<Seq<char>>, query: Seq<char>, best: int, k: int)
    requires
        query.len() > 0,
        0 <= k < els.len(),
        els[k] == query,
    ensures
        score_elements(els, query, best) <= 100,
    decreases els.len(),
{
    let el = els[0];
    if k > 0 && !(el.len() > 0 && (el == query || lowercase_of(el) == lowercase_of(query))) {
        lemma_score_elements_alias(els.drop_first(), query, if el.len() == 0 {
            best
        } else {
            min_int(best, element_score(el, query))
        }, k - 1);
    }
}

/// Every score lies between 0 (best) and 10000 (no match).
pub proof fn law_score_bounds(query: Seq<char>, match_in: Seq<char>)
    ensures
        0 <= search_score_spec(query, match_in) <= 10000,
{
    if match_in.len() > 0 && query.len() > 0 {
        lemma_score_elements_bounds(split_front(match_in, ';'), query, 10000);
    }
}

/// An alias that equals the query makes the result score at most 100:
/// 0, unless an earlier alias matched ignoring case.
pub proof fn law_alias_match_scores_first(query: Seq<char>, match_in: Seq<char>, k: int)
    requires
        query.len() > 0,
        0 <= k < split_front(match_in, ';').len(),
        split_front(match_in, ';')[k] == query,
    ensures
        search_score_spec(query, match_in) <= 100,
{
    if match_in.len() > 0 {
        lemma_score_elements_alias(split_front(match_in, ';'), query, 10000, k);
    }
}

proof fn lemma_split_without_separator(s: Seq<char>)
    requires
        forall|j: int| 0 <= j < s.len() ==> s[j] != ';',
    ensures
        split_front(s, ';') == seq![s],
{
    crate::text::lemma_index_of(s, ';');
}

/// A prefix match ignores letter case: when the lower-cased alias starts
/// with the lower-cased query (and is neither the query itself nor equal to
/// it ignoring case), the score is `round(2000 - 1000 * q / e)` for the byte
/// lengths `q` of the query and `e` of the alias, whatever the case of
/// either, so `"Firefox"` scores as a prefix match for `"fire"`.
pub proof fn law_prefix_match_ignores_case(query: Seq<char>, alias: Seq<char>)
    requires
        query.len() > 0,
        alias.len() > 0,
        forall|j: int| 0 <= j < alias.len() ==> alias[j] != ';',
        alias != query,
        lowercase_of(alias) != lowercase_of(query),
        is_prefix(lowercase_of(query), lowercase_of(alias)),
    ensures
        search_score_spec(query, alias) == sat_round(
            2000 * byte_len(alias) - 1000 * byte_len(query),
            byte_len(alias) as int,
        ),
        search_score_spec(query, alias) <= 2000,
{
    lemma_split_without_separator(alias);
    crate::text::lemma_byte_len_ge_len(alias);
    let e = byte_len(alias) as int;
    let q = byte_len(query) as int;
    let num = 2000 * e - 1000 * q;
    if num > 0 {
        assert((2 * num + e) / (2 * e) <= 2000) by (nonlinear_arith)
            requires
                e > 0,
                q >= 0,
                num == 2000 * e - 1000 * q,
        ;
    }
    let els = seq![alias];
    assert(els.drop_first() == Seq::<Seq<char>>::empty());
    assert(els[0] == alias);
    let es = element_score(alias, query);
    assert(es == sat_round(num, e));
    assert(es <= 2000);
    assert(score_elements(Seq::<Seq<char>>::empty(), query, min_int(10000, es)) == min_int(10000, es));
    assert(score_elements(els, query, 10000) == score_elements(
        els.drop_first(),
        query,
        min_int(10000, es),
    ));
    assert(search_score_spec(query, alias) == score_elements(els, query, 10000));
}

} // verus!
