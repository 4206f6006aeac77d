//! Searching running processes by name: ASCII case-insensitive byte
//! matching, match scores, a bounded sorted result list, and the walk over
//! the process table that picks one named entry per application.

use std::collections::HashMap;
use tokio::sync::mpsc::Receiver;
use vstd::prelude::*;
use vstd::multiset::Multiset;
use vstd::utf8::encode_utf8;

verus! {

/// ASCII lowercase of a byte; every other byte is unchanged.
pub open spec fn lower_byte(b: u8) -> u8 {
    if 0x41 <= b && b <= 0x5A {
        (b + 0x20) as u8
    } else {
        b
    }
}

/// The bytes of `h` from `start` on begin with `n`, ignoring ASCII case.
pub open spec fn window_matches(h: Seq<u8>, n: Seq<u8>, start: int) -> bool {
    &&& 0 <= start
    &&& start + n.len() <= h.len()
    &&& forall|j: int| 0 <= j < n.len() ==> lower_byte(#[trigger] h[start + j]) == lower_byte(n[j])
}

/// `a` equals `b`, ignoring ASCII case.
pub open spec fn eq_ci(a: Seq<u8>, b: Seq<u8>) -> bool {
    a.len() == b.len() && forall|j: int| 0 <= j < a.len() ==> lower_byte(#[trigger] a[j]) == lower_byte(b[j])
}

/// `n` occurs somewhere in `h`, ignoring ASCII case.
pub open spec fn contains_ci(h: Seq<u8>, n: Seq<u8>) -> bool {
    exists|start: int| window_matches(h, n, start)
}

/// The last index of a `/` byte in `s`, if there is one.
pub open spec fn last_slash(s: Seq<u8>) -> Option<usize>
    decreases s.len(),
{
    if s.len() == 0 {
        None
    } else if s.last() == 0x2Fu8 {
        Some((s.len() - 1) as usize)
    } else {
        last_slash(s.drop_last())
    }
}

fn lower_byte_exec(b: u8) -> (r: u8)
    ensures
        r == lower_byte(b),
{
    if 0x41 <= b && b <= 0x5A {
        b + 0x20
    } else {
        b
    }
}

fn window_matches_exec(h: &[u8], n: &[u8], start: usize) -> (r: bool)
    requires
        start + n@.len() <= h@.len(),
    ensures
        r == window_matches(h@, n@, start as int),
{
    let hl = h.len();
    let mut j: usize = 0;
    while j < n.len()
        invariant
            hl == h@.len(),
            start + n@.len() <= h@.len(),
            j <= n@.len(),
            forall|k: int| 0 <= k < j ==> lower_byte(#[trigger] h@[start + k]) == lower_byte(n@[k]),
        decreases n@.len() - j,
    {
        if lower_byte_exec(h[start + j]) != lower_byte_exec(n[j]) {
            assert(!(lower_byte(h@[start + j as int]) == lower_byte(n@[j as int])));
            return false;
        }
        j = j + 1;
    }
    true
}

/// ASCII case-insensitive byte comparisons.
pub struct CiUtils;

impl CiUtils {
    /// `a` equals `b`, ignoring ASCII case.
    pub fn bytes_eq_ci(a: &[u8], b: &[u8]) -> (r: bool)
        ensures
            r == eq_ci(a@, b@),
    {
        if a.len() != b.len() {
            return false;
        }
        let r = window_matches_exec(a, b, 0);
        proof {
            assert forall|j: int| 0 <= j < a@.len() implies (lower_byte(#[trigger] a@[j]) == lower_byte(b@[j]))
                <==> lower_byte(a@[0 + j]) == lower_byte(b@[j]) by {}
        }
        r
    }

    /// `needle` occurs in `haystack`, ignoring ASCII case; the empty needle occurs
    /// everywhere.
    pub fn bytes_contain_ci(haystack: &[u8], needle: &[u8]) -> (r: bool)
        ensures
            r == contains_ci(haystack@, needle@),
    {
        if needle.len() == 0 {
            assert(window_matches(haystack@, needle@, 0));
            return true;
        }
        if needle.len() > haystack.len() {
            return false;
        }
        let hl = haystack.len();
        let last = hl - needle.len();
        let mut start: usize = 0;
        while start <= last
            invariant
                hl == haystack@.len(),
                needle@.len() >= 1,
                last == haystack@.len() - needle@.len(),
                start <= last + 1,
                forall|s: int| 0 <= s < start ==> !window_matches(haystack@, needle@, s),
            decreases last + 1 - start,
        {
            if window_matches_exec(haystack, needle, start) {
                return true;
            }
            start = start + 1;
        }
        false
    }

    /// The index of the last `/` in `bytes`.
    pub fn memrchr_slash(bytes: &[u8]) -> (r: Option<usize>)
        ensures
            r == last_slash(bytes@),
    {
        let mut i: usize = bytes.len();
        assert(bytes@.take(i as int) == bytes@);
        while i > 0
            invariant
                i <= bytes@.len(),
                last_slash(bytes@) == last_slash(bytes@.take(i as int)),
            decreases i,
        {
            assert(bytes@.take(i as int).drop_last() == bytes@.take(i - 1));
            if bytes[i - 1] == 0x2F {
                return Some(i - 1);
            }
            i = i - 1;
        }
        assert(bytes@.take(0) == Seq::<u8>::empty());
        None
    }
}

/// How well a process name matches a query, ignoring ASCII case, in millionths (lower
/// is better): equal 0, a suffix 50000, a prefix 100000 plus up to 100000
/// for the part of the name the query leaves uncovered, a substring 400000,
/// anything else 800000.
pub open spec fn name_score(name: Seq<u8>, q: Seq<u8>) -> u32 {
    let len = name.len();
    let qlen = q.len();
    if len == qlen && eq_ci(name, q) {
        0
    } else if len > qlen && eq_ci(name.skip(len - qlen), q) {
        50000
    } else if len > qlen && eq_ci(name.take(qlen as int), q) {
        (100000 + (100000 * (len - qlen)) / (len as int)) as u32
    } else if contains_ci(name, q) {
        400000
    } else {
        800000
    }
}

/// `s` with its ASCII letters lower-cased.
pub open spec fn lower_bytes(s: Seq<u8>) -> Seq<u8> {
    s.map_values(|b: u8| lower_byte(b))
}

proof fn lemma_lower_byte_idempotent(b: u8)
    ensures
        lower_byte(lower_byte(b)) == lower_byte(b),
{
}

proof fn lemma_eq_ci_lower(a: Seq<u8>, b: Seq<u8>)
    ensures
        eq_ci(a, b) == eq_ci(lower_bytes(a), lower_bytes(b)),
{
    assert forall|j: int| 0 <= j < a.len() && a.len() == b.len() implies (lower_byte(#[trigger] a[j])
        == lower_byte(b[j])) == (lower_byte(lower_bytes(a)[j]) == lower_byte(lower_bytes(b)[j])) by {
        lemma_lower_byte_idempotent(a[j]);
        lemma_lower_byte_idempotent(b[j]);
    }
    if eq_ci(lower_bytes(a), lower_bytes(b)) {
        assert forall|j: int| 0 <= j < a.len() implies lower_byte(#[trigger] a[j]) == lower_byte(b[j]) by {
            assert(lower_byte(lower_bytes(a)[j]) == lower_byte(lower_bytes(b)[j]));
        }
    }
}

proof fn lemma_contains_ci_lower(h: Seq<u8>, n: Seq<u8>)
    ensures
        contains_ci(h, n) == contains_ci(lower_bytes(h), lower_bytes(n)),
{
    let lh = lower_bytes(h);
    let ln = lower_bytes(n);
    assert forall|start: int| window_matches(h, n, start) == window_matches(lh, ln, start) by {
        if 0 <= start && start + n.len() <= h.len() {
            assert forall|j: int| 0 <= j < n.len() implies (lower_byte(#[trigger] h[start + j]) == lower_byte(
                n[j],
            )) == (lower_byte(lh[start + j]) == lower_byte(ln[j])) by {
                lemma_lower_byte_idempotent(h[start + j]);
                lemma_lower_byte_idempotent(n[j]);
            }
            if window_matches(lh, ln, start) {
                assert forall|j: int| 0 <= j < n.len() implies lower_byte(#[trigger] h[start + j]) == lower_byte(
                    n[j],
                ) by {
                    assert(lower_byte(lh[start + j]) == lower_byte(ln[j]));
                }
            }
        }
    }
    if contains_ci(h, n) {
        let w = choose|w: int| window_matches(h, n, w);
        assert(window_matches(lh, ln, w));
    }
    if contains_ci(lh, ln) {
        let w = choose|w: int| window_matches(lh, ln, w);
        assert(window_matches(h, n, w));
    }
}

/// The process score ignores ASCII case throughout: a name and a query
/// score the same as their lower-cased forms, so `NetworkManager` ends with
/// `manager` as much as `networkmanager` does.
pub proof fn law_score_ignores_case(name: Seq<u8>, query: Seq<u8>)
    ensures
        name_score(name, query) == name_score(lower_bytes(name), lower_bytes(query)),
{
    let ln = lower_bytes(name);
    let lq = lower_bytes(query);
    let len = name.len();
    let qlen = query.len();
    lemma_eq_ci_lower(name, query);
    lemma_contains_ci_lower(name, query);
    if len > qlen {
        assert(lower_bytes(name.skip(len - qlen)) == ln.skip(len - qlen));
        assert(lower_bytes(name.take(qlen as int)) == ln.take(qlen as int));
        lemma_eq_ci_lower(name.skip(len - qlen), query);
        lemma_eq_ci_lower(name.take(qlen as int), query);
    }
}

/// A name that ends with the query, ignoring ASCII case, scores 50000
/// unless it equals the query ignoring case.
pub proof fn law_suffix_match_ignores_case(name: Seq<u8>, query: Seq<u8>)
    requires
        name.len() > query.len(),
        lower_bytes(name.skip(name.len() - query.len())) == lower_bytes(query),
    ensures
        name_score(name, query) == 50000,
{
    let t = name.skip(name.len() - query.len());
    assert forall|j: int| 0 <= j < t.len() implies lower_byte(#[trigger] t[j]) == lower_byte(query[j]) by {
        assert(lower_bytes(t)[j] == lower_bytes(query)[j]);
    }
}

/// Matching helpers for the process search.
pub struct PathSearchUtils;

impl PathSearchUtils {
    /// `needle` occurs in `haystack`, ignoring ASCII case; the empty needle occurs
    /// everywhere.
    pub fn bytes_contain_ci(haystack: &[u8], needle: &[u8]) -> (r: bool)
        ensures
            r == contains_ci(haystack@, needle@),
    {
        CiUtils::bytes_contain_ci(haystack, needle)
    }

    /// The score of `name_bytes` against `query`, ignoring ASCII case.
    pub fn score_ci(name_bytes: &[u8], query: &[u8]) -> (r: u32)
        ensures
            r == name_score(name_bytes@, query@),
            r <= 800000,
    {
        let len = name_bytes.len();
        let qlen = query.len();
        let eq = len == qlen && CiUtils::bytes_eq_ci(name_bytes, query);
        if eq {
            return 0;
        }
        if len > qlen {
            let tail = vstd::slice::slice_subrange(name_bytes, len - qlen, len);
            assert(tail@ == name_bytes@.skip(len - qlen));
            if CiUtils::bytes_eq_ci(tail, query) {
                return 50000;
            }
            let head = vstd::slice::slice_subrange(name_bytes, 0, qlen);
            assert(head@ == name_bytes@.take(qlen as int));
            if CiUtils::bytes_eq_ci(head, query) {
                let uncovered: u128 = (len - qlen) as u128;
                let whole: u128 = len as u128;
                proof {
                    assert(100000 * uncovered <= 100000 * whole) by (nonlinear_arith)
                        requires
                            uncovered <= whole,
                    ;
                    assert((100000 * uncovered) / (whole as int) <= 100000) by (nonlinear_arith)
                        requires
                            uncovered <= whole,
                            whole > 0,
                    ;
                }
                let part: u128 = (100000 * uncovered) / whole;
                return (100000 + part) as u32;
            }
        }
        if CiUtils::bytes_contain_ci(name_bytes, query) {
            return 400000;
        }
        800000
    }
}

/// One process found while searching, scored against the query.
pub struct ProcessResult {
    pub name: String,
    pub pid: i32,
    pub ppid: i32,
    /// Match score in millionths, lower is better.
    pub score: u32,
}

impl Clone for ProcessResult {
    fn clone(&self) -> (r: Self)
        ensures
            r == *self,
    {
        ProcessResult { name: self.name.clone(), pid: self.pid, ppid: self.ppid, score: self.score }
    }
}

/// The list runs from the worst result to the best: scores never increase
/// along `s`, so the worst result sits at index 0, where it is evicted.
pub open spec fn worst_first(s: Seq<ProcessResult>) -> bool {
    forall|i: int, j: int| 0 <= i <= j < s.len() ==> #[trigger] s[i].score >= #[trigger] s[j].score
}

/// The number of leading entries of `s` whose score is at least `score`:
/// where a new entry with that score goes, after the entries that score no
/// better.
pub open spec fn slot_of(s: Seq<ProcessResult>, score: u32) -> int
    decreases s.len(),
{
    if s.len() == 0 {
        0
    } else if s[0].score >= score {
        1 + slot_of(s.drop_first(), score)
    } else {
        0
    }
}

/// `r` put into the worst-first list `s` after every entry that scores no
/// better.
pub open spec fn insert_sorted(s: Seq<ProcessResult>, r: ProcessResult) -> Seq<ProcessResult> {
    s.insert(slot_of(s, r.score), r)
}

/// What offering `r` to a result list `s` holding at most `cap` entries
/// gives: the new list and whether `r` went in. Below capacity it always
/// goes in; at capacity it replaces the worst entry (index 0) when it
/// scores strictly better.
pub open spec fn heap_push(s: Seq<ProcessResult>, cap: nat, r: ProcessResult) -> (Seq<ProcessResult>, bool) {
    if s.len() < cap {
        (insert_sorted(s, r), true)
    } else if s.len() > 0 && r.score < s[0].score {
        (insert_sorted(s.drop_first(), r), true)
    } else {
        (s, false)
    }
}

proof fn lemma_worst_first_tail(s: Seq<ProcessResult>)
    requires
        worst_first(s),
        s.len() > 0,
    ensures
        worst_first(s.drop_first()),
        forall|j: int| 0 <= j < s.len() ==> #[trigger] s[j].score <= s[0].score,
{
    let t = s.drop_first();
    assert forall|i: int, j: int| 0 <= i <= j < t.len() implies #[trigger] t[i].score
        >= #[trigger] t[j].score by {
        assert(s[i + 1].score >= s[j + 1].score);
    }
    assert forall|j: int| 0 <= j < s.len() implies #[trigger] s[j].score <= s[0].score by {
        assert(s[0].score >= s[j].score);
    }
}

proof fn lemma_slot_of(s: Seq<ProcessResult>, score: u32)
    requires
        worst_first(s),
    ensures
        0 <= slot_of(s, score) <= s.len(),
        forall|j: int| 0 <= j < slot_of(s, score) ==> #[trigger] s[j].score >= score,
        forall|j: int| slot_of(s, score) <= j < s.len() ==> #[trigger] s[j].score < score,
    decreases s.len(),
{
    if s.len() > 0 {
        let t = s.drop_first();
        lemma_worst_first_tail(s);
        lemma_slot_of(t, score);
        if s[0].score >= score {
            assert forall|j: int| 0 <= j < slot_of(s, score) implies #[trigger] s[j].score >= score by {
                if j > 0 {
                    assert(s[j] == t[j - 1]);
                }
            }
            assert forall|j: int| slot_of(s, score) <= j < s.len() implies #[trigger] s[j].score
                < score by {
                assert(s[j] == t[j - 1]);
            }
        }
    }
}

proof fn lemma_insert_sorted(s: Seq<ProcessResult>, r: ProcessResult)
    requires
        worst_first(s),
    ensures
        worst_first(insert_sorted(s, r)),
        insert_sorted(s, r).len() == s.len() + 1,
        insert_sorted(s, r).to_multiset() == s.to_multiset().insert(r),
{
    lemma_slot_of(s, r.score);
    let k = slot_of(s, r.score);
    let t = insert_sorted(s, r);
    vstd::seq_lib::to_multiset_insert(s, k, r);
    assert forall|i: int, j: int| 0 <= i <= j < t.len() implies #[trigger] t[i].score
        >= #[trigger] t[j].score by {
        if i < k && j > k {
            assert(t[i] == s[i]);
            assert(t[j] == s[j - 1]);
            assert(s[i].score >= s[j - 1].score);
        } else if j > k {
            assert(t[j] == s[j - 1]);
        } else if i < k {
            assert(t[i] == s[i]);
        }
    }
}

proof fn lemma_insert_sorted_members(t: Seq<ProcessResult>, r: ProcessResult, i: int)
    requires
        0 <= i < insert_sorted(t, r).len(),
        0 <= slot_of(t, r.score) <= t.len(),
    ensures
        insert_sorted(t, r)[i] == r || exists|j: int| 0 <= j < t.len() && insert_sorted(t, r)[i] == t[j],
{
    let k = slot_of(t, r.score);
    if i < k {
        assert(insert_sorted(t, r)[i] == t[i]);
    } else if i > k {
        assert(insert_sorted(t, r)[i] == t[i - 1]);
    }
}

/// Offering a result to a worst-first list keeps the best ones: a result
/// is turned away only when the list is full of results that score at
/// least as well, and an eviction removes the entry at index 0, which
/// scores no better than anything left in the list.
pub proof fn law_push_keeps_best(s: Seq<ProcessResult>, cap: nat, r: ProcessResult)
    requires
        s.len() <= cap,
        worst_first(s),
    ensures
        !heap_push(s, cap, r).1 ==> s.len() == cap && forall|i: int|
            0 <= i < s.len() ==> #[trigger] s[i].score <= r.score,
        heap_push(s, cap, r).1 && s.len() == cap ==> forall|i: int|
            0 <= i < heap_push(s, cap, r).0.len() ==> #[trigger] heap_push(s, cap, r).0[i].score
                <= s[0].score,
        heap_push(s, cap, r).0.len() <= cap,
        worst_first(heap_push(s, cap, r).0),
{
    lemma_insert_sorted(s, r);
    if s.len() > 0 {
        lemma_worst_first_tail(s);
    }
    if s.len() == cap && s.len() > 0 && r.score < s[0].score {
        let t = s.drop_first();
        lemma_insert_sorted(t, r);
        lemma_slot_of(t, r.score);
        let k = slot_of(t, r.score);
        let u = insert_sorted(t, r);
        assert forall|i: int| 0 <= i < u.len() implies #[trigger] u[i].score <= s[0].score by {
            if i < k {
                assert(u[i] == t[i]);
            } else if i > k {
                assert(u[i] == t[i - 1]);
            }
        }
    }
}

/// Offering `rs` in order to the list `s` of capacity `cap`: the results
/// kept, and those turned away or evicted on the way.
pub open spec fn offer_all(s: Seq<ProcessResult>, cap: nat, rs: Seq<ProcessResult>) -> (
    Seq<ProcessResult>,
    Seq<ProcessResult>,
)
    decreases rs.len(),
{
    if rs.len() == 0 {
        (s, Seq::empty())
    } else {
        let (kept, dropped) = offer_all(s, cap, rs.drop_last());
        let r = rs.last();
        let (next, inserted) = heap_push(kept, cap, r);
        if !inserted {
            (next, dropped.push(r))
        } else if kept.len() == cap {
            (next, dropped.push(kept[0]))
        } else {
            (next, dropped)
        }
    }
}

/// The smaller of `a` and `b`.
pub open spec fn min_nat(a: nat, b: nat) -> nat {
    if a <= b {
        a
    } else {
        b
    }
}

/// The list keeps the best results offered. Nothing is lost or invented:
/// the results kept and those turned away or evicted are, together, the
/// ones that were in the list and the ones offered. As many are kept as fit
/// (the capacity, or all of them), every result kept scores at least as
/// well as every result dropped, and the list stays worst first.
pub proof fn law_keeps_the_best(s: Seq<ProcessResult>, cap: nat, rs: Seq<ProcessResult>)
    requires
        s.len() <= cap,
        worst_first(s),
    ensures
        worst_first(offer_all(s, cap, rs).0),
        offer_all(s, cap, rs).0.to_multiset().add(offer_all(s, cap, rs).1.to_multiset())
            == s.to_multiset().add(rs.to_multiset()),
        offer_all(s, cap, rs).0.len() == min_nat(s.len() + rs.len(), cap),
        offer_all(s, cap, rs).1.len() > 0 ==> offer_all(s, cap, rs).0.len() == cap,
        forall|i: int, j: int|
            0 <= i < offer_all(s, cap, rs).0.len() && 0 <= j < offer_all(s, cap, rs).1.len()
                ==> #[trigger] offer_all(s, cap, rs).0[i].score <= #[trigger] offer_all(
                s,
                cap,
                rs,
            ).1[j].score,
    decreases rs.len(),
{
    broadcast use vstd::multiset::group_multiset_axioms;

    if rs.len() == 0 {
        vstd::seq_lib::to_multiset_len(rs);
        vstd::multiset::lemma_multiset_empty_len(rs.to_multiset());
        let e = Seq::<ProcessResult>::empty();
        vstd::seq_lib::to_multiset_len(e);
        vstd::multiset::lemma_multiset_empty_len(e.to_multiset());
        assert(s.to_multiset().add(Multiset::empty()) =~= s.to_multiset());
    } else {
        law_keeps_the_best(s, cap, rs.drop_last());
        let (kept, dropped) = offer_all(s, cap, rs.drop_last());
        let r = rs.last();
        let (next, inserted) = heap_push(kept, cap, r);
        law_push_keeps_best(kept, cap, r);
        let (k2, d2) = offer_all(s, cap, rs);
        assert(rs.drop_last().push(r) == rs);
        vstd::seq_lib::to_multiset_build(rs.drop_last(), r);
        let m_old = s.to_multiset().add(rs.drop_last().to_multiset());
        assert(s.to_multiset().add(rs.to_multiset()) =~= m_old.insert(r));
        if !inserted {
            vstd::seq_lib::to_multiset_build(dropped, r);
            assert(k2.to_multiset().add(d2.to_multiset()) =~= m_old.insert(r));
            assert forall|i: int, j: int| 0 <= i < k2.len() && 0 <= j < d2.len() implies #[trigger] k2[i].score
                <= #[trigger] d2[j].score by {
                if j < dropped.len() {
                    assert(d2[j] == dropped[j]);
                }
            }
        } else if kept.len() == cap {
            let t = kept.drop_first();
            lemma_worst_first_tail(kept);
            lemma_insert_sorted(t, r);
            lemma_slot_of(t, r.score);
            assert(t == kept.remove(0));
            vstd::seq_lib::to_multiset_remove(kept, 0);
            vstd::seq_lib::to_multiset_build(dropped, kept[0]);
            assert(kept.to_multiset().remove(kept[0]).insert(kept[0]) =~= kept.to_multiset()) by {
                vstd::seq_lib::to_multiset_contains(kept, kept[0]);
            }
            assert(k2.to_multiset().add(d2.to_multiset()) =~= m_old.insert(r));
            assert forall|i: int, j: int| 0 <= i < k2.len() && 0 <= j < d2.len() implies #[trigger] k2[i].score
                <= #[trigger] d2[j].score by {
                if j < dropped.len() {
                    assert(d2[j] == dropped[j]);
                    lemma_insert_sorted_members(t, r, i);
                    if k2[i] != r {
                        let w = choose|w: int| 0 <= w < t.len() && k2[i] == t[w];
                        assert(k2[i] == kept[w + 1]);
                    } else {
                        assert(r.score < kept[0].score);
                    }
                }
            }
        } else {
            assert(dropped.len() == 0);
            lemma_insert_sorted(kept, r);
            assert(k2.to_multiset().add(d2.to_multiset()) =~= m_old.insert(r));
        }
    }
}

/// One more `push` continues the fold: pushing `r` onto the list that
/// offering `rs` left gives the list that offering `rs` and then `r` leaves.
/// So the lists that `ResultHeap::push`, called once per result, produces
/// are those of `offer_all`.
pub proof fn law_push_continues_offer_all(
    s: Seq<ProcessResult>,
    cap: nat,
    rs: Seq<ProcessResult>,
    r: ProcessResult,
)
    ensures
        heap_push(offer_all(s, cap, rs).0, cap, r).0 == offer_all(s, cap, rs.push(r)).0,
{
    assert(rs.push(r).drop_last() == rs);
}

/// Pushing `rs` one by one into a new list of capacity `k` keeps the
/// `min(n, k)` best of them: as many as fit are kept, the kept and the
/// dropped results together are exactly those offered, and every kept result
/// scores at most what any dropped one scores.
pub proof fn law_pushes_keep_k_best(k: nat, rs: Seq<ProcessResult>)
    ensures
        offer_all(Seq::empty(), k, rs).0.len() == min_nat(rs.len(), k),
        offer_all(Seq::empty(), k, rs).0.to_multiset().add(offer_all(Seq::empty(), k, rs).1.to_multiset())
            == rs.to_multiset(),
        forall|i: int, j: int|
            0 <= i < offer_all(Seq::empty(), k, rs).0.len() && 0 <= j < offer_all(Seq::empty(), k, rs).1.len()
                ==> #[trigger] offer_all(Seq::empty(), k, rs).0[i].score <= #[trigger] offer_all(
                Seq::empty(),
                k,
                rs,
            ).1[j].score,
{
    broadcast use vstd::multiset::group_multiset_axioms;

    let e = Seq::<ProcessResult>::empty();
    law_keeps_the_best(e, k, rs);
    vstd::seq_lib::to_multiset_len(e);
    vstd::multiset::lemma_multiset_empty_len(e.to_multiset());
    assert(e.to_multiset().add(rs.to_multiset()) =~= rs.to_multiset());
}

/// Where a result scoring `score` goes in `buf`: after every entry that
/// scores no better.
fn slot_index(buf: &Vec<ProcessResult>, score: u32) -> (k: usize)
    ensures
        k == slot_of(buf@, score),
{
    let ghost s = buf@;
    let mut i: usize = 0;
    assert(s.skip(0) == s);
    while i < buf.len() && buf[i].score >= score
        invariant
            buf@ == s,
            i <= s.len(),
            slot_of(s, score) == i + slot_of(s.skip(i as int), score),
        decreases s.len() - i,
    {
        assert(s.skip(i as int).drop_first() == s.skip(i + 1));
        i = i + 1;
    }
    proof {
        if i < s.len() {
            assert(s.skip(i as int)[0] == s[i as int]);
        }
    }
    i
}

/// A list of at most `capacity` results kept sorted by score, worst first,
/// so that the worst result sits at index 0 for eviction.
pub struct ResultHeap {
    buf: Vec<ProcessResult>,
    capacity: usize,
}

impl ResultHeap {
    /// The results held, worst first.
    pub closed spec fn items(&self) -> Seq<ProcessResult> {
        self.buf@
    }

    /// How many results the list keeps at most.
    pub closed spec fn limit(&self) -> nat {
        self.capacity as nat
    }

    /// The list holds no more than its limit, worst first.
    pub open spec fn wf(&self) -> bool {
        &&& self.items().len() <= self.limit()
        &&& worst_first(self.items())
    }

    #[verifier::type_invariant]
    spec fn within_limit_and_sorted(&self) -> bool {
        self.buf@.len() <= self.capacity && worst_first(self.buf@)
    }

    /// An empty list that keeps at most `capacity` results.
    pub fn new(capacity: usize) -> (h: Self)
        ensures
            h.wf(),
            h.items() == Seq::<ProcessResult>::empty(),
            h.limit() == capacity,
    {
        ResultHeap { buf: Vec::with_capacity(capacity), capacity }
    }

    /// Offers `result` to the list; returns whether it was kept.
    pub fn push(&mut self, result: ProcessResult) -> (inserted: bool)
        ensures
            old(self).wf(),
            final(self).wf(),
            final(self).limit() == old(self).limit(),
            (final(self).items(), inserted) == heap_push(old(self).items(), old(self).limit(), result),
    {
        proof {
            use_type_invariant(&*self);
            lemma_insert_sorted(self.buf@, result);
            lemma_slot_of(self.buf@, result.score);
        }
        let mut buf: Vec<ProcessResult> = Vec::new();
        std::mem::swap(&mut buf, &mut self.buf);
        if buf.len() < self.capacity {
            let k = slot_index(&buf, result.score);
            buf.insert(k, result);
            self.buf = buf;
            return true;
        }
        if buf.len() > 0 && result.score < buf[0].score {
            let ghost old_buf = buf@;
            let _ = buf.remove(0);
            proof {
                assert(buf@ == old_buf.drop_first());
                lemma_worst_first_tail(old_buf);
                lemma_insert_sorted(buf@, result);
                lemma_slot_of(buf@, result.score);
            }
            let k = slot_index(&buf, result.score);
            buf.insert(k, result);
            self.buf = buf;
            return true;
        }
        self.buf = buf;
        false
    }

    /// A copy of the results held, worst first.
    pub fn snapshot(&self) -> (r: Vec<ProcessResult>)
        ensures
            r@ == self.items(),
    {
        let mut out: Vec<ProcessResult> = Vec::new();
        let mut i: usize = 0;
        while i < self.buf.len()
            invariant
                i <= self.buf@.len(),
                out@ == self.buf@.take(i as int),
            decreases self.buf@.len() - i,
        {
            out.push(self.buf[i].clone());
            assert(self.buf@.take(i + 1) == self.buf@.take(i as int).push(self.buf@[i as int]));
            i = i + 1;
        }
        assert(self.buf@.take(i as int) == self.buf@);
        out
    }
}

/// What the search reads of one process from the process table.
pub struct ProcStat {
    pub pid: i32,
    pub ppid: i32,
    /// The controlling terminal; 0 when there is none.
    pub tty_nr: i32,
    /// The file name of the executable, where it could be read.
    pub name: Option<String>,
}

/// Executable names by pid; of two entries with one pid the later wins.
pub open spec fn names_of(procs: Seq<ProcStat>) -> Map<i32, String>
    decreases procs.len(),
{
    if procs.len() == 0 {
        Map::empty()
    } else {
        let m = names_of(procs.drop_last());
        let p = procs.last();
        match p.name {
            Some(n) => m.insert(p.pid, n),
            None => m,
        }
    }
}

/// The links from a parent to the child that stands for it, updated by a
/// process that is not a direct child of init. A process on a terminal
/// hands the child that stands for it on to its own parent; any other
/// process becomes the stand-in of its parent unless the parent has one.
pub open spec fn link_step(links: Map<i32, i32>, p: ProcStat) -> Map<i32, i32> {
    if p.tty_nr != 0 && links.contains_key(p.pid) {
        links.remove(p.pid).insert(p.ppid, links[p.pid])
    } else if links.contains_key(p.ppid) {
        links
    } else {
        links.insert(p.ppid, p.pid)
    }
}

/// One step of the walk over the process table, newest process first. A
/// direct child of init (`ppid == 1`) yields the executable name of its
/// stand-in (itself if it has none), if that name is still unused, as
/// `(stand-in pid, pid, name)`; the name is then used up.
pub open spec fn walk_step(names: Map<i32, String>, links: Map<i32, i32>, p: ProcStat) -> (
    Map<i32, String>,
    Map<i32, i32>,
    Option<(i32, i32, String)>,
) {
    if p.ppid == 1 {
        let named = if links.contains_key(p.pid) {
            links[p.pid]
        } else {
            p.pid
        };
        if names.contains_key(named) {
            (names.remove(named), links, Some((named, p.pid, names[named])))
        } else {
            (names, links, None)
        }
    } else {
        (names, link_step(links, p), None)
    }
}

/// The names and links after the walk has visited the last `n` entries of
/// `procs`, last entry first.
pub open spec fn walk_state(procs: Seq<ProcStat>, n: nat) -> (Map<i32, String>, Map<i32, i32>)
    decreases n,
{
    if n == 0 {
        (names_of(procs), Map::empty())
    } else {
        let prev = walk_state(procs, (n - 1) as nat);
        let next = walk_step(prev.0, prev.1, procs[procs.len() - n]);
        (next.0, next.1)
    }
}

/// The process the walk yields at its `n`-th step (counting from 1).
pub open spec fn walk_found(procs: Seq<ProcStat>, n: nat) -> Option<(i32, i32, String)> {
    let prev = walk_state(procs, (n - 1) as nat);
    walk_step(prev.0, prev.1, procs[procs.len() - n]).2
}

/// The result list after the first `n` steps of the walk: each process
/// yielded whose name contains `query` (ASCII case-insensitively) is offered
/// with its score, as `ProcessResult { pid: stand-in, ppid: pid, .. }`.
pub open spec fn walk_results(
    procs: Seq<ProcStat>,
    query: Seq<u8>,
    start: Seq<ProcessResult>,
    cap: nat,
    n: nat,
) -> Seq<ProcessResult>
    decreases n,
{
    if n == 0 {
        start
    } else {
        let prev = walk_results(procs, query, start, cap, (n - 1) as nat);
        match walk_found(procs, n) {
            Some((named, pid, name)) => {
                let bytes = encode_utf8(name@);
                if contains_ci(bytes, query) {
                    heap_push(
                        prev,
                        cap,
                        ProcessResult { name, pid: named, ppid: pid, score: name_score(bytes, query) },
                    ).0
                } else {
                    prev
                }
            },
            None => prev,
        }
    }
}

proof fn lemma_names_shrink(procs: Seq<ProcStat>, m: nat, n: nat)
    requires
        m <= n <= procs.len(),
    ensures
        walk_state(procs, n).0.dom().subset_of(walk_state(procs, m).0.dom()),
    decreases n,
{
    if m < n {
        lemma_names_shrink(procs, m, (n - 1) as nat);
    }
}

/// The walk uses each executable name at most once: two steps that both
/// yield a process report different stand-in pids.
pub proof fn law_walk_names_used_once(procs: Seq<ProcStat>, a: nat, b: nat)
    requires
        1 <= a < b <= procs.len(),
        walk_found(procs, a) is Some,
        walk_found(procs, b) is Some,
    ensures
        walk_found(procs, a).unwrap().0 != walk_found(procs, b).unwrap().0,
{
    let named_a = walk_found(procs, a).unwrap().0;
    let named_b = walk_found(procs, b).unwrap().0;
    assert(!walk_state(procs, a).0.dom().contains(named_a));
    lemma_names_shrink(procs, a, (b - 1) as nat);
    assert(walk_state(procs, (b - 1) as nat).0.dom().contains(named_b));
}

#[verifier::external_type_specification]
#[verifier::external_body]
#[verifier::reject_recursive_types(T)]
pub struct ExReceiver<T>(tokio::sync::mpsc::Receiver<T>);

/// Calls `tokio::sync::mpsc::Receiver::try_recv` and tells whether a
/// message was taken. Whether one was waiting depends on other tasks, so
/// nothing is stated of the result.
#[verifier::external_body]
fn take_message(rx: &mut Receiver<()>) -> bool {
    rx.try_recv().is_ok()
}

/// Calls `tokio::sync::mpsc::Receiver::is_closed`. Whether the senders are
/// gone depends on other tasks, so nothing is stated of the result.
#[verifier::external_body]
fn sender_gone(rx: &Receiver<()>) -> bool {
    rx.is_closed()
}

/// The process search that reads the process table itself.
pub struct InternalBackend;

impl InternalBackend {
    /// The backend's name.
    pub fn name(&self) -> (r: &'static str)
        ensures
            r@ == "internal"@,
    {
        "internal"
    }

    /// Walks `procs` (the process table in the order it was read) from the
    /// newest entry back, picks one named process per application and
    /// offers each whose name contains `query` (ignoring ASCII case) to `heap`.
    /// Before each step it checks `cancel_rx`: a message or a closed
    /// channel stops the walk, and `false` is returned. On `true` the walk
    /// went through the whole table.
    pub fn search(
        &self,
        procs: Vec<ProcStat>,
        query: &str,
        heap: &mut ResultHeap,
        cancel_rx: &mut Receiver<()>,
    ) -> (finished: bool)
        ensures
            final(heap).wf(),
            final(heap).limit() == old(heap).limit(),
            finished ==> final(heap).items() == walk_results(
                procs@,
                encode_utf8(query@),
                old(heap).items(),
                old(heap).limit(),
                procs@.len(),
            ),
            !finished ==> exists|n: nat|
                n < procs@.len() && final(heap).items() == #[trigger] walk_results(
                    procs@,
                    encode_utf8(query@),
                    old(heap).items(),
                    old(heap).limit(),
                    n,
                ),
    {
        broadcast use vstd::std_specs::hash::group_hash_axioms;

        proof {
            use_type_invariant(&*heap);
        }
        let ghost start = heap.items();
        let ghost cap = heap.limit();
        let qbytes = query.as_bytes();
        let mut names: HashMap<i32, String> = HashMap::new();
        let mut k: usize = 0;
        while k < procs.len()
            invariant
                k <= procs@.len(),
                names@ == names_of(procs@.take(k as int)),
            decreases procs@.len() - k,
        {
            assert(procs@.take(k + 1).drop_last() == procs@.take(k as int));
            match &procs[k].name {
                Some(n) => {
                    names.insert(procs[k].pid, n.clone());
                },
                None => {},
            }
            k = k + 1;
        }
        assert(procs@.take(k as int) == procs@);
        let mut links: HashMap<i32, i32> = HashMap::new();
        let len = procs.len();
        let mut n: usize = 0;
        while n < len
            invariant
                len == procs@.len(),
                n <= len,
                qbytes@ == encode_utf8(query@),
                names@ == walk_state(procs@, n as nat).0,
                links@ == walk_state(procs@, n as nat).1,
                heap.wf(),
                heap.limit() == cap,
                cap == old(heap).limit(),
                start == old(heap).items(),
                heap.items() == walk_results(procs@, qbytes@, start, cap, n as nat),
            decreases len - n,
        {
            if take_message(cancel_rx) || sender_gone(cancel_rx) {
                assert(heap.items() == walk_results(procs@, encode_utf8(query@), start, cap, n as nat));
                return false;
            }
            let p = &procs[len - 1 - n];
            let found: Option<(i32, i32, String)> = if p.ppid == 1 {
                let named = match links.get(&p.pid) {
                    Some(v) => *v,
                    None => p.pid,
                };
                match names.remove(&named) {
                    Some(name) => Some((named, p.pid, name)),
                    None => None,
                }
            } else {
                let mut handed = false;
                if p.tty_nr != 0 {
                    match links.remove(&p.pid) {
                        Some(r) => {
                            links.insert(p.ppid, r);
                            handed = true;
                        },
                        None => {},
                    }
                }
                if !handed && !links.contains_key(&p.ppid) {
                    links.insert(p.ppid, p.pid);
                }
                None
            };
            n = n + 1;
            assert(found == walk_found(procs@, n as nat));
            match found {
                Some((named, pid, name)) => {
                    let nb = name.as_str().as_bytes();
                    if CiUtils::bytes_contain_ci(nb, qbytes) {
                        let score = PathSearchUtils::score_ci(nb, qbytes);
                        let _ = heap.push(ProcessResult { name, pid: named, ppid: pid, score });
                    }
                },
                None => {},
            }
        }
        true
    }
}

} // verus!
