//! The order in which search results are listed.

use std::cmp::Ordering;
use vstd::prelude::*;
use vstd::std_specs::cmp::PartialOrdSpecImpl;
use crate::scoring::{search_score, search_score_spec};

verus! {

/// A launcher's place in the list: its configured rank and how often it
/// was used.
pub struct Priority {
    pub base: u16,
    pub count: u16,
}

/// What results are sorted by: the launcher's rank, then how well the
/// result matches, then (the more the better) how often it was used.
#[derive(PartialEq, Eq, Structural, Clone, Copy, Debug)]
pub struct SortKey {
    pub base: u16,
    pub score: u16,
    pub count: u16,
}

/// `a` against `b` as integers.
pub open spec fn order_u16(a: u16, b: u16) -> Ordering {
    if a < b {
        Ordering::Less
    } else if a == b {
        Ordering::Equal
    } else {
        Ordering::Greater
    }
}

/// Lower `base` first; on a tie lower `score`; on a tie higher `count`.
pub open spec fn key_order(a: SortKey, b: SortKey) -> Ordering {
    if a.base != b.base {
        order_u16(a.base, b.base)
    } else if a.score != b.score {
        order_u16(a.score, b.score)
    } else {
        order_u16(b.count, a.count)
    }
}

impl Priority {
    /// The key of a result with this priority whose searchable text is
    /// `match_in`, for the query `query`.
    pub fn sort_key(self, query: &str, match_in: &str) -> (k: SortKey)
        ensures
            k.base == self.base,
            k.count == self.count,
            k.score == search_score_spec(query@, match_in@),
    {
        SortKey { base: self.base, score: search_score(query, match_in), count: self.count }
    }
}

fn order_of(a: u16, b: u16) -> (r: Ordering)
    ensures
        r == order_u16(a, b),
{
    if a < b {
        Ordering::Less
    } else if a == b {
        Ordering::Equal
    } else {
        Ordering::Greater
    }
}

impl SortKey {
    /// Compares two keys as `key_order` does.
    pub fn compare(&self, other: &Self) -> (r: Ordering)
        ensures
            r == key_order(*self, *other),
    {
        if self.base != other.base {
            order_of(self.base, other.base)
        } else if self.score != other.score {
            order_of(self.score, other.score)
        } else {
            order_of(other.count, self.count)
        }
    }
}

impl PartialOrd for SortKey {
    fn partial_cmp(&self, other: &Self) -> (r: Option<Ordering>) {
        Some(self.compare(other))
    }
}

impl PartialOrdSpecImpl for SortKey {
    open spec fn obeys_partial_cmp_spec() -> bool {
        true
    }

    open spec fn partial_cmp_spec(&self, other: &Self) -> Option<Ordering> {
        Some(key_order(*self, *other))
    }
}

/// Two keys compare equal exactly when they are the same key.
pub proof fn law_order_equal_iff_same(a: SortKey, b: SortKey)
    ensures
        (key_order(a, b) == Ordering::Equal) <==> a == b,
{
}

/// Swapping the keys reverses the order.
pub proof fn law_order_antisymmetric(a: SortKey, b: SortKey)
    ensures
        (key_order(a, b) == Ordering::Less) <==> (key_order(b, a) == Ordering::Greater),
{
}

/// The order is transitive.
pub proof fn law_order_transitive(a: SortKey, b: SortKey, c: SortKey)
    requires
        key_order(a, b) == Ordering::Less,
        key_order(b, c) == Ordering::Less,
    ensures
        key_order(a, c) == Ordering::Less,
{
}

} // verus!
