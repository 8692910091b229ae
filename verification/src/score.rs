//! A scored document and its orders.

use core::cmp::Ordering;
use vstd::prelude::*;

use crate::weight::Weight;

verus! {

/// A (score, offset) pair. Its order is reversed: the *lowest* score, and
/// among equal scores the lowest offset, is the greatest element, so that a
/// max-heap of scores keeps the document to be evicted next on top.
#[derive(Clone, Copy, Debug)]
pub struct Score {
    pub score: Weight,
    pub offset: u32,
}

impl Score {
    /// `self` is strictly worse than `other`: a lower score in the total
    /// order of scores, or the same score and a lower offset.
    pub open spec fn worse(self, other: Score) -> bool {
        ||| self.score.rank() < other.score.rank()
        ||| self.score.rank() == other.score.rank() && self.offset < other.offset
    }

    /// `self` comes strictly before `other` in a result list: a higher score,
    /// or the same score and a lower offset.
    pub open spec fn precedes(self, other: Score) -> bool {
        ||| self.score.rank() > other.score.rank()
        ||| self.score.rank() == other.score.rank() && self.offset < other.offset
    }

    /// The reversed order: the worse of two scores is the greater.
    pub open spec fn reversed_order(self, other: Score) -> Ordering {
        if self.worse(other) {
            Ordering::Greater
        } else if other.worse(self) {
            Ordering::Less
        } else {
            Ordering::Equal
        }
    }

    /// Whether `self` is strictly worse than `other`.
    pub fn is_worse(&self, other: &Score) -> (b: bool)
        ensures
            b == self.worse(*other),
    {
        let a: i64 = self.score.total_rank();
        let b: i64 = other.score.total_rank();
        a < b || (a == b && self.offset < other.offset)
    }

    /// The reversed order of the two scores.
    pub fn cmp(&self, other: &Score) -> (o: Ordering)
        ensures
            o == self.reversed_order(*other),
    {
        if self.is_worse(other) {
            Ordering::Greater
        } else if other.is_worse(self) {
            Ordering::Less
        } else {
            Ordering::Equal
        }
    }
}

/// Equality of the numbers, as IEEE 754 has it: a score that is a NaN is equal
/// to nothing, and the two zeros are equal.
impl PartialEq for Score {
    fn eq(&self, other: &Score) -> (b: bool) {
        self.score.equals(other.score) && self.offset == other.offset
    }
}

impl Eq for Score {

}

impl vstd::std_specs::cmp::PartialEqSpecImpl for Score {
    open spec fn obeys_eq_spec() -> bool {
        true
    }

    open spec fn eq_spec(&self, other: &Score) -> bool {
        self.score.numerically_equal(other.score) && self.offset == other.offset
    }
}

impl PartialOrd for Score {
    fn partial_cmp(&self, other: &Score) -> (o: Option<Ordering>) {
        Some(self.cmp(other))
    }
}

impl vstd::std_specs::cmp::PartialOrdSpecImpl for Score {
    open spec fn obeys_partial_cmp_spec() -> bool {
        true
    }

    open spec fn partial_cmp_spec(&self, other: &Score) -> Option<Ordering> {
        Some(self.reversed_order(*other))
    }
}

/// The reversed order is total, and it tells any two different scores apart.
pub proof fn law_reversed_order_is_total(a: Score, b: Score, c: Score)
    ensures
        a.reversed_order(b) == Ordering::Equal <==> a == b,
        a.reversed_order(b) == Ordering::Less <==> b.reversed_order(a) == Ordering::Greater,
        a.reversed_order(b) == Ordering::Less && b.reversed_order(c) == Ordering::Less
            ==> a.reversed_order(c) == Ordering::Less,
        a.reversed_order(b) == Ordering::Greater <==> a.score.rank() < b.score.rank() || (
        a.score.rank() == b.score.rank() && a.offset < b.offset),
        vstd::std_specs::cmp::PartialOrdSpec::partial_cmp_spec(&a, &b) == Some(
            a.reversed_order(b),
        ),
        a.worse(b) <==> a.reversed_order(b) == Ordering::Greater,
{
    crate::weight::lemma_value_follows_rank(a.score, b.score);
}

/// Two scores are equal when their numbers are and their offsets are.
pub proof fn law_equality_is_numeric(a: Score, b: Score)
    ensures
        vstd::std_specs::cmp::PartialEqSpec::eq_spec(&a, &b) <==> a.score.numerically_equal(
            b.score,
        ) && a.offset == b.offset,
{
}

} // verus!
