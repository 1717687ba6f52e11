//! Where a piece of syntax stands in its source file.
//!
//! A range that is not known compares equal to every range, so that a tree
//! written out by hand, with no positions, matches the tree that the parser
//! produced.

use std::cmp::Ordering;
use vstd::prelude::*;

verus! {

/// The byte offsets where a piece of syntax starts and ends, if known.
#[derive(Debug, Clone, Copy)]
pub enum Range {
    Unknown,
    Known(usize, usize),
}

/// Two ranges are equal when either one is unknown, or when both start and
/// end at the same offsets.
pub open spec fn ranges_equal(left: Range, right: Range) -> bool {
    match (left, right) {
        (Range::Known(left_from, left_to), Range::Known(right_from, right_to)) => {
            left_from == right_from && left_to == right_to
        },
        _ => true,
    }
}

/// Known ranges are ordered by their start, then by their end; an unknown
/// range is equal to every range.
pub open spec fn compare_ranges(left: Range, right: Range) -> Option<Ordering> {
    match (left, right) {
        (Range::Known(left_from, left_to), Range::Known(right_from, right_to)) => {
            if left_from < right_from {
                Some(Ordering::Less)
            } else if left_from > right_from {
                Some(Ordering::Greater)
            } else if left_to < right_to {
                Some(Ordering::Less)
            } else if left_to > right_to {
                Some(Ordering::Greater)
            } else {
                Some(Ordering::Equal)
            }
        },
        _ => Some(Ordering::Equal),
    }
}

impl PartialEq for Range {
    fn eq(&self, other: &Self) -> (r: bool) {
        match (self, other) {
            (Range::Known(left_from, left_to), Range::Known(right_from, right_to)) => {
                *left_from == *right_from && *left_to == *right_to
            },
            _ => true,
        }
    }
}

impl vstd::std_specs::cmp::PartialEqSpecImpl for Range {
    open spec fn obeys_eq_spec() -> bool {
        true
    }

    open spec fn eq_spec(&self, other: &Range) -> bool {
        ranges_equal(*self, *other)
    }
}

impl PartialOrd for Range {
    fn partial_cmp(&self, other: &Self) -> (r: Option<Ordering>) {
        match (self, other) {
            (Range::Known(left_from, left_to), Range::Known(right_from, right_to)) => {
                if *left_from < *right_from {
                    Some(Ordering::Less)
                } else if *left_from > *right_from {
                    Some(Ordering::Greater)
                } else if *left_to < *right_to {
                    Some(Ordering::Less)
                } else if *left_to > *right_to {
                    Some(Ordering::Greater)
                } else {
                    Some(Ordering::Equal)
                }
            },
            _ => Some(Ordering::Equal),
        }
    }
}

impl vstd::std_specs::cmp::PartialOrdSpecImpl for Range {
    open spec fn obeys_partial_cmp_spec() -> bool {
        true
    }

    open spec fn partial_cmp_spec(&self, other: &Range) -> Option<Ordering> {
        compare_ranges(*self, *other)
    }
}

/// Every range equals itself.
pub proof fn lemma_range_eq_reflexive(range: Range)
    ensures
        ranges_equal(range, range),
        compare_ranges(range, range) == Some(Ordering::Equal),
{
}

/// Equality of ranges does not depend on the order of the two sides, and the
/// comparison of two ranges is the reverse of the comparison the other way
/// round.
pub proof fn lemma_range_symmetric(left: Range, right: Range)
    ensures
        ranges_equal(left, right) == ranges_equal(right, left),
        compare_ranges(left, right) == Some(Ordering::Less) <==> compare_ranges(right, left) == Some(
            Ordering::Greater,
        ),
        compare_ranges(left, right) == Some(Ordering::Equal) <==> compare_ranges(right, left) == Some(
            Ordering::Equal,
        ),
{
}

/// Two ranges compare as equal exactly when they are equal, and every two
/// ranges can be compared.
pub proof fn lemma_range_compare_agrees_with_eq(left: Range, right: Range)
    ensures
        compare_ranges(left, right) is Some,
        compare_ranges(left, right) == Some(Ordering::Equal) <==> ranges_equal(left, right),
{
}

/// An unknown range equals every range.
pub proof fn lemma_unknown_range_equals_all(range: Range)
    ensures
        ranges_equal(Range::Unknown, range),
        ranges_equal(range, Range::Unknown),
{
}

/// Among known ranges, equality is transitive, and so is the order.
pub proof fn lemma_known_ranges_transitive(a: Range, b: Range, c: Range)
    requires
        a is Known,
        b is Known,
        c is Known,
    ensures
        ranges_equal(a, b) && ranges_equal(b, c) ==> ranges_equal(a, c),
        compare_ranges(a, b) == Some(Ordering::Less) && compare_ranges(b, c) == Some(Ordering::Less)
            ==> compare_ranges(a, c) == Some(Ordering::Less),
{
}

} // verus!
