use std::cmp::Ordering;
use vstd::prelude::*;
use crate::puzzles::asteroids::{charted, precedes, spec_distance, Point, Target};

verus! {

/// How `a` stands to `b` under the laser: before it, with it or after it.
pub fn compare(a: &Target, b: &Target) -> (o: Ordering)
    ensures
        precedes(*a, *b) <==> o == Ordering::Less,
        precedes(*b, *a) <==> o == Ordering::Greater,
{
    if a.key < b.key {
        Ordering::Less
    } else if a.key > b.key {
        Ordering::Greater
    } else if a.angle < b.angle {
        Ordering::Less
    } else if a.angle > b.angle {
        Ordering::Greater
    } else if a.rank < b.rank {
        Ordering::Less
    } else if a.rank > b.rank {
        Ordering::Greater
    } else {
        Ordering::Equal
    }
}

/// Calls `sort_by` of the standard library's slices with `compare`.
/// Trusted: the sort keeps the elements and puts them in an order in which
/// none comes after one that it precedes, as the documentation of `sort_by`
/// says of a comparison that is a total order.
#[verifier::external_body]
pub(crate) fn sort_targets(targets: &mut Vec<Target>)
    ensures
        final(targets)@.to_multiset() == old(targets)@.to_multiset(),
        forall|i: int, j: int|
            0 <= i < j < final(targets)@.len() ==> !precedes(final(targets)@[j], final(targets)@[i]),
{
    targets.sort_by(|a, b| compare(a, b));
}

impl Point {
    /// Which of the two points is closer to `target`: `Less` when this one
    /// is, `Greater` when `other` is, `Equal` when they are as close.
    pub fn cmp_distance(&self, other: &Point, target: &Point) -> (o: Ordering)
        requires
            charted(*self),
            charted(*other),
            charted(*target),
        ensures
            spec_distance(*self, *target) < spec_distance(*other, *target) <==> o
                == Ordering::Less,
            spec_distance(*self, *target) > spec_distance(*other, *target) <==> o
                == Ordering::Greater,
    {
        let mine: i64 = self.distance(target);
        let theirs: i64 = other.distance(target);
        if mine < theirs {
            Ordering::Less
        } else if mine > theirs {
            Ordering::Greater
        } else {
            Ordering::Equal
        }
    }
}

} // verus!
