use vstd::prelude::*;

use crate::chance::random_usize;

verus! {

/// A point of a toy metric: distinct points lie 1 or 2 apart, by the parity
/// of the gap between their identifiers.
#[derive(Debug, Clone, Copy, PartialEq, Eq)]
pub struct DiscretePoint {
    pub identifier: usize,
}

/// The distance between points with identifiers `a` and `b`.
pub open spec fn discrete_distance(a: usize, b: usize) -> nat {
    if a == b {
        0
    } else if a > b {
        1 + ((a - b) as nat) % 2
    } else {
        1 + ((b - a) as nat) % 2
    }
}

impl DiscretePoint {
    pub fn new(identifier: usize) -> (r: Self)
        ensures
            r.identifier == identifier,
    {
        DiscretePoint { identifier }
    }

    /// The distance to `point`: 0 to itself, otherwise 1 where the gap
    /// between the identifiers is even and 2 where it is odd.
    pub fn distance_to(&self, point: &Self) -> (r: usize)
        ensures
            r == discrete_distance(self.identifier, point.identifier),
            r == discrete_distance(point.identifier, self.identifier),
            r <= 2,
    {
        if self.identifier == point.identifier {
            0
        } else if self.identifier > point.identifier {
            (self.identifier - point.identifier) % 2 + 1
        } else {
            (point.identifier - self.identifier) % 2 + 1
        }
    }
}

/// A point with a random identifier.
pub fn random_discrete_point() -> DiscretePoint {
    DiscretePoint::new(random_usize())
}

/// `n` points with random identifiers.
pub fn random_discrete_points(n: usize) -> (r: Vec<DiscretePoint>)
    ensures
        r.len() == n,
{
    let mut r: Vec<DiscretePoint> = Vec::new();
    let mut i: usize = 0;
    while i < n
        invariant
            i <= n,
            r.len() == i,
        decreases n - i,
    {
        r.push(random_discrete_point());
        i += 1;
    }
    r
}

} // verus!
