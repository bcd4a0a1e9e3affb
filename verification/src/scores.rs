//! Distances and scores of single precision, compared by their bit patterns.

use vstd::prelude::*;

verus! {

/// A number of single precision, held as its IEEE 754 bit pattern.
#[derive(Clone, Copy, Debug, PartialEq, Eq, Structural)]
pub struct Score {
    pub bits: u32,
}

impl Score {
    /// The bit pattern without the sign.
    pub open spec fn magnitude(self) -> int {
        if self.bits >= 0x8000_0000 {
            self.bits - 0x8000_0000
        } else {
            self.bits as int
        }
    }

    /// Not a number: an exponent of all ones, and a fraction that is not zero.
    pub open spec fn is_nan(self) -> bool {
        self.magnitude() > 0x7f80_0000
    }

    /// A whole number that orders numbers of single precision: the bit
    /// patterns of positive numbers grow with them. The two zeros are equal.
    pub open spec fn key(self) -> int {
        if self.bits >= 0x8000_0000 {
            -self.magnitude()
        } else {
            self.magnitude()
        }
    }

    /// `self < other`, which holds of no pair with a NaN.
    pub open spec fn lt(self, other: Score) -> bool {
        !self.is_nan() && !other.is_nan() && self.key() < other.key()
    }

    /// `self <= other`, which holds of no pair with a NaN.
    pub open spec fn le(self, other: Score) -> bool {
        !self.is_nan() && !other.is_nan() && self.key() <= other.key()
    }

    fn ordering_key(&self) -> (r: Option<i64>)
        ensures
            match r {
                Some(k) => !self.is_nan() && k as int == self.key(),
                None => self.is_nan(),
            },
    {
        let negative: bool = self.bits >= 0x8000_0000;
        let magnitude: u32 = if negative {
            self.bits - 0x8000_0000
        } else {
            self.bits
        };
        if magnitude > 0x7f80_0000 {
            None
        } else if negative {
            Some(-(magnitude as i64))
        } else {
            Some(magnitude as i64)
        }
    }

    /// Whether `self < other`.
    pub fn less(&self, other: Score) -> (r: bool)
        ensures
            r == self.lt(other),
    {
        match (self.ordering_key(), other.ordering_key()) {
            (Some(a), Some(b)) => a < b,
            _ => false,
        }
    }

    /// Whether `self <= other`.
    pub fn at_most(&self, other: Score) -> (r: bool)
        ensures
            r == self.le(other),
    {
        match (self.ordering_key(), other.ordering_key()) {
            (Some(a), Some(b)) => a <= b,
            _ => false,
        }
    }
}

/// One.
pub open spec fn one() -> Score {
    Score { bits: 0x3f80_0000 }
}

/// The index of the smallest of the first `n` distances; of equal ones, the
/// first.
pub open spec fn nearest_of(distances: Seq<Score>, n: nat) -> int
    decreases n,
{
    if n <= 1 {
        0
    } else {
        let best = nearest_of(distances, (n - 1) as nat);
        if distances[n - 1].lt(distances[best]) {
            n - 1
        } else {
            best
        }
    }
}

/// The index of the smallest distance; of equal ones, the first.
pub fn nearest(distances: &Vec<Score>) -> (r: Option<usize>)
    ensures
        match r {
            Some(i) => i < distances@.len() && i as int == nearest_of(distances@, distances@.len()),
            None => distances@.len() == 0,
        },
{
    if distances.len() == 0 {
        return None;
    }
    let mut best: usize = 0;
    let mut i: usize = 1;
    while i < distances.len()
        invariant
            1 <= i <= distances@.len(),
            best < i,
            best as int == nearest_of(distances@, i as nat),
        decreases distances@.len() - i,
    {
        if distances[i].less(distances[best]) {
            best = i;
        }
        i += 1;
    }
    Some(best)
}

/// No distance is smaller than the smallest.
pub proof fn law_nearest_is_nearest(distances: Seq<Score>, n: nat, i: int)
    requires
        0 <= i < n <= distances.len(),
        forall|j: int| 0 <= j < n ==> !(#[trigger] distances[j]).is_nan(),
    ensures
        0 <= nearest_of(distances, n) < n,
        distances[nearest_of(distances, n)].le(distances[i]),
        distances[i].key() == distances[nearest_of(distances, n)].key() ==> nearest_of(distances, n)
            <= i,
    decreases n,
{
    assert(!distances[i].is_nan());
    if n > 1 {
        let m = (n - 1) as nat;
        if i < m {
            law_nearest_is_nearest(distances, m, i);
        } else {
            law_nearest_is_nearest(distances, m, 0);
        }
        assert(!distances[nearest_of(distances, m)].is_nan());
        assert(!distances[n - 1].is_nan());
    }
}

} // verus!
