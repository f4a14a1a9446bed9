//! The distance kernels: their names, which way each one orders, and how a
//! distance is ranked and held against a relevancy threshold.

use vstd::prelude::*;
use crate::bits::{at_most, exec_at_most, exec_is_nan, is_nan, ordinal, MINUS_ONE, SIGN};
use crate::err::Error;

verus! {

/// The distance function used for similarity calculations.
#[derive(Clone, Copy, Debug, PartialEq, Eq, Hash, Structural)]
pub enum Distance {
    /// Dot product: higher is nearer.
    Dot,
    /// Euclidean distance: lower is nearer.
    Euclidean,
    /// Cosine similarity: higher is nearer.
    Cosine,
}

/// The relevancy threshold that switches the filter off: the pattern of `-1.0`.
pub const RELEVANCY_DISABLED: u32 = MINUS_ONE;

impl Distance {
    /// The kernel that a name stands for, if any.
    pub open spec fn parse(name: Seq<char>) -> Option<Distance> {
        if name == "dot"@ {
            Some(Distance::Dot)
        } else if name == "euclidean"@ {
            Some(Distance::Euclidean)
        } else if name == "cosine"@ {
            Some(Distance::Cosine)
        } else {
            None
        }
    }

    /// Creates a distance function from its name: `dot`, `euclidean` or
    /// `cosine`. Any other name is an error.
    pub fn from(distance: &str) -> (r: Result<Distance, Error>)
        ensures
            r == match Distance::parse(distance@) {
                Some(d) => Ok::<Distance, Error>(d),
                None => Err::<Distance, Error>(Error::UnsupportedDistance),
            },
    {
        let name: String = distance.to_owned();
        if name == "dot".to_owned() {
            Ok(Distance::Dot)
        } else if name == "euclidean".to_owned() {
            Ok(Distance::Euclidean)
        } else if name == "cosine".to_owned() {
            Ok(Distance::Cosine)
        } else {
            Err(Error::UnsupportedDistance)
        }
    }

    pub open spec fn spec_name(self) -> Seq<char> {
        match self {
            Distance::Dot => "dot"@,
            Distance::Euclidean => "euclidean"@,
            Distance::Cosine => "cosine"@,
        }
    }

    /// The kernel's name, which `from` reads back.
    pub fn name(&self) -> (s: &'static str)
        ensures
            s@ == self.spec_name(),
            Distance::parse(s@) == Some(*self),
    {
        proof {
            lemma_name_reads_back(*self);
        }
        match self {
            Distance::Dot => "dot",
            Distance::Euclidean => "euclidean",
            Distance::Cosine => "cosine",
        }
    }

    /// Whether a lower distance means a nearer vector.
    pub open spec fn spec_lower_is_better(self) -> bool {
        self == Distance::Euclidean
    }

    pub fn lower_is_better(&self) -> (r: bool)
        ensures
            r == self.spec_lower_is_better(),
    {
        match self {
            Distance::Euclidean => true,
            _ => false,
        }
    }

    /// The place of a distance in the kernel's order: a smaller rank is
    /// nearer, whichever way the kernel orders. What is not a number ranks
    /// last.
    pub open spec fn spec_rank(self, distance: u32) -> int {
        if is_nan(distance) {
            0xFFFF_FFFF
        } else if self.spec_lower_is_better() {
            SIGN + ordinal(distance)
        } else {
            SIGN - ordinal(distance)
        }
    }

    pub fn rank(&self, distance: u32) -> (r: u32)
        ensures
            r == self.spec_rank(distance),
    {
        if exec_is_nan(distance) {
            return 0xFFFF_FFFFu32;
        }
        let negative: bool = distance >= SIGN;
        let m: u32 = if negative {
            distance - SIGN
        } else {
            distance
        };
        if self.lower_is_better() != negative {
            SIGN + m
        } else {
            SIGN - m
        }
    }

    /// Whether a distance passes the relevancy threshold: at most the
    /// threshold where lower is nearer, at least the threshold where higher
    /// is nearer. The threshold `-1.0` lets every distance pass.
    pub open spec fn spec_is_relevant(self, distance: u32, relevancy: u32) -> bool {
        relevancy == RELEVANCY_DISABLED || if self.spec_lower_is_better() {
            at_most(distance, relevancy)
        } else {
            at_most(relevancy, distance)
        }
    }

    pub fn is_relevant(&self, distance: u32, relevancy: u32) -> (r: bool)
        ensures
            r == self.spec_is_relevant(distance, relevancy),
    {
        if relevancy == RELEVANCY_DISABLED {
            true
        } else if self.lower_is_better() {
            exec_at_most(distance, relevancy)
        } else {
            exec_at_most(relevancy, distance)
        }
    }
}

/// A kernel's name reads back as that kernel: the three names differ.
pub proof fn lemma_name_reads_back(kind: Distance)
    ensures
        Distance::parse(kind.spec_name()) == Some(kind),
{
    reveal_strlit("dot");
    reveal_strlit("euclidean");
    reveal_strlit("cosine");
    assert("dot"@.len() == 3);
    assert("euclidean"@.len() == 9);
    assert("cosine"@.len() == 6);
}

/// Among numbers, a smaller rank is a nearer distance in the kernel's own
/// order.
pub proof fn lemma_rank_orders(kind: Distance, a: u32, b: u32)
    requires
        !is_nan(a),
        !is_nan(b),
    ensures
        kind.spec_lower_is_better() ==> (kind.spec_rank(a) <= kind.spec_rank(b) <==> at_most(a, b)),
        !kind.spec_lower_is_better() ==> (kind.spec_rank(a) <= kind.spec_rank(b) <==> at_most(b, a)),
{
}

/// A stricter threshold lets through nothing that a looser one holds back.
/// For a kernel where lower is nearer the stricter threshold is the lower
/// one, otherwise the higher one. The stricter threshold must not be the
/// value that switches the filter off.
pub proof fn lemma_relevancy_monotone(kind: Distance, strict: u32, loose: u32, distance: u32)
    requires
        strict != RELEVANCY_DISABLED,
        loose == RELEVANCY_DISABLED || if kind.spec_lower_is_better() {
            at_most(strict, loose)
        } else {
            at_most(loose, strict)
        },
        kind.spec_is_relevant(distance, strict),
    ensures
        kind.spec_is_relevant(distance, loose),
{
}

} // verus!
