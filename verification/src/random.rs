//! Random vectors and records, for trying the collection out.
//!
//! The random numbers come from `rand::random`. Each component is one of
//! the 2^24 evenly spaced single-precision values from 0 up to, and not
//! including, 1.

use vstd::prelude::*;
use vstd::arithmetic::power2::{lemma2_to64, lemma_pow2_adds, lemma_pow2_unfold, pow2};
use crate::bits::ONE;
use crate::collection::Record;
use crate::layers::{scale, significand, FRACTION};
use crate::metadata::Metadata;
use crate::vector::Vector;

verus! {

/// `rand::random::<u32>()`: any 32-bit number. It panics where the
/// operating system gives the thread's generator no seed.
#[verifier::external_body]
fn random_word() -> u32 {
    rand::random::<u32>()
}

/// `rand::random::<usize>()`: any number. It panics where the operating
/// system gives the thread's generator no seed.
#[verifier::external_body]
fn random_size() -> usize {
    rand::random::<usize>()
}

/// The pattern of the value `k / 2^24`.
pub fn unit_pattern(k: u32) -> (r: u32)
    requires
        k < 0x100_0000,
    ensures
        r < ONE,
        k == 0 ==> r == 0,
        k > 0 ==> significand(r) * pow2(24) == k * pow2(scale(r)),
{
    if k == 0 {
        return 0;
    }
    let mut m: u32 = k;
    let mut e: u32 = 126;
    let ghost mut s: nat = 0;
    proof {
        lemma2_to64();
    }
    while m < FRACTION
        invariant
            0 < m < 0x100_0000,
            m == k * pow2(s),
            e + s == 126,
            s <= 23,
            s == 23 ==> m >= FRACTION,
            pow2(s) * 1 <= m,
        decreases e,
    {
        proof {
            lemma_pow2_unfold(s + 1);
            assert(k * pow2(s + 1) == 2 * (k * pow2(s))) by (nonlinear_arith)
                requires
                    pow2(s + 1) == 2 * pow2(s),
            ;
            if s == 22 {
                lemma2_to64();
                assert(pow2(23) == 0x80_0000);
            }
        }
        m = m * 2;
        e = e - 1;
        proof {
            s = s + 1;
        }
    }
    let r: u32 = e * FRACTION + (m - FRACTION);
    proof {
        assert(r / FRACTION == e);
        assert(r % FRACTION == m - FRACTION);
        assert(significand(r) == m);
        assert(scale(r) == 24 + s);
        lemma_pow2_adds(24, s);
        assert(m * pow2(24) == k * pow2(24 + s)) by (nonlinear_arith)
            requires
                m == k * pow2(s),
                pow2(24 + s) == pow2(24) * pow2(s),
        ;
    }
    r
}

impl Vector {
    /// Generates a random vector: `dimension` values from 0 up to, and not
    /// including, 1.
    pub fn random(dimension: usize) -> (r: Vector)
        ensures
            r@.len() == dimension,
            forall|i: int| 0 <= i < dimension ==> (#[trigger] r@[i]) < ONE,
    {
        let mut components: Vec<u32> = Vec::new();
        let mut i: usize = 0;
        while i < dimension
            invariant
                i <= dimension,
                components@.len() == i,
                forall|j: int| 0 <= j < i ==> (#[trigger] components@[j]) < ONE,
            decreases dimension - i,
        {
            let word: u32 = random_word();
            components.push(unit_pattern(word / 256));
            i += 1;
        }
        Vector(components)
    }
}

impl Record {
    /// Generates a random record for testing: a random vector with a
    /// random number as its data.
    pub fn random(dimension: usize) -> (r: Record)
        ensures
            r.vector@.len() == dimension,
            r.data is Integer,
            forall|i: int| 0 <= i < dimension ==> (#[trigger] r.vector@[i]) < ONE,
    {
        let vector = Vector::random(dimension);
        let data = Metadata::Integer(random_size());
        Record { vector, data }
    }

    /// Generates many random records for testing.
    pub fn many_random(dimension: usize, len: usize) -> (r: Vec<Record>)
        ensures
            r@.len() == len,
            forall|i: int| 0 <= i < len ==> (#[trigger] r@[i]).vector@.len() == dimension,
            forall|i: int| 0 <= i < len ==> (#[trigger] r@[i]).data is Integer,
    {
        let mut records: Vec<Record> = Vec::new();
        let mut i: usize = 0;
        while i < len
            invariant
                i <= len,
                records@.len() == i,
                forall|j: int| 0 <= j < i ==> (#[trigger] records@[j]).vector@.len() == dimension,
                forall|j: int| 0 <= j < i ==> (#[trigger] records@[j]).data is Integer,
            decreases len - i,
        {
            records.push(Record::random(dimension));
            i += 1;
        }
        records
    }
}

} // verus!
