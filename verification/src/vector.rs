//! Record identifiers and vectors.

use vstd::prelude::*;

verus! {

/// Identifier of a record: the position it was given in the slot table.
#[derive(Clone, Copy, Debug, PartialEq, Eq, Hash, Structural)]
pub struct VectorID(pub u32);

/// The number of the identifier that names no record. `VectorID(INVALID)`
/// pads neighbour lists and marks the slots of deleted records.
pub const INVALID: u32 = 0xFFFF_FFFF;

impl VectorID {
    /// Whether the identifier can name a record.
    pub open spec fn valid(self) -> bool {
        self.0 != INVALID
    }

    pub fn is_valid(&self) -> (r: bool)
        ensures
            r == self.valid(),
    {
        self.0 != INVALID
    }

    /// The identifier as an index into the slot table.
    pub fn index(&self) -> (r: usize)
        ensures
            r == self.0,
    {
        self.0 as usize
    }
}

/// A vector: its components as single-precision bit patterns.
#[derive(Debug)]
pub struct Vector(pub Vec<u32>);

impl View for Vector {
    type V = Seq<u32>;

    open spec fn view(&self) -> Seq<u32> {
        self.0@
    }
}

impl Clone for Vector {
    fn clone(&self) -> (r: Self)
        ensures
            r@ == self@,
    {
        Vector(self.0.clone())
    }
}

impl Vector {
    pub fn new(components: Vec<u32>) -> (r: Self)
        ensures
            r@ == components@,
    {
        Vector(components)
    }

    /// The number of components.
    pub fn len(&self) -> (r: usize)
        ensures
            r == self@.len(),
    {
        self.0.len()
    }

    pub fn is_empty(&self) -> (r: bool)
        ensures
            r == (self@.len() == 0),
    {
        self.0.len() == 0
    }

    /// The component at a position, if the vector has one there.
    pub fn get(&self, index: usize) -> (r: Option<u32>)
        ensures
            r == if index < self@.len() {
                Some(self@[index as int])
            } else {
                None
            },
    {
        if index < self.0.len() {
            Some(self.0[index])
        } else {
            None
        }
    }

    /// Whether the two vectors have the same components, bit for bit.
    pub fn same_bits(&self, other: &Vector) -> (r: bool)
        ensures
            r == (self@ == other@),
    {
        if self.0.len() != other.0.len() {
            return false;
        }
        let mut i: usize = 0;
        while i < self.0.len()
            invariant
                i <= self.0.len(),
                self.0.len() == other.0.len(),
                forall|j: int| 0 <= j < i ==> self.0[j] == other.0[j],
            decreases self.0.len() - i,
        {
            if self.0[i] != other.0[i] {
                return false;
            }
            i += 1;
        }
        assert(self@ =~= other@);
        true
    }

    /// The key under which the vector is found again: its components.
    pub fn to_hashkey(&self) -> (r: Vec<u32>)
        ensures
            r@ == self@,
    {
        self.0.clone()
    }
}

} // verus!
