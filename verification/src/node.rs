//! The nodes of the graph: neighbour lists of fixed capacity.
//!
//! A list holds its neighbours packed to the left, nearest first, and is
//! padded with the invalid identifier.

use vstd::prelude::*;
use crate::vector::{VectorID, INVALID};

verus! {

/// The largest number of neighbours of a node above the base layer.
pub const M: usize = 32;

/// The largest number of neighbours of a node of the base layer: twice `M`.
pub const BASE_LINKS: usize = 64;

/// The first position from `from` on that holds no valid identifier, or the
/// length if there is none.
pub open spec fn run_end(s: Seq<VectorID>, from: int) -> int
    decreases s.len() - from,
{
    if from >= s.len() || !s[from].valid() {
        from
    } else {
        run_end(s, from + 1)
    }
}

/// The number of neighbours in a list: the entries before the first
/// invalid one.
pub open spec fn degree(s: Seq<VectorID>) -> int {
    run_end(s, 0)
}

/// The neighbours of a list, nearest first.
pub open spec fn neighbors(s: Seq<VectorID>) -> Seq<VectorID> {
    s.take(degree(s))
}

/// Nothing but padding follows the neighbours.
pub open spec fn packed(s: Seq<VectorID>) -> bool {
    forall|j: int| degree(s) <= j < s.len() ==> s[j] == VectorID(INVALID)
}

/// No neighbour is listed twice.
pub open spec fn distinct(s: Seq<VectorID>) -> bool {
    forall|i: int, j: int| 0 <= i < j < degree(s) ==> s[i] != s[j]
}

/// Every entry of `after` is `id` or an entry of `before`.
pub open spec fn stems_from(after: Seq<VectorID>, before: Seq<VectorID>, id: VectorID) -> bool {
    forall|j: int| 0 <= j < after.len() ==> (#[trigger] after[j]) == id || before.contains(after[j])
}

pub proof fn lemma_run_end(s: Seq<VectorID>, from: int)
    requires
        0 <= from <= s.len(),
    ensures
        from <= run_end(s, from) <= s.len(),
        forall|j: int| from <= j < run_end(s, from) ==> (#[trigger] s[j]).valid(),
        run_end(s, from) < s.len() ==> !s[run_end(s, from)].valid(),
    decreases s.len() - from,
{
    if from < s.len() && s[from].valid() {
        lemma_run_end(s, from + 1);
    }
}

pub proof fn lemma_run_end_is(s: Seq<VectorID>, from: int, k: int)
    requires
        0 <= from <= k <= s.len(),
        forall|j: int| from <= j < k ==> (#[trigger] s[j]).valid(),
        k < s.len() ==> !s[k].valid(),
    ensures
        run_end(s, from) == k,
    decreases k - from,
{
    if from < k {
        lemma_run_end_is(s, from + 1, k);
    }
}

/// What the degree of a list is: it bounds a run of valid entries that an
/// invalid entry or the end of the list follows.
pub proof fn lemma_degree(s: Seq<VectorID>)
    ensures
        0 <= degree(s) <= s.len(),
        forall|j: int| 0 <= j < degree(s) ==> (#[trigger] s[j]).valid(),
        degree(s) < s.len() ==> !s[degree(s)].valid(),
        neighbors(s).len() == degree(s),
{
    lemma_run_end(s, 0);
}

pub proof fn lemma_degree_is(s: Seq<VectorID>, k: int)
    requires
        0 <= k <= s.len(),
        forall|j: int| 0 <= j < k ==> (#[trigger] s[j]).valid(),
        k < s.len() ==> !s[k].valid(),
    ensures
        degree(s) == k,
{
    lemma_run_end_is(s, 0, k);
}

/// A neighbour list with room for `N` neighbours.
#[derive(Clone, Copy, Debug)]
pub struct Node<const N: usize>(pub [VectorID; N]);

/// A node of the base layer.
pub type BaseNode = Node<64>;

/// A node of a layer above the base.
pub type UpperNode = Node<32>;

impl<const N: usize> View for Node<N> {
    type V = Seq<VectorID>;

    open spec fn view(&self) -> Seq<VectorID> {
        self.0@
    }
}

impl<const N: usize> Node<N> {
    /// The node's neighbours, nearest first.
    pub open spec fn neighbors(&self) -> Seq<VectorID> {
        neighbors(self@)
    }

    /// The list is packed to the left and names no neighbour twice.
    pub open spec fn wf(&self) -> bool {
        packed(self@) && distinct(self@)
    }

    /// Whether a list takes `id` at `index`: the position is within the
    /// list's room and not behind its neighbours, and `id` is valid and not
    /// yet a neighbour.
    pub open spec fn takes(list: Seq<VectorID>, index: int, id: VectorID) -> bool {
        0 <= index < N && index <= list.len() && id.valid() && !list.contains(id)
    }

    /// A node without neighbours.
    pub fn new() -> (r: Self)
        ensures
            r.wf(),
            r.neighbors() == Seq::<VectorID>::empty(),
            forall|j: int| 0 <= j < N ==> r@[j] == VectorID(INVALID),
    {
        let r = Node([VectorID(INVALID);N]);
        proof {
            if N > 0 {
                lemma_degree_is(r@, 0);
            } else {
                lemma_degree(r@);
            }
            assert(r.neighbors() =~= Seq::<VectorID>::empty());
        }
        r
    }

    /// The number of neighbours.
    pub fn degree(&self) -> (r: usize)
        ensures
            r == degree(self@),
            r <= N,
    {
        let mut i: usize = 0;
        while i < N && self.0[i].is_valid()
            invariant
                i <= N,
                forall|j: int| 0 <= j < i ==> (#[trigger] self@[j]).valid(),
            decreases N - i,
        {
            i += 1;
        }
        proof {
            lemma_degree_is(self@, i as int);
        }
        i
    }

    /// The neighbour at a position.
    pub fn get(&self, index: usize) -> (r: VectorID)
        requires
            index < degree(self@),
        ensures
            r == self.neighbors()[index as int],
            r.valid(),
    {
        proof {
            lemma_degree(self@);
        }
        self.0[index]
    }

    /// Whether the identifier is among the neighbours.
    pub fn contains(&self, id: VectorID) -> (r: bool)
        ensures
            r == self.neighbors().contains(id),
    {
        proof {
            lemma_degree(self@);
        }
        let mut i: usize = 0;
        while i < N && self.0[i].is_valid()
            invariant
                i <= N,
                i <= degree(self@) <= N,
                degree(self@) < N ==> !self@[degree(self@)].valid(),
                forall|j: int| 0 <= j < i ==> (#[trigger] self@[j]).valid(),
                forall|j: int| 0 <= j < i ==> self@[j] != id,
            decreases N - i,
        {
            if self.0[i] == id {
                assert(self.neighbors()[i as int] == id);
                return true;
            }
            i += 1;
        }
        proof {
            lemma_degree_is(self@, i as int);
        }
        false
    }

    /// Puts a neighbour at a position and moves the later ones one place to
    /// the right. On a full list the last neighbour leaves. Nothing changes
    /// where the position lies behind the list or behind its room, where
    /// the identifier is invalid, or where it is a neighbour already.
    pub fn insert(&mut self, index: usize, id: VectorID)
        requires
            old(self).wf(),
        ensures
            final(self).wf(),
            Self::takes(old(self).neighbors(), index as int, id) ==> final(self).neighbors() == old(
                self,
            ).neighbors().insert(index as int, id).take(
                if degree(old(self)@) < N {
                    degree(old(self)@) + 1
                } else {
                    N as int
                },
            ),
            !Self::takes(old(self).neighbors(), index as int, id) ==> *final(self) == *old(self),
            stems_from(final(self).neighbors(), old(self).neighbors(), id),
    {
        proof {
            lemma_degree(self@);
        }
        assert forall|j: int| 0 <= j < self.neighbors().len() implies self.neighbors().contains(
            #[trigger] self.neighbors()[j],
        ) by {}
        if index >= N || index > self.degree() || !id.is_valid() || self.contains(id) {
            return ;
        }
        let ghost before = self@;
        let ghost deg = degree(before);
        proof {
            lemma_degree(before);
        }
        let mut j: usize = N - 1;
        while j > index
            invariant
                index <= j < N,
                self@.len() == N,
                before.len() == N,
                forall|k: int| 0 <= k <= j ==> self@[k] == before[k],
                forall|k: int| j < k < N ==> self@[k] == before[k - 1],
            decreases j,
        {
            let moved = self.0[j - 1];
            self.0[j] = moved;
            j -= 1;
        }
        self.0[index] = id;
        proof {
            let after = self@;
            let new_deg = if deg < N {
                deg + 1
            } else {
                N as int
            };
            assert forall|k: int| 0 <= k < new_deg implies (#[trigger] after[k]).valid() by {
                if k < index {
                    assert(after[k] == before[k]);
                } else if k > index {
                    assert(after[k] == before[k - 1]);
                }
            }
            lemma_degree_is(after, new_deg);
            let expected = neighbors(before).insert(index as int, id).take(new_deg);
            assert(neighbors(after) =~= expected);
            assert forall|k: int| 0 <= k < neighbors(after).len() implies (#[trigger] neighbors(
                after,
            )[k]) == id || neighbors(before).contains(neighbors(after)[k]) by {
                if k < index {
                    assert(neighbors(after)[k] == neighbors(before)[k]);
                } else if k > index {
                    assert(neighbors(after)[k] == neighbors(before)[k - 1]);
                }
            }
            assert forall|a: int, b: int| 0 <= a < b < new_deg implies after[a] != after[b] by {
                let pa = if a < index { a } else { a - 1 };
                let pb = if b < index { b } else { b - 1 };
                if a == index {
                    assert(neighbors(before)[pb] == before[pb]);
                } else if b == index {
                    assert(neighbors(before)[pa] == before[pa]);
                } else {
                    assert(before[pa] != before[pb]);
                }
            }
        }
    }

    /// Adds a neighbour behind the others. Nothing changes where the list
    /// is full, where the identifier is invalid, or where it is a neighbour
    /// already.
    pub fn push(&mut self, id: VectorID)
        requires
            old(self).wf(),
        ensures
            final(self).wf(),
            Self::takes(old(self).neighbors(), degree(old(self)@), id) ==> final(self).neighbors()
                == old(self).neighbors().push(id),
            !Self::takes(old(self).neighbors(), degree(old(self)@), id) ==> *final(self) == *old(
                self,
            ),
            stems_from(final(self).neighbors(), old(self).neighbors(), id),
    {
        let d = self.degree();
        proof {
            lemma_degree(self@);
        }
        assert forall|j: int| 0 <= j < self.neighbors().len() implies self.neighbors().contains(
            #[trigger] self.neighbors()[j],
        ) by {}
        if d < N && id.is_valid() && !self.contains(id) {
            let ghost before = self@;
            proof {
                lemma_degree(before);
            }
            self.0[d] = id;
            proof {
                let after = self@;
                lemma_degree_is(after, d + 1);
                assert(neighbors(after) =~= neighbors(before).push(id));
                assert forall|k: int| 0 <= k < neighbors(after).len() implies (#[trigger] neighbors(
                    after,
                )[k]) == id || neighbors(before).contains(neighbors(after)[k]) by {
                    if k < d {
                        assert(neighbors(after)[k] == neighbors(before)[k]);
                    }
                }
                assert forall|a: int, b: int| 0 <= a < b < d + 1 implies after[a] != after[b] by {
                    if b == d {
                        assert(neighbors(before)[a] == before[a]);
                    }
                }
            }
        }
    }

    /// Takes a neighbour out and closes the gap. Returns the position it
    /// had, if it was listed.
    pub fn remove(&mut self, id: VectorID) -> (r: Option<usize>)
        requires
            old(self).wf(),
        ensures
            final(self).wf(),
            match r {
                Some(p) => p < degree(old(self)@) && old(self).neighbors()[p as int] == id
                    && final(self).neighbors() == old(self).neighbors().remove(p as int),
                None => !old(self).neighbors().contains(id) && *final(self) == *old(self),
            },
    {
        let ghost before = self@;
        let ghost deg = degree(before);
        proof {
            lemma_degree(before);
        }
        let mut p: usize = 0;
        while p < N && self.0[p].is_valid() && self.0[p] != id
            invariant
                p <= N,
                p <= deg <= N,
                deg == degree(before),
                deg < N ==> !before[deg].valid(),
                self@ == before,
                forall|j: int| 0 <= j < p ==> before[j] != id,
            decreases N - p,
        {
            p += 1;
        }
        if p >= N || !self.0[p].is_valid() {
            proof {
                lemma_degree_is(before, p as int);
            }
            return None;
        }
        assert(p < deg);
        let mut j: usize = p;
        while j + 1 < N
            invariant
                p <= j < N,
                self@.len() == N,
                before.len() == N,
                forall|k: int| 0 <= k < p ==> self@[k] == before[k],
                forall|k: int| p <= k < j ==> self@[k] == before[k + 1],
                forall|k: int| j <= k < N ==> self@[k] == before[k],
            decreases N - j,
        {
            let moved = self.0[j + 1];
            self.0[j] = moved;
            j += 1;
        }
        self.0[N - 1] = VectorID(INVALID);
        proof {
            let after = self@;
            assert forall|k: int| 0 <= k < deg - 1 implies (#[trigger] after[k]).valid() by {
                if k < p {
                    assert(after[k] == before[k]);
                } else {
                    assert(after[k] == before[k + 1]);
                }
            }
            assert(!after[deg - 1].valid()) by {
                if deg - 1 < N - 1 {
                    assert(after[deg - 1] == before[deg]);
                }
            }
            lemma_degree_is(after, deg - 1);
            assert(neighbors(after) =~= neighbors(before).remove(p as int));
            assert forall|k: int| deg - 1 <= k < N implies after[k] == VectorID(INVALID) by {
                if k < N - 1 {
                    assert(after[k] == before[k + 1]);
                }
            }
            assert forall|a: int, b: int| 0 <= a < b < deg - 1 implies after[a] != after[b] by {
                let pa = if a < p { a } else { a + 1 };
                let pb = if b < p { b } else { b + 1 };
                assert(before[pa] != before[pb]);
            }
        }
        Some(p)
    }

    /// Drops every neighbour.
    pub fn clear(&mut self)
        ensures
            final(self).wf(),
            final(self).neighbors() == Seq::<VectorID>::empty(),
    {
        *self = Node::new();
    }
}

impl Node<32> {
    /// The node of an upper layer that a base node gives: its first `M`
    /// entries.
    pub fn from(base: &Node<64>) -> (r: Self)
        requires
            base.wf(),
        ensures
            r.wf(),
            r@ == base@.take(32),
            r.neighbors() == base.neighbors().take(
                if degree(base@) < 32 {
                    degree(base@)
                } else {
                    32
                },
            ),
    {
        let mut r: Node<32> = Node::new();
        let mut i: usize = 0;
        while i < 32
            invariant
                i <= 32,
                r@.len() == 32,
                base@.len() == 64,
                forall|k: int| 0 <= k < i ==> r@[k] == base@[k],
            decreases 32 - i,
        {
            let entry = base.0[i];
            r.0[i] = entry;
            i += 1;
        }
        proof {
            let deg = degree(base@);
            lemma_degree(base@);
            let k = if deg < 32 { deg } else { 32 };
            assert(r@ =~= base@.take(32));
            lemma_degree_is(r@, k);
            assert(r.neighbors() =~= base.neighbors().take(k));
        }
        r
    }
}

} // verus!
