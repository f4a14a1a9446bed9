//! Bounded best-first search over one layer of the graph.
//!
//! A search owns a visited set, a queue of candidates still to expand and
//! the list of the nearest vectors found so far. Both lists are kept sorted,
//! nearest first; among equal ranks the smaller identifier comes first.

use vstd::prelude::*;
use std::collections::HashMap;
use crate::distance::Distance;
use crate::node::{degree, lemma_degree, Node};
use crate::vector::{Vector, VectorID};

verus! {

broadcast use vstd::std_specs::hash::group_hash_axioms;

/// Whether `d` is a distance that the kernel can give for the two vectors.
pub open spec fn measured<K: Fn(Distance, &Vector, &Vector) -> u32>(
    kernel: K,
    kind: Distance,
    a: Seq<u32>,
    b: Seq<u32>,
    d: u32,
) -> bool {
    exists|x: Vector, y: Vector| x@ == a && y@ == b && #[trigger] call_ensures(kernel, (kind, &x, &y), d)
}

/// Whether the kernel may be called on every two vectors of one length.
pub open spec fn callable<K: Fn(Distance, &Vector, &Vector) -> u32>(kernel: K) -> bool {
    forall|kind: Distance, x: &Vector, y: &Vector|
        x@.len() == y@.len() ==> #[trigger] call_requires(kernel, (kind, x, y))
}

/// A vector that the search has met, with its distance to the query.
#[derive(Clone, Copy, Debug)]
pub struct Candidate {
    /// The distance as the kernel gave it.
    pub distance: u32,
    /// The distance's rank in the kernel's order: smaller is nearer.
    pub rank: u32,
    pub vector_id: VectorID,
}

/// The order of the lists: by rank, then by identifier.
pub open spec fn precedes(a: Candidate, b: Candidate) -> bool {
    a.rank < b.rank || (a.rank == b.rank && a.vector_id.0 < b.vector_id.0)
}

/// No element of the list precedes an earlier one.
pub open spec fn ordered(s: Seq<Candidate>) -> bool {
    forall|i: int, j: int| 0 <= i < j < s.len() ==> !precedes(#[trigger] s[j], #[trigger] s[i])
}

/// No identifier occurs twice in the list.
pub open spec fn distinct_ids(s: Seq<Candidate>) -> bool {
    forall|i: int, j: int|
        0 <= i < j < s.len() ==> (#[trigger] s[i]).vector_id != (#[trigger] s[j]).vector_id
}

pub fn exec_precedes(a: &Candidate, b: &Candidate) -> (r: bool)
    ensures
        r == precedes(*a, *b),
{
    a.rank < b.rank || (a.rank == b.rank && a.vector_id.0 < b.vector_id.0)
}

/// The place of a candidate in an ordered list: behind everything that
/// precedes it, before everything else.
pub fn position(list: &Vec<Candidate>, c: &Candidate) -> (r: usize)
    requires
        ordered(list@),
    ensures
        r <= list.len(),
        forall|i: int| 0 <= i < r ==> precedes(#[trigger] list@[i], *c),
        forall|i: int| r <= i < list.len() ==> !precedes(#[trigger] list@[i], *c),
{
    let mut low: usize = 0;
    let mut high: usize = list.len();
    while low < high
        invariant
            low <= high <= list.len(),
            ordered(list@),
            forall|i: int| 0 <= i < low ==> precedes(#[trigger] list@[i], *c),
            forall|i: int| high <= i < list.len() ==> !precedes(#[trigger] list@[i], *c),
        decreases high - low,
    {
        let mid: usize = low + (high - low) / 2;
        if exec_precedes(&list[mid], c) {
            assert forall|i: int| 0 <= i < mid + 1 implies precedes(#[trigger] list@[i], *c) by {
                if i < mid {
                    assert(!precedes(list@[mid as int], list@[i]));
                }
            }
            low = mid + 1;
        } else {
            assert forall|i: int| mid <= i < list.len() implies !precedes(#[trigger] list@[i], *c) by {
                if i > mid {
                    assert(!precedes(list@[i], list@[mid as int]));
                }
            }
            high = mid;
        }
    }
    low
}

/// Puts a candidate at its place in an ordered list and returns the place.
pub fn insert_ordered(list: &mut Vec<Candidate>, c: Candidate) -> (r: usize)
    requires
        ordered(old(list)@),
    ensures
        r <= old(list).len(),
        final(list)@ == old(list)@.insert(r as int, c),
        ordered(final(list)@),
        forall|i: int| 0 <= i < r ==> precedes(#[trigger] old(list)@[i], c),
        forall|i: int| r <= i < old(list).len() ==> !precedes(#[trigger] old(list)@[i], c),
{
    let r = position(list, &c);
    list.insert(r, c);
    proof {
        let before = old(list)@;
        let after = list@;
        assert forall|i: int, j: int| 0 <= i < j < after.len() implies !precedes(
            #[trigger] after[j],
            #[trigger] after[i],
        ) by {
            let pi = if i < r { i } else { i - 1 };
            let pj = if j < r { j } else { j - 1 };
            if i == r {
                assert(after[j] == before[pj]);
            } else if j == r {
                assert(after[i] == before[pi]);
            } else {
                assert(after[i] == before[pi]);
                assert(after[j] == before[pj]);
            }
        }
    }
    r
}

/// The number of places not yet visited.
pub open spec fn unvisited(s: Seq<bool>) -> nat
    decreases s.len(),
{
    if s.len() == 0 {
        0
    } else {
        unvisited(s.drop_last()) + if s.last() {
            0nat
        } else {
            1nat
        }
    }
}

/// Visiting a new place leaves one place less to visit.
pub proof fn lemma_visit(s: Seq<bool>, i: int)
    requires
        0 <= i < s.len(),
        !s[i],
    ensures
        unvisited(s.update(i, true)) + 1 == unvisited(s),
    decreases s.len(),
{
    let t = s.update(i, true);
    if i == s.len() - 1 {
        assert(t.drop_last() =~= s.drop_last());
    } else {
        lemma_visit(s.drop_last(), i);
        assert(t.drop_last() =~= s.drop_last().update(i, true));
    }
}

/// The state of one query.
pub struct Search {
    /// How many of the nearest vectors are kept.
    pub ef: usize,
    /// For each identifier, whether the search has met it.
    pub visited: Vec<bool>,
    /// The vectors met and not yet expanded, nearest first.
    pub candidates: Vec<Candidate>,
    /// The nearest vectors met so far, nearest first.
    pub nearest: Vec<Candidate>,
    /// Every vector measured since the search began or last went down a
    /// layer, in the order in which they were measured.
    pub met: Ghost<Seq<Candidate>>,
}

/// What the search holds of a candidate: it was visited, it is stored, and
/// its distance is one that the kernel gives for the query.
pub open spec fn candidate_ok<K: Fn(Distance, &Vector, &Vector) -> u32>(
    c: Candidate,
    kernel: K,
    kind: Distance,
    query: Seq<u32>,
    vectors: Map<u32, Vector>,
    visited: Seq<bool>,
) -> bool {
    &&& c.vector_id.0 < visited.len()
    &&& visited[c.vector_id.0 as int]
    &&& vectors.contains_key(c.vector_id.0)
    &&& c.rank == kind.spec_rank(c.distance)
    &&& measured(kernel, kind, query, vectors[c.vector_id.0]@, c.distance)
}

/// Whether every neighbour in the layer names a stored vector of the
/// query's length.
pub open spec fn layer_ok<const N: usize>(
    layer: Seq<Node<N>>,
    query: Seq<u32>,
    vectors: Map<u32, Vector>,
) -> bool {
    forall|v: int, j: int|
        0 <= v < layer.len() && 0 <= j < degree(layer[v]@) ==> {
            let n = #[trigger] layer[v]@[j];
            n.0 < layer.len() && vectors.contains_key(n.0) && vectors[n.0]@.len() == query.len()
        }
}

/// Whether `at` is the place of a candidate in an ordered list: behind all
/// that precede it and before all others.
pub open spec fn slot_of(list: Seq<Candidate>, c: Candidate, at: int) -> bool {
    &&& 0 <= at <= list.len()
    &&& forall|i: int| 0 <= i < at ==> precedes(#[trigger] list[i], c)
    &&& forall|i: int| at <= i < list.len() ==> !precedes(#[trigger] list[i], c)
}

/// Whether a candidate lost its place among the `ef` nearest: the list is
/// full and none of its candidates comes behind this one.
pub open spec fn beaten(c: Candidate, nearest: Seq<Candidate>, ef: usize) -> bool {
    nearest.len() >= ef && forall|i: int| 0 <= i < nearest.len() ==> !precedes(c, #[trigger] nearest[i])
}

/// Whether the list holds the `ef` nearest of what was met: whatever was
/// met is in the list or lost its place to those that are.
pub open spec fn keeps_best(met: Seq<Candidate>, nearest: Seq<Candidate>, ef: usize) -> bool {
    forall|k: int| 0 <= k < met.len() ==> nearest.contains(#[trigger] met[k]) || beaten(met[k], nearest, ef)
}

/// A list that holds all that was met holds the best of it, whatever `ef`.
pub proof fn lemma_keeps_all(list: Seq<Candidate>, ef: usize)
    ensures
        keeps_best(list, list, ef),
{
    assert forall|k: int| 0 <= k < list.len() implies list.contains(#[trigger] list[k]) by {}
}

impl Search {
    /// The lists are ordered and hold only what was visited and measured;
    /// no vector is twice among the nearest; and the nearest are the `ef`
    /// nearest of what was met.
    pub open spec fn inv<K: Fn(Distance, &Vector, &Vector) -> u32>(
        &self,
        kernel: K,
        kind: Distance,
        query: Seq<u32>,
        vectors: Map<u32, Vector>,
    ) -> bool {
        &&& ordered(self.nearest@)
        &&& ordered(self.candidates@)
        &&& distinct_ids(self.nearest@)
        &&& keeps_best(self.met@, self.nearest@, self.ef)
        &&& forall|i: int|
            0 <= i < self.nearest@.len() ==> candidate_ok(
                #[trigger] self.nearest@[i],
                kernel,
                kind,
                query,
                vectors,
                self.visited@,
            )
        &&& forall|i: int|
            0 <= i < self.candidates@.len() ==> candidate_ok(
                #[trigger] self.candidates@[i],
                kernel,
                kind,
                query,
                vectors,
                self.visited@,
            )
        &&& forall|i: int|
            0 <= i < self.met@.len() ==> candidate_ok(
                #[trigger] self.met@[i],
                kernel,
                kind,
                query,
                vectors,
                self.visited@,
            )
    }

    /// Whether the search of a layer is over: no candidate is left, or the
    /// nearest candidate left is farther than the worst of a full list of
    /// nearest vectors.
    pub open spec fn stopped(&self) -> bool {
        self.candidates@.len() == 0 || (self.nearest@.len() > 0 && self.nearest@.len() >= self.ef
            && self.candidates@[0].rank > self.nearest@[self.nearest@.len() - 1].rank)
    }

    /// A search over `capacity` identifiers that has met nothing yet.
    pub fn new(capacity: usize, ef: usize) -> (r: Self)
        ensures
            r.ef == ef,
            r.visited@.len() == capacity,
            forall|i: int| 0 <= i < capacity ==> !r.visited@[i],
            r.candidates@.len() == 0,
            r.nearest@.len() == 0,
            r.met@.len() == 0,
    {
        let mut visited: Vec<bool> = Vec::new();
        let mut i: usize = 0;
        while i < capacity
            invariant
                i <= capacity,
                visited@.len() == i,
                forall|j: int| 0 <= j < i ==> !visited@[j],
            decreases capacity - i,
        {
            visited.push(false);
            i += 1;
        }
        Search { ef, visited, candidates: Vec::new(), nearest: Vec::new(), met: Ghost(Seq::empty()) }
    }

    /// Meets a vector. One met before, or one that is not stored, changes
    /// nothing. A new one is measured against the query; if it belongs among
    /// the `ef` nearest it enters that list, where the worst leaves if the
    /// list has grown beyond `ef`, and it joins the candidates.
    pub fn push<K: Fn(Distance, &Vector, &Vector) -> u32>(
        &mut self,
        id: VectorID,
        query: &Vector,
        vectors: &HashMap<u32, Vector>,
        kernel: &K,
        kind: Distance,
    )
        requires
            callable(*kernel),
            old(self).inv(*kernel, kind, query@, vectors@),
            old(self).nearest@.len() <= old(self).ef,
            vectors@.contains_key(id.0) ==> vectors@[id.0]@.len() == query@.len(),
        ensures
            final(self).inv(*kernel, kind, query@, vectors@),
            final(self).ef == old(self).ef,
            final(self).visited@.len() == old(self).visited@.len(),
            forall|i: int|
                0 <= i < old(self).visited@.len() && old(self).visited@[i] ==> final(self).visited@[i],
            unvisited(final(self).visited@) + final(self).candidates@.len() <= unvisited(
                old(self).visited@,
            ) + old(self).candidates@.len(),
            old(self).nearest@.len() > 0 && old(self).ef > 0 ==> final(self).nearest@.len() > 0,
            old(self).ef > 0 && id.0 < old(self).visited@.len() && !old(self).visited@[id.0 as int]
                && vectors@.contains_key(id.0) ==> final(self).nearest@.len() > 0,
            final(self).nearest@.len() <= old(self).ef,
            id.0 < old(self).visited@.len() && vectors@.contains_key(id.0) ==> final(self).visited@[id.0 as int],
            Self::met_more(old(self), final(self), id, vectors@),
            forall|i: int|
                0 <= i < final(self).nearest@.len() ==> old(self).nearest@.contains(
                    #[trigger] final(self).nearest@[i],
                ) || (final(self).nearest@[i].vector_id == id && id.0 < old(self).visited@.len()
                    && !old(self).visited@[id.0 as int]),
            forall|m: Candidate| #[trigger]
                beaten(m, old(self).nearest@, old(self).ef) ==> beaten(
                    m,
                    final(self).nearest@,
                    final(self).ef,
                ),
    {
        assert forall|i: int| 0 <= i < self.nearest@.len() implies self.nearest@.contains(
            #[trigger] self.nearest@[i],
        ) by {}
        let index: usize = id.index();
        if index >= self.visited.len() || self.visited[index] {
            return ;
        }
        let stored = match vectors.get(&id.0) {
            Some(v) => v,
            None => {
                return ;
            },
        };
        proof {
            lemma_visit(self.visited@, index as int);
        }
        self.visited[index] = true;
        let distance: u32 = kernel(kind, query, stored);
        let rank: u32 = kind.rank(distance);
        let c = Candidate { distance, rank, vector_id: id };
        let ghost met_before = self.met@;
        let ghost nearest_before = self.nearest@;
        proof {
            self.met = Ghost(met_before.push(c));
            assert(self.met@.take(met_before.len() as int) =~= met_before);
        }
        assert(measured(*kernel, kind, query@, vectors@[id.0]@, distance)) by {
            assert(call_ensures(*kernel, (kind, query, stored), distance));
        }
        assert(candidate_ok(c, *kernel, kind, query@, vectors@, self.visited@));
        assert forall|i: int| 0 <= i < self.nearest@.len() implies candidate_ok(
            #[trigger] self.nearest@[i],
            *kernel,
            kind,
            query@,
            vectors@,
            self.visited@,
        ) && self.nearest@[i].vector_id != id by {
            assert(candidate_ok(
                old(self).nearest@[i],
                *kernel,
                kind,
                query@,
                vectors@,
                old(self).visited@,
            ));
        }
        assert forall|i: int| 0 <= i < self.candidates@.len() implies candidate_ok(
            #[trigger] self.candidates@[i],
            *kernel,
            kind,
            query@,
            vectors@,
            self.visited@,
        ) by {
            assert(candidate_ok(
                old(self).candidates@[i],
                *kernel,
                kind,
                query@,
                vectors@,
                old(self).visited@,
            ));
        }
        assert forall|i: int| 0 <= i < self.met@.len() implies candidate_ok(
            #[trigger] self.met@[i],
            *kernel,
            kind,
            query@,
            vectors@,
            self.visited@,
        ) by {
            if i < met_before.len() {
                assert(self.met@[i] == met_before[i]);
                assert(candidate_ok(
                    old(self).met@[i],
                    *kernel,
                    kind,
                    query@,
                    vectors@,
                    old(self).visited@,
                ));
            }
        }
        let at: usize = position(&self.nearest, &c);
        if at >= self.ef {
            proof {
                // the list is full of candidates that precede this one
                assert(beaten(c, nearest_before, self.ef));
                assert forall|k: int| 0 <= k < self.met@.len() implies self.nearest@.contains(
                    #[trigger] self.met@[k],
                ) || beaten(self.met@[k], self.nearest@, self.ef) by {
                    if k < met_before.len() {
                        assert(self.met@[k] == met_before[k]);
                    }
                }
            }
            return ;
        }
        self.nearest.insert(at, c);
        let ghost grown = self.nearest@;
        proof {
            assert forall|i: int, j: int| 0 <= i < j < grown.len() implies !precedes(
                #[trigger] grown[j],
                #[trigger] grown[i],
            ) && grown[i].vector_id != grown[j].vector_id by {
                let pi = if i < at { i } else { i - 1 };
                let pj = if j < at { j } else { j - 1 };
                if i == at {
                    assert(grown[j] == nearest_before[pj]);
                } else if j == at {
                    assert(grown[i] == nearest_before[pi]);
                } else {
                    assert(grown[i] == nearest_before[pi]);
                    assert(grown[j] == nearest_before[pj]);
                }
            }
            assert forall|i: int| 0 <= i < grown.len() implies candidate_ok(
                #[trigger] grown[i],
                *kernel,
                kind,
                query@,
                vectors@,
                self.visited@,
            ) by {
                if i < at {
                    assert(grown[i] == nearest_before[i]);
                } else if i > at {
                    assert(grown[i] == nearest_before[i - 1]);
                }
            }
        }
        if self.nearest.len() > self.ef {
            self.nearest.pop();
        }
        proof {
            let kept = self.nearest@;
            assert(kept[at as int] == c);
            assert forall|i: int| 0 <= i < kept.len() implies nearest_before.contains(
                #[trigger] kept[i],
            ) || kept[i].vector_id == id by {
                assert(kept[i] == grown[i]);
                if i < at {
                    assert(grown[i] == nearest_before[i]);
                } else if i > at {
                    assert(grown[i] == nearest_before[i - 1]);
                }
            }
            assert forall|k: int| 0 <= k < self.met@.len() implies kept.contains(#[trigger] self.met@[k])
                || beaten(self.met@[k], kept, self.ef) by {
                let m = self.met@[k];
                if k < met_before.len() {
                    assert(m == met_before[k]);
                    if nearest_before.contains(m) {
                        let p = choose|p: int| 0 <= p < nearest_before.len() && nearest_before[p] == m;
                        let q = if p < at { p } else { p + 1 };
                        assert(grown[q] == m);
                        if q < kept.len() {
                            assert(kept[q] == m);
                        } else {
                            // the worst left the list
                            assert forall|i: int| 0 <= i < kept.len() implies !precedes(
                                m,
                                #[trigger] kept[i],
                            ) by {
                                assert(kept[i] == grown[i]);
                                assert(!precedes(grown[q], grown[i]));
                            }
                        }
                    } else {
                        assert(beaten(m, nearest_before, self.ef));
                        assert(nearest_before.len() == self.ef);
                        assert(!precedes(nearest_before[at as int], c));
                        assert(!precedes(m, nearest_before[at as int]));
                        assert forall|i: int| 0 <= i < kept.len() implies !precedes(
                            m,
                            #[trigger] kept[i],
                        ) by {
                            if i < at {
                                assert(kept[i] == nearest_before[i]);
                            } else if i > at {
                                assert(kept[i] == nearest_before[i - 1]);
                            }
                        }
                    }
                }
            }
        }
        proof {
            let kept = self.nearest@;
            // the candidate did not lose its place: it precedes the one at its place
            assert(!beaten(c, nearest_before, self.ef)) by {
                if nearest_before.len() >= self.ef {
                    assert(!precedes(nearest_before[at as int], c));
                    assert(nearest_before[at as int].vector_id != id);
                    assert(precedes(c, nearest_before[at as int]));
                }
            }
            assert(slot_of(nearest_before, c, at as int));
            assert(kept =~= nearest_before.insert(at as int, c).take(
                if nearest_before.len() < self.ef {
                    (nearest_before.len() + 1) as int
                } else {
                    self.ef as int
                },
            ));
            assert forall|m: Candidate| #[trigger] beaten(m, nearest_before, self.ef) implies beaten(
                m,
                kept,
                self.ef,
            ) by {
                assert(!precedes(nearest_before[at as int], c));
                assert(!precedes(m, nearest_before[at as int]));
                assert forall|i: int| 0 <= i < kept.len() implies !precedes(m, #[trigger] kept[i]) by {
                    if i < at {
                        assert(kept[i] == nearest_before[i]);
                    } else if i > at {
                        assert(kept[i] == nearest_before[i - 1]);
                    }
                }
            }
        }
        let ghost candidates_before = self.candidates@;
        let place = insert_ordered(&mut self.candidates, c);
        proof {
            assert(slot_of(candidates_before, c, place as int));
            let after = self.candidates@;
            assert forall|i: int| 0 <= i < after.len() implies candidate_ok(
                #[trigger] after[i],
                *kernel,
                kind,
                query@,
                vectors@,
                self.visited@,
            ) by {
                if i < place {
                    assert(after[i] == candidates_before[i]);
                } else if i > place {
                    assert(after[i] == candidates_before[i - 1]);
                }
            }
        }
    }

    /// What meeting a vector does. One that was visited or is not stored
    /// changes nothing. Another one is marked as visited, measured and
    /// recorded as met. If it lost its place among the `ef` nearest at once,
    /// the lists stay as they are. Otherwise it is put at its place among
    /// the nearest, where the worst leaves a list grown beyond `ef`, and at
    /// its place among the candidates.
    pub open spec fn met_more(before: &Self, after: &Self, id: VectorID, vectors: Map<u32, Vector>) -> bool {
        if id.0 < before.visited@.len() && !before.visited@[id.0 as int] && vectors.contains_key(id.0) {
            let c = after.met@[before.met@.len() as int];
            &&& after.met@.len() == before.met@.len() + 1
            &&& after.met@.take(before.met@.len() as int) == before.met@
            &&& c.vector_id == id
            &&& after.visited@ == before.visited@.update(id.0 as int, true)
            &&& if beaten(c, before.nearest@, before.ef) {
                after.nearest@ == before.nearest@ && after.candidates@ == before.candidates@
            } else {
                &&& exists|at: int| #[trigger]
                    slot_of(before.nearest@, c, at) && after.nearest@ == before.nearest@.insert(
                        at,
                        c,
                    ).take(
                        if before.nearest@.len() < before.ef {
                            (before.nearest@.len() + 1) as int
                        } else {
                            before.ef as int
                        },
                    )
                &&& exists|place: int| #[trigger]
                    slot_of(before.candidates@, c, place) && after.candidates@
                        == before.candidates@.insert(place, c)
            }
        } else {
            &&& after.met@ == before.met@
            &&& after.nearest@ == before.nearest@
            &&& after.candidates@ == before.candidates@
            &&& after.visited@ == before.visited@
        }
    }

    /// What a search of one layer has done, with the records in `expanded`
    /// as those that it expanded: their neighbours in the layer, the first
    /// `links` of each, are visited; every candidate of before was expanded
    /// or is a candidate still; and every vector met since was expanded, is
    /// a candidate still, or lost its place among the `ef` nearest.
    pub open spec fn expansion<const N: usize>(
        before: &Self,
        after: &Self,
        layer: Seq<Node<N>>,
        links: int,
        expanded: Set<u32>,
    ) -> bool {
        &&& forall|e: u32, j: int|
            expanded.contains(e) && e < layer.len() && 0 <= j < degree(layer[e as int]@) && j < links
                ==> (#[trigger] layer[e as int]@[j]).0 < after.visited@.len()
                && after.visited@[layer[e as int]@[j].0 as int]
        &&& forall|i: int|
            0 <= i < before.candidates@.len() ==> expanded.contains(
                (#[trigger] before.candidates@[i]).vector_id.0,
            ) || after.candidates@.contains(before.candidates@[i])
        &&& forall|k: int|
            before.met@.len() <= k < after.met@.len() ==> expanded.contains(
                (#[trigger] after.met@[k]).vector_id.0,
            ) || after.candidates@.contains(after.met@[k]) || beaten(
                after.met@[k],
                after.nearest@,
                after.ef,
            )
    }

    /// Whether every vector visited since `before` was met since: it was
    /// measured against the query.
    pub open spec fn visits_met(before: &Self, after: &Self) -> bool {
        forall|k: int|
            0 <= k < after.visited@.len() && k < before.visited@.len() && #[trigger] after.visited@[k]
                && !before.visited@[k] ==> exists|m: int|
                before.met@.len() <= m < after.met@.len() && (#[trigger] after.met@[m]).vector_id.0 == k
    }

    /// Searches one layer: expands the nearest candidate until none is left
    /// or the nearest one left is farther than the worst of a full list of
    /// nearest vectors. To expand a candidate is to meet the neighbours of
    /// its node, the first `links` of them. A list of nearest vectors longer
    /// than `ef` is cut down first.
    pub fn search<const N: usize, K: Fn(Distance, &Vector, &Vector) -> u32>(
        &mut self,
        layer: &Vec<Node<N>>,
        query: &Vector,
        vectors: &HashMap<u32, Vector>,
        kernel: &K,
        kind: Distance,
        links: usize,
    )
        requires
            callable(*kernel),
            old(self).inv(*kernel, kind, query@, vectors@),
            layer@.len() == old(self).visited@.len(),
            layer_ok(layer@, query@, vectors@),
        ensures
            final(self).inv(*kernel, kind, query@, vectors@),
            final(self).stopped(),
            final(self).ef == old(self).ef,
            final(self).visited@.len() == old(self).visited@.len(),
            old(self).nearest@.len() > 0 && old(self).ef > 0 ==> final(self).nearest@.len() > 0,
            final(self).nearest@.len() <= old(self).ef,
            final(self).met@.len() >= old(self).met@.len(),
            final(self).met@.take(old(self).met@.len() as int) == old(self).met@,
            forall|k: int|
                0 <= k < old(self).visited@.len() && old(self).visited@[k] ==> final(self).visited@[k],
            forall|i: int|
                0 <= i < final(self).nearest@.len() ==> old(self).nearest@.contains(
                    #[trigger] final(self).nearest@[i],
                ) || !old(self).visited@[final(self).nearest@[i].vector_id.0 as int],
            exists|expanded: Set<u32>| #[trigger]
                Self::expansion(old(self), final(self), layer@, links as int, expanded),
            Self::visits_met(old(self), final(self)),
    {
        assert forall|i: int| 0 <= i < self.nearest@.len() implies self.nearest@.contains(
            #[trigger] self.nearest@[i],
        ) by {}
        assert forall|i: int| 0 <= i < self.candidates@.len() implies self.candidates@.contains(
            #[trigger] self.candidates@[i],
        ) by {}
        if self.nearest.len() > self.ef {
            let ghost before = self.nearest@;
            self.nearest.truncate(self.ef);
            proof {
                let kept = self.nearest@;
                assert forall|i: int| 0 <= i < kept.len() implies candidate_ok(
                    #[trigger] kept[i],
                    *kernel,
                    kind,
                    query@,
                    vectors@,
                    self.visited@,
                ) by {
                    assert(kept[i] == before[i]);
                }
                assert forall|i: int| 0 <= i < kept.len() implies before.contains(#[trigger] kept[i]) by {
                    assert(kept[i] == before[i]);
                }
                assert forall|k: int| 0 <= k < self.met@.len() implies kept.contains(
                    #[trigger] self.met@[k],
                ) || beaten(self.met@[k], kept, self.ef) by {
                    let m = self.met@[k];
                    if before.contains(m) {
                        let p = choose|p: int| 0 <= p < before.len() && before[p] == m;
                        if p < kept.len() {
                            assert(kept[p] == m);
                        } else {
                            assert forall|i: int| 0 <= i < kept.len() implies !precedes(
                                m,
                                #[trigger] kept[i],
                            ) by {
                                assert(kept[i] == before[i]);
                                assert(!precedes(before[p], before[i]));
                            }
                        }
                    } else {
                        assert(beaten(m, before, self.ef));
                        assert forall|i: int| 0 <= i < kept.len() implies !precedes(
                            m,
                            #[trigger] kept[i],
                        ) by {
                            assert(kept[i] == before[i]);
                        }
                    }
                }
            }
        }
        assert(self.met@.take(old(self).met@.len() as int) =~= old(self).met@);
        let ghost mut expanded: Set<u32> = Set::empty();
        while self.candidates.len() > 0
            invariant
                self.nearest@.len() <= self.ef,
                callable(*kernel),
                self.inv(*kernel, kind, query@, vectors@),
                layer@.len() == self.visited@.len(),
                layer_ok(layer@, query@, vectors@),
                self.ef == old(self).ef,
                self.visited@.len() == old(self).visited@.len(),
                old(self).nearest@.len() > 0 && old(self).ef > 0 ==> self.nearest@.len() > 0,
                self.met@.len() >= old(self).met@.len(),
                self.met@.take(old(self).met@.len() as int) == old(self).met@,
                forall|k: int|
                    0 <= k < old(self).visited@.len() && old(self).visited@[k] ==> self.visited@[k],
                forall|i: int|
                    0 <= i < self.nearest@.len() ==> old(self).nearest@.contains(
                        #[trigger] self.nearest@[i],
                    ) || !old(self).visited@[self.nearest@[i].vector_id.0 as int],
                Self::expansion(old(self), self, layer@, links as int, expanded),
                Self::visits_met(old(self), self),
            ensures
                self.nearest@.len() <= self.ef,
                self.inv(*kernel, kind, query@, vectors@),
                self.stopped(),
                self.ef == old(self).ef,
                self.visited@.len() == old(self).visited@.len(),
                old(self).nearest@.len() > 0 && old(self).ef > 0 ==> self.nearest@.len() > 0,
                self.met@.len() >= old(self).met@.len(),
                self.met@.take(old(self).met@.len() as int) == old(self).met@,
                forall|k: int|
                    0 <= k < old(self).visited@.len() && old(self).visited@[k] ==> self.visited@[k],
                forall|i: int|
                    0 <= i < self.nearest@.len() ==> old(self).nearest@.contains(
                        #[trigger] self.nearest@[i],
                    ) || !old(self).visited@[self.nearest@[i].vector_id.0 as int],
                Self::expansion(old(self), self, layer@, links as int, expanded),
                Self::visits_met(old(self), self),
            decreases unvisited(self.visited@) + self.candidates@.len(),
        {
            let c: Candidate = self.candidates[0];
            let found: usize = self.nearest.len();
            if found > 0 && found >= self.ef {
                let worst: Candidate = self.nearest[found - 1];
                if c.rank > worst.rank {
                    break ;
                }
            }
            let ghost candidates_before = self.candidates@;
            let ghost popped = *self;
            self.candidates.remove(0);
            let ghost earlier = expanded;
            proof {
                expanded = earlier.insert(c.vector_id.0);
                let after = self.candidates@;
                assert forall|i: int| 0 <= i < after.len() implies candidate_ok(
                    #[trigger] after[i],
                    *kernel,
                    kind,
                    query@,
                    vectors@,
                    self.visited@,
                ) by {
                    assert(after[i] == candidates_before[i + 1]);
                }
                assert forall|i: int, j: int| 0 <= i < j < after.len() implies !precedes(
                    #[trigger] after[j],
                    #[trigger] after[i],
                ) by {
                    assert(after[i] == candidates_before[i + 1]);
                    assert(after[j] == candidates_before[j + 1]);
                }
                assert(candidate_ok(
                    candidates_before[0],
                    *kernel,
                    kind,
                    query@,
                    vectors@,
                    self.visited@,
                ));
                // what was a candidate is one still, or is the one taken out
                assert forall|x: Candidate| candidates_before.contains(x) implies x == c || after.contains(
                    x,
                ) by {
                    let p = choose|p: int| 0 <= p < candidates_before.len() && candidates_before[p] == x;
                    if p > 0 {
                        assert(after[p - 1] == x);
                    }
                }
            }
            let node: &Node<N> = &layer[c.vector_id.index()];
            let count: usize = node.degree();
            let limit: usize = if count < links {
                count
            } else {
                links
            };
            let ghost measure = unvisited(self.visited@) + self.candidates@.len();
            let mut i: usize = 0;
            while i < limit
                invariant
                    i <= limit <= degree(node@),
                    limit <= links,
                    limit == degree(node@) || limit == links,
                    *node == layer@[c.vector_id.0 as int],
                    c.vector_id.0 < layer@.len(),
                    expanded == earlier.insert(c.vector_id.0),
                    callable(*kernel),
                    self.inv(*kernel, kind, query@, vectors@),
                    layer@.len() == self.visited@.len(),
                    layer_ok(layer@, query@, vectors@),
                    self.ef == old(self).ef,
                    self.visited@.len() == old(self).visited@.len(),
                    old(self).nearest@.len() > 0 && old(self).ef > 0 ==> self.nearest@.len() > 0,
                    self.nearest@.len() <= self.ef,
                    unvisited(self.visited@) + self.candidates@.len() <= measure,
                    self.met@.len() >= old(self).met@.len(),
                    self.met@.take(old(self).met@.len() as int) == old(self).met@,
                    forall|k: int|
                        0 <= k < old(self).visited@.len() && old(self).visited@[k] ==> self.visited@[k],
                    forall|i: int|
                        0 <= i < self.nearest@.len() ==> old(self).nearest@.contains(
                            #[trigger] self.nearest@[i],
                        ) || !old(self).visited@[self.nearest@[i].vector_id.0 as int],
                    // the neighbours of what was expanded before are visited
                    forall|e: u32, j: int|
                        earlier.contains(e) && e < layer@.len() && 0 <= j < degree(layer@[e as int]@)
                            && j < links ==> (#[trigger] layer@[e as int]@[j]).0 < self.visited@.len()
                            && self.visited@[layer@[e as int]@[j].0 as int],
                    // and so are the first neighbours of the candidate in hand
                    forall|j: int|
                        0 <= j < i ==> (#[trigger] node@[j]).0 < self.visited@.len()
                            && self.visited@[node@[j].0 as int],
                    forall|i: int|
                        0 <= i < old(self).candidates@.len() ==> expanded.contains(
                            (#[trigger] old(self).candidates@[i]).vector_id.0,
                        ) || self.candidates@.contains(old(self).candidates@[i]),
                    forall|k: int|
                        old(self).met@.len() <= k < self.met@.len() ==> expanded.contains(
                            (#[trigger] self.met@[k]).vector_id.0,
                        ) || self.candidates@.contains(self.met@[k]) || beaten(
                            self.met@[k],
                            self.nearest@,
                            self.ef,
                        ),
                    Self::visits_met(old(self), self),
                decreases limit - i,
            {
                let neighbor: VectorID = node.get(i);
                assert(neighbor == layer@[c.vector_id.0 as int]@[i as int]) by {
                    lemma_degree(node@);
                }
                let ghost pre = *self;
                self.push(neighbor, query, vectors, kernel, kind);
                proof {
                    Self::lemma_push_keeps(&pre, self, old(self), neighbor, vectors@, expanded);
                    assert(self.met@.take(old(self).met@.len() as int) =~= old(self).met@) by {
                        assert forall|k: int| 0 <= k < old(self).met@.len() implies self.met@[k] == old(self).met@[k] by {
                            assert(self.met@[k] == pre.met@[k]);
                            assert(pre.met@.take(old(self).met@.len() as int)[k] == pre.met@[k]);
                        }
                    }
                    assert forall|i: int| 0 <= i < self.nearest@.len() implies old(self).nearest@.contains(
                        #[trigger] self.nearest@[i],
                    ) || !old(self).visited@[self.nearest@[i].vector_id.0 as int] by {
                        let e = self.nearest@[i];
                        if pre.nearest@.contains(e) {
                            let j = choose|j: int| 0 <= j < pre.nearest@.len() && pre.nearest@[j] == e;
                            assert(old(self).nearest@.contains(pre.nearest@[j]) || !old(self).visited@[pre.nearest@[j].vector_id.0 as int]);
                        } else {
                            assert(!pre.visited@[neighbor.0 as int]);
                        }
                    }
                }
                i += 1;
            }
            proof {
                assert forall|e: u32, j: int|
                    expanded.contains(e) && e < layer@.len() && 0 <= j < degree(layer@[e as int]@) && j
                        < links implies (#[trigger] layer@[e as int]@[j]).0 < self.visited@.len()
                    && self.visited@[layer@[e as int]@[j].0 as int] by {
                    if e == c.vector_id.0 {
                        assert(layer@[e as int]@[j] == node@[j]);
                    }
                }
            }
        }
    }

    /// Meeting a vector keeps what a search has done so far: what was a
    /// candidate or beaten stays so, and the vector met is a candidate or
    /// beaten.
    proof fn lemma_push_keeps(
        pre: &Self,
        post: &Self,
        start: &Self,
        id: VectorID,
        vectors: Map<u32, Vector>,
        expanded: Set<u32>,
    )
        requires
            Self::met_more(pre, post, id, vectors),
            pre.ef == post.ef,
            pre.visited@.len() == post.visited@.len(),
            pre.visited@.len() == start.visited@.len(),
            start.met@.len() <= pre.met@.len(),
            forall|m: Candidate| #[trigger]
                beaten(m, pre.nearest@, pre.ef) ==> beaten(m, post.nearest@, post.ef),
            forall|i: int|
                0 <= i < start.candidates@.len() ==> expanded.contains(
                    (#[trigger] start.candidates@[i]).vector_id.0,
                ) || pre.candidates@.contains(start.candidates@[i]),
            forall|k: int|
                start.met@.len() <= k < pre.met@.len() ==> expanded.contains(
                    (#[trigger] pre.met@[k]).vector_id.0,
                ) || pre.candidates@.contains(pre.met@[k]) || beaten(pre.met@[k], pre.nearest@, pre.ef),
            Self::visits_met(start, pre),
        ensures
            forall|i: int|
                0 <= i < start.candidates@.len() ==> expanded.contains(
                    (#[trigger] start.candidates@[i]).vector_id.0,
                ) || post.candidates@.contains(start.candidates@[i]),
            forall|k: int|
                start.met@.len() <= k < post.met@.len() ==> expanded.contains(
                    (#[trigger] post.met@[k]).vector_id.0,
                ) || post.candidates@.contains(post.met@[k]) || beaten(
                    post.met@[k],
                    post.nearest@,
                    post.ef,
                ),
            Self::visits_met(start, post),
            forall|k: int| 0 <= k < pre.visited@.len() && pre.visited@[k] ==> post.visited@[k],
            post.met@.len() >= pre.met@.len(),
            forall|k: int| 0 <= k < pre.met@.len() ==> post.met@[k] == pre.met@[k],
    {
        let fresh = id.0 < pre.visited@.len() && !pre.visited@[id.0 as int] && vectors.contains_key(id.0);
        assert forall|k: int| 0 <= k < pre.met@.len() implies post.met@[k] == pre.met@[k] by {
            if fresh {
                assert(post.met@.take(pre.met@.len() as int)[k] == post.met@[k]);
            }
        }
        // what was a candidate is one still
        assert forall|x: Candidate| pre.candidates@.contains(x) implies post.candidates@.contains(x) by {
            let p = choose|p: int| 0 <= p < pre.candidates@.len() && pre.candidates@[p] == x;
            if fresh && !beaten(post.met@[pre.met@.len() as int], pre.nearest@, pre.ef) {
                let c = post.met@[pre.met@.len() as int];
                let place = choose|place: int| #[trigger]
                    slot_of(pre.candidates@, c, place) && post.candidates@ == pre.candidates@.insert(
                        place,
                        c,
                    );
                let q = if p < place { p } else { p + 1 };
                assert(post.candidates@[q] == x);
            } else {
                assert(post.candidates@[p] == x);
            }
        }
        assert forall|k: int| start.met@.len() <= k < post.met@.len() implies expanded.contains(
            (#[trigger] post.met@[k]).vector_id.0,
        ) || post.candidates@.contains(post.met@[k]) || beaten(post.met@[k], post.nearest@, post.ef) by {
            if k < pre.met@.len() {
                assert(post.met@[k] == pre.met@[k]) by {
                    if fresh {
                        assert(post.met@.take(pre.met@.len() as int)[k] == post.met@[k]);
                    }
                }
            } else {
                let c = post.met@[k];
                if !beaten(c, pre.nearest@, pre.ef) {
                    let place = choose|place: int| #[trigger]
                        slot_of(pre.candidates@, c, place) && post.candidates@
                            == pre.candidates@.insert(place, c);
                    assert(post.candidates@[place] == c);
                }
            }
        }
        assert forall|k: int|
            0 <= k < post.visited@.len() && k < start.visited@.len() && #[trigger] post.visited@[k]
                && !start.visited@[k] implies exists|m: int|
            start.met@.len() <= m < post.met@.len() && (#[trigger] post.met@[m]).vector_id.0 == k by {
            if pre.visited@[k] {
                let m = choose|m: int|
                    start.met@.len() <= m < pre.met@.len() && (#[trigger] pre.met@[m]).vector_id.0 == k;
                assert(post.met@[m] == pre.met@[m]) by {
                    if fresh {
                        assert(post.met@.take(pre.met@.len() as int)[m] == post.met@[m]);
                    }
                }
            } else {
                assert(fresh && k == id.0);
                assert(post.met@[pre.met@.len() as int].vector_id.0 == k);
            }
        }
    }

    /// Goes over to the next layer down: of the nearest vectors only the
    /// best stays, and it alone is left to expand. What was visited stays
    /// visited; what was met is forgotten but for the best.
    pub fn cull<K: Fn(Distance, &Vector, &Vector) -> u32>(
        &mut self,
        kernel: &K,
        kind: Distance,
        query: &Vector,
        vectors: &HashMap<u32, Vector>,
    )
        requires
            old(self).inv(*kernel, kind, query@, vectors@),
        ensures
            final(self).inv(*kernel, kind, query@, vectors@),
            final(self).ef == old(self).ef,
            final(self).visited@ == old(self).visited@,
            final(self).nearest@ == old(self).nearest@.take(
                if old(self).nearest@.len() > 0 {
                    1
                } else {
                    0
                },
            ),
            final(self).candidates@ == final(self).nearest@,
            final(self).met@ == final(self).nearest@,
    {
        self.nearest.truncate(1);
        self.candidates.clear();
        if self.nearest.len() > 0 {
            let best: Candidate = self.nearest[0];
            self.candidates.push(best);
        }
        proof {
            self.met = Ghost(self.nearest@);
            lemma_keeps_all(self.nearest@, self.ef);
            assert(self.candidates@ =~= self.nearest@);
            assert forall|i: int| 0 <= i < self.nearest@.len() implies candidate_ok(
                #[trigger] self.nearest@[i],
                *kernel,
                kind,
                query@,
                vectors@,
                self.visited@,
            ) by {
                assert(self.nearest@[i] == old(self).nearest@[i]);
            }
        }
    }
}

} // verus!
