//! The whole state of a collection as plain values, to store a collection
//! and to bring it back.

use vstd::prelude::*;
use crate::collection::{Config, Record};
use crate::graph::{layer_wf, link_ok, node_ok};
use crate::model::{lemma_live_bound, live, live_ids, Contents};
use crate::node::{degree, lemma_degree, BaseNode, Node, UpperNode};
use crate::vector::{VectorID, INVALID};

verus! {

/// The state of a collection as a mathematical value: its contents, its
/// settings and its graph.
pub struct State {
    pub contents: Contents,
    pub config: Config,
    pub relevancy: u32,
    pub base_layer: Seq<BaseNode>,
    pub upper_layers: Seq<Seq<UpperNode>>,
}

impl State {
    /// The contents are well formed and every layer is in order.
    pub open spec fn wf(self) -> bool {
        &&& self.contents.wf()
        &&& layer_wf(self.base_layer, self.contents.slots)
        &&& forall|l: int|
            0 <= l < self.upper_layers.len() ==> layer_wf(
                #[trigger] self.upper_layers[l],
                self.contents.slots,
            )
    }
}

/// The state of a collection as plain values. Every field can be read and
/// written; `Collection::restore` takes only a snapshot that is in order.
#[derive(Debug)]
pub struct Snapshot {
    pub config: Config,
    pub relevancy: u32,
    pub dimension: usize,
    /// The slot table.
    pub slots: Vec<VectorID>,
    /// For each slot its record, if the slot is live.
    pub records: Vec<Option<Record>>,
    pub base_layer: Vec<BaseNode>,
    pub upper_layers: Vec<Vec<UpperNode>>,
}

/// Whether a node is in order. See `node_ok`.
pub fn check_node<const N: usize>(node: &Node<N>, v: usize, slots: &Vec<VectorID>) -> (r: bool)
    ensures
        r == node_ok(*node, v as int, slots@),
{
    let d: usize = node.degree();
    proof {
        lemma_degree(node@);
    }
    let mut j: usize = d;
    while j < N
        invariant
            d <= j <= N,
            d == degree(node@),
            forall|k: int| d <= k < j ==> node@[k] == VectorID(INVALID),
        decreases N - j,
    {
        if node.0[j] != VectorID(INVALID) {
            return false;
        }
        j += 1;
    }
    let mut a: usize = 0;
    while a < d
        invariant
            a <= d <= N,
            d == degree(node@),
            d == node.neighbors().len(),
            forall|k: int| 0 <= k < d ==> node.neighbors()[k] == node@[k],
            forall|k: int| 0 <= k < a ==> link_ok(#[trigger] node@[k], v as int, slots@),
            forall|p: int, q: int| 0 <= p < a && p < q < d ==> node@[p] != node@[q],
        decreases d - a,
    {
        let n: VectorID = node.0[a];
        if n.index() >= slots.len() || !slots[n.index()].is_valid() || n.index() == v {
            assert(!link_ok(node.neighbors()[a as int], v as int, slots@));
            return false;
        }
        let mut b: usize = a + 1;
        while b < d
            invariant
                a < b <= d <= N,
                d == degree(node@),
                n == node@[a as int],
                forall|q: int| a < q < b ==> node@[a as int] != node@[q],
            decreases d - b,
        {
            if node.0[b] == n {
                return false;
            }
            b += 1;
        }
        a += 1;
    }
    if d > 0 && !(v < slots.len() && slots[v].is_valid()) {
        return false;
    }
    assert forall|k: int| 0 <= k < node.neighbors().len() implies link_ok(
        #[trigger] node.neighbors()[k],
        v as int,
        slots@,
    ) by {
        assert(link_ok(node@[k], v as int, slots@));
    }
    true
}

/// Whether a layer is in order. See `layer_wf`.
pub fn check_layer<const N: usize>(layer: &Vec<Node<N>>, slots: &Vec<VectorID>) -> (r: bool)
    ensures
        r == layer_wf(layer@, slots@),
{
    if layer.len() != slots.len() {
        return false;
    }
    let mut v: usize = 0;
    while v < layer.len()
        invariant
            v <= layer@.len(),
            layer@.len() == slots@.len(),
            forall|w: int| 0 <= w < v ==> node_ok(#[trigger] layer@[w], w, slots@),
        decreases layer@.len() - v,
    {
        if !check_node(&layer[v], v, slots) {
            return false;
        }
        v += 1;
    }
    true
}

impl Snapshot {
    /// Whether the snapshot holds a record for the identifier.
    pub open spec fn stores(&self, k: u32) -> bool {
        k < self.records@.len() && self.records@[k as int] is Some
    }

    /// The state that the snapshot describes.
    pub open spec fn state(&self) -> State {
        State {
            contents: Contents {
                slots: self.slots@,
                vectors: Map::new(
                    |k: u32| self.stores(k),
                    |k: u32| self.records@[k as int]->0.vector@,
                ),
                data: Map::new(|k: u32| self.stores(k), |k: u32| self.records@[k as int]->0.data@),
                count: live_ids(self.slots@).len(),
                dimension: self.dimension as nat,
            },
            config: self.config,
            relevancy: self.relevancy,
            base_layer: self.base_layer@,
            upper_layers: Seq::new(self.upper_layers@.len(), |l: int| self.upper_layers@[l]@),
        }
    }

    /// The snapshot holds a record for each live slot and for no other, and
    /// the state that it describes is in order.
    pub open spec fn wf(&self) -> bool {
        &&& self.records@.len() == self.slots@.len()
        &&& forall|i: int|
            0 <= i < self.slots@.len() ==> ((#[trigger] self.records@[i]) is Some)
                == self.slots@[i].valid()
        &&& self.state().wf()
    }

    /// Whether the snapshot is in order.
    pub fn is_valid(&self) -> (r: bool)
        ensures
            r == self.wf(),
    {
        if self.slots.len() >= 0xFFFF_FFFFusize || self.records.len() != self.slots.len() {
            return false;
        }
        let ghost contents = self.state().contents;
        let mut i: usize = 0;
        while i < self.slots.len()
            invariant
                i <= self.slots@.len(),
                self.records@.len() == self.slots@.len(),
                self.slots@.len() < u32::MAX,
                contents == self.state().contents,
                forall|k: int|
                    0 <= k < i ==> ((#[trigger] self.records@[k]) is Some) == self.slots@[k].valid(),
                forall|k: int|
                    0 <= k < i ==> (#[trigger] self.slots@[k]) == VectorID(INVALID) || self.slots@[k].0
                        == k,
                forall|k: int|
                    0 <= k < i && self.records@[k] is Some ==> (#[trigger] self.records@[k])->0.vector@.len()
                        == self.dimension,
            decreases self.slots@.len() - i,
        {
            let slot: VectorID = self.slots[i];
            match &self.records[i] {
                Some(record) => {
                    if !slot.is_valid() || slot.index() != i {
                        proof {
                            if self.wf() {
                                assert(contents.slots[i as int] == VectorID(INVALID)
                                    || contents.slots[i as int].0 == i);
                            }
                        }
                        return false;
                    }
                    if record.vector.len() != self.dimension {
                        proof {
                            if self.wf() {
                                assert(self.stores(i as u32));
                                assert(contents.vectors.contains_key(i as u32));
                                assert(contents.vectors[i as u32].len() == contents.dimension);
                            }
                        }
                        return false;
                    }
                },
                None => {
                    if slot.is_valid() {
                        return false;
                    }
                    assert(slot == VectorID(INVALID));
                },
            }
            i += 1;
        }
        if !check_layer(&self.base_layer, &self.slots) {
            return false;
        }
        let mut l: usize = 0;
        while l < self.upper_layers.len()
            invariant
                l <= self.upper_layers@.len(),
                forall|k: int| 0 <= k < l ==> layer_wf((#[trigger] self.upper_layers@[k])@, self.slots@),
            decreases self.upper_layers@.len() - l,
        {
            if !check_layer(&self.upper_layers[l], &self.slots) {
                proof {
                    assert(self.state().upper_layers[l as int] == self.upper_layers@[l as int]@);
                }
                return false;
            }
            l += 1;
        }
        proof {
            lemma_live_bound(self.slots@);
            assert(contents.vectors.dom() =~= live_ids(self.slots@)) by {
                assert forall|k: u32| contents.vectors.dom().contains(k) <==> live_ids(
                    self.slots@,
                ).contains(k) by {
                    if k < self.slots@.len() {
                        assert((self.records@[k as int] is Some) == self.slots@[k as int].valid());
                    }
                }
            }
            assert(contents.data.dom() =~= live_ids(self.slots@)) by {
                assert forall|k: u32| contents.data.dom().contains(k) <==> live_ids(
                    self.slots@,
                ).contains(k) by {
                    if k < self.slots@.len() {
                        assert((self.records@[k as int] is Some) == self.slots@[k as int].valid());
                    }
                }
            }
            assert forall|k: u32| contents.vectors.contains_key(k) implies (
            #[trigger] contents.vectors[k]).len() == contents.dimension by {
                assert(self.records@[k as int] is Some);
            }
            assert(contents.wf());
            assert forall|k: int| 0 <= k < self.state().upper_layers.len() implies layer_wf(
                #[trigger] self.state().upper_layers[k],
                contents.slots,
            ) by {
                assert(layer_wf(self.upper_layers@[k]@, self.slots@));
            }
        }
        true
    }
}

} // verus!
