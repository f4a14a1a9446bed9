//! The layers of the graph: what holds of their neighbour lists, and the
//! operations that work on a whole layer.

use vstd::prelude::*;
use crate::model::live;
use crate::node::{lemma_degree, stems_from, Node};
use crate::vector::{VectorID, INVALID};

verus! {

/// Whether `n` may stand in the neighbour list of node `v`: it names a live
/// record other than `v` itself.
pub open spec fn link_ok(n: VectorID, v: int, slots: Seq<VectorID>) -> bool {
    live(slots, n.0 as int) && n.0 != v
}

/// What holds of the node at position `v`: its list is packed and names no
/// neighbour twice, every neighbour is a live record other than `v`, and a
/// node whose own record is not live has no neighbours.
pub open spec fn node_ok<const N: usize>(node: Node<N>, v: int, slots: Seq<VectorID>) -> bool {
    &&& node.wf()
    &&& forall|j: int|
        0 <= j < node.neighbors().len() ==> link_ok(#[trigger] node.neighbors()[j], v, slots)
    &&& (!live(slots, v) ==> node.neighbors().len() == 0)
}

/// A layer has one node for each slot, and each node is in order.
pub open spec fn layer_wf<const N: usize>(layer: Seq<Node<N>>, slots: Seq<VectorID>) -> bool {
    &&& layer.len() == slots.len()
    &&& forall|v: int| 0 <= v < layer.len() ==> node_ok(#[trigger] layer[v], v, slots)
}

/// How a neighbour list looks after `id` was taken out of it: the same but
/// for the one place where `id` stood.
pub open spec fn taken_out(before: Seq<VectorID>, after: Seq<VectorID>, id: VectorID) -> bool {
    if before.contains(id) {
        exists|p: int| 0 <= p < before.len() && before[p] == id && after == #[trigger] before.remove(p)
    } else {
        after == before
    }
}

/// What `purge` leaves of a layer: the node of `id` has no neighbours, and
/// `id` is taken out of every other list.
pub open spec fn purged<const N: usize>(
    before: Seq<Node<N>>,
    after: Seq<Node<N>>,
    id: VectorID,
) -> bool {
    &&& after.len() == before.len()
    &&& forall|v: int| 0 <= v < after.len() ==> (#[trigger] after[v]).wf()
    &&& forall|v: int|
        0 <= v < after.len() && v != id.0 ==> taken_out(
            before[v].neighbors(),
            (#[trigger] after[v]).neighbors(),
            id,
        )
    &&& 0 <= id.0 < after.len() ==> after[id.0 as int].neighbors().len() == 0
}

/// Takes a record out of a layer: its own node loses its neighbours and no
/// other node keeps it as a neighbour.
pub fn purge<const N: usize>(layer: &mut Vec<Node<N>>, id: VectorID)
    requires
        forall|v: int| 0 <= v < old(layer)@.len() ==> (#[trigger] old(layer)@[v]).wf(),
    ensures
        purged(old(layer)@, final(layer)@, id),
{
    let ghost before = layer@;
    let mut v: usize = 0;
    while v < layer.len()
        invariant
            v <= layer@.len(),
            layer@.len() == before.len(),
            forall|w: int| 0 <= w < before.len() ==> (#[trigger] before[w]).wf(),
            forall|w: int| 0 <= w < layer@.len() ==> (#[trigger] layer@[w]).wf(),
            forall|w: int| v <= w < layer@.len() ==> layer@[w] == before[w],
            forall|w: int|
                0 <= w < v && w != id.0 ==> taken_out(
                    before[w].neighbors(),
                    (#[trigger] layer@[w]).neighbors(),
                    id,
                ),
            0 <= id.0 < v ==> layer@[id.0 as int].neighbors().len() == 0,
        decreases layer@.len() - v,
    {
        if v == id.index() {
            layer[v].clear();
        } else {
            let ghost list = layer@[v as int].neighbors();
            proof {
                lemma_degree(layer@[v as int]@);
            }
            let r = layer[v].remove(id);
            proof {
                assert(list == before[v as int].neighbors());
                match r {
                    Some(p) => {
                        assert(list[p as int] == id);
                        assert(list.contains(id));
                        assert(layer@[v as int].neighbors() == list.remove(p as int));
                    },
                    None => {},
                }
            }
        }
        v += 1;
    }
}

/// Adds nodes without neighbours until the layer has `len` of them.
pub fn extend<const N: usize>(layer: &mut Vec<Node<N>>, len: usize)
    ensures
        final(layer)@.len() == if old(layer)@.len() < len {
            len as int
        } else {
            old(layer)@.len() as int
        },
        forall|v: int| 0 <= v < old(layer)@.len() ==> final(layer)@[v] == old(layer)@[v],
        forall|v: int|
            old(layer)@.len() <= v < final(layer)@.len() ==> (#[trigger] final(layer)@[v]).wf()
                && final(layer)@[v].neighbors().len() == 0,
{
    while layer.len() < len
        invariant
            old(layer)@.len() <= layer@.len(),
            layer@.len() <= len || layer@.len() == old(layer)@.len(),
            forall|v: int| 0 <= v < old(layer)@.len() ==> layer@[v] == old(layer)@[v],
            forall|v: int|
                old(layer)@.len() <= v < layer@.len() ==> (#[trigger] layer@[v]).wf()
                    && layer@[v].neighbors().len() == 0,
        decreases len - layer@.len(),
    {
        layer.push(Node::new());
    }
}

/// Whether no node of the layer has `id` as a neighbour and the node of
/// `id` has none.
pub open spec fn isolated<const N: usize>(layer: Seq<Node<N>>, id: VectorID) -> bool {
    &&& forall|v: int| 0 <= v < layer.len() ==> !(#[trigger] layer[v]).neighbors().contains(id)
    &&& 0 <= id.0 < layer.len() ==> layer[id.0 as int].neighbors().len() == 0
}

/// A node stays in order when a live record other than itself is added to
/// its neighbours, or when neighbours leave.
pub proof fn lemma_node_kept<const N: usize>(
    before: Node<N>,
    after: Node<N>,
    v: int,
    slots: Seq<VectorID>,
    id: VectorID,
)
    requires
        node_ok(before, v, slots),
        after.wf(),
        stems_from(after.neighbors(), before.neighbors(), id),
        link_ok(id, v, slots),
        live(slots, v),
    ensures
        node_ok(after, v, slots),
{
    assert forall|j: int| 0 <= j < after.neighbors().len() implies link_ok(
        #[trigger] after.neighbors()[j],
        v,
        slots,
    ) by {
        let x = after.neighbors()[j];
        if x != id {
            let k = choose|k: int| 0 <= k < before.neighbors().len() && before.neighbors()[k] == x;
            assert(link_ok(before.neighbors()[k], v, slots));
        }
    }
}

/// The node of an upper layer that holds the first neighbours of a base
/// node in order is in order.
pub proof fn lemma_upper_node_ok(base: Node<64>, upper: Node<32>, v: int, slots: Seq<VectorID>)
    requires
        node_ok(base, v, slots),
        upper.wf(),
        upper.neighbors().len() <= base.neighbors().len(),
        forall|j: int| 0 <= j < upper.neighbors().len() ==> upper.neighbors()[j] == base.neighbors()[j],
    ensures
        node_ok(upper, v, slots),
{
    assert forall|j: int| 0 <= j < upper.neighbors().len() implies link_ok(
        #[trigger] upper.neighbors()[j],
        v,
        slots,
    ) by {
        assert(link_ok(base.neighbors()[j], v, slots));
    }
}

/// A layer in order stays in order when one node is replaced by a node in
/// order.
pub proof fn lemma_layer_kept<const N: usize>(
    before: Seq<Node<N>>,
    after: Seq<Node<N>>,
    v: int,
    slots: Seq<VectorID>,
)
    requires
        layer_wf(before, slots),
        0 <= v < before.len(),
        after == before.update(v, after[v]),
        node_ok(after[v], v, slots),
    ensures
        layer_wf(after, slots),
{
    assert forall|w: int| 0 <= w < after.len() implies node_ok(#[trigger] after[w], w, slots) by {
        if w != v {
            assert(after[w] == before[w]);
        }
    }
}

/// A layer in order stays in order when slots are added behind the others
/// and the layer gets a node without neighbours for each of them.
pub proof fn lemma_layer_grown<const N: usize>(
    before: Seq<Node<N>>,
    after: Seq<Node<N>>,
    slots: Seq<VectorID>,
    grown: Seq<VectorID>,
)
    requires
        layer_wf(before, slots),
        slots.len() <= grown.len(),
        forall|i: int| 0 <= i < slots.len() ==> grown[i] == slots[i],
        after.len() == grown.len(),
        forall|v: int| 0 <= v < before.len() ==> after[v] == before[v],
        forall|v: int|
            before.len() <= v < after.len() ==> (#[trigger] after[v]).wf() && after[v].neighbors().len()
                == 0,
    ensures
        layer_wf(after, grown),
{
    assert forall|v: int| 0 <= v < after.len() implies node_ok(#[trigger] after[v], v, grown) by {
        if v < before.len() {
            assert(node_ok(before[v], v, slots));
            assert forall|j: int| 0 <= j < after[v].neighbors().len() implies link_ok(
                #[trigger] after[v].neighbors()[j],
                v,
                grown,
            ) by {
                assert(link_ok(before[v].neighbors()[j], v, slots));
            }
        }
    }
}

/// A purged record is isolated.
pub proof fn lemma_purged_isolated<const N: usize>(
    before: Seq<Node<N>>,
    after: Seq<Node<N>>,
    id: VectorID,
)
    requires
        forall|v: int| 0 <= v < before.len() ==> (#[trigger] before[v]).wf(),
        purged(before, after, id),
    ensures
        isolated(after, id),
{
    assert forall|v: int| 0 <= v < after.len() implies !(#[trigger] after[v]).neighbors().contains(
        id,
    ) by {
        if v != id.0 {
            let old_list = before[v].neighbors();
            let new_list = after[v].neighbors();
            lemma_degree(before[v]@);
            assert(before[v].wf());
            assert forall|a: int, b: int| 0 <= a < b < old_list.len() implies old_list[a]
                != old_list[b] by {
                assert(before[v]@[a] != before[v]@[b]);
            }
            if new_list.contains(id) {
                let j = choose|j: int| 0 <= j < new_list.len() && new_list[j] == id;
                lemma_taken_out(old_list, new_list, id, j);
            }
        }
    }
}

/// Purging one record leaves another one isolated if it was.
pub proof fn lemma_purge_keeps_isolated<const N: usize>(
    before: Seq<Node<N>>,
    after: Seq<Node<N>>,
    id: VectorID,
    other: VectorID,
)
    requires
        forall|v: int| 0 <= v < before.len() ==> (#[trigger] before[v]).wf(),
        purged(before, after, id),
        isolated(before, other),
    ensures
        isolated(after, other),
{
    assert forall|v: int| 0 <= v < after.len() implies !(#[trigger] after[v]).neighbors().contains(
        other,
    ) by {
        if v != id.0 {
            let old_list = before[v].neighbors();
            let new_list = after[v].neighbors();
            lemma_degree(before[v]@);
            assert(before[v].wf());
            assert forall|a: int, b: int| 0 <= a < b < old_list.len() implies old_list[a]
                != old_list[b] by {
                assert(before[v]@[a] != before[v]@[b]);
            }
            if new_list.contains(other) {
                let j = choose|j: int| 0 <= j < new_list.len() && new_list[j] == other;
                lemma_taken_out(old_list, new_list, id, j);
                assert(!before[v].neighbors().contains(other));
            }
        }
    }
    if 0 <= other.0 < after.len() && other.0 != id.0 {
        let v = other.0 as int;
        assert(before[v].neighbors().len() == 0);
        assert(!before[v].neighbors().contains(id));
        assert(taken_out(before[v].neighbors(), after[v].neighbors(), id));
    }
}

/// A layer in order stays in order when the slot of an isolated record is
/// tombstoned.
pub proof fn lemma_isolated_wf<const N: usize>(layer: Seq<Node<N>>, id: VectorID, slots: Seq<VectorID>)
    requires
        layer_wf(layer, slots),
        isolated(layer, id),
        0 <= id.0 < slots.len(),
    ensures
        layer_wf(layer, slots.update(id.0 as int, VectorID(INVALID))),
{
    let dead = slots.update(id.0 as int, VectorID(INVALID));
    assert forall|v: int| 0 <= v < layer.len() implies node_ok(#[trigger] layer[v], v, dead) by {
        assert(node_ok(layer[v], v, slots));
        assert forall|j: int| 0 <= j < layer[v].neighbors().len() implies link_ok(
            #[trigger] layer[v].neighbors()[j],
            v,
            dead,
        ) by {
            assert(link_ok(layer[v].neighbors()[j], v, slots));
            assert(layer[v].neighbors().contains(layer[v].neighbors()[j]));
        }
    }
}

/// What is left in a list after `id` was taken out was there before, and
/// is not `id`.
pub proof fn lemma_taken_out(before: Seq<VectorID>, after: Seq<VectorID>, id: VectorID, j: int)
    requires
        taken_out(before, after, id),
        forall|a: int, b: int| 0 <= a < b < before.len() ==> before[a] != before[b],
        0 <= j < after.len(),
    ensures
        before.contains(after[j]),
        after[j] != id,
{
    if before.contains(id) {
        let p = choose|p: int| 0 <= p < before.len() && before[p] == id && after == #[trigger] before.remove(p);
        let q = if j < p { j } else { j + 1 };
        assert(after[j] == before[q]);
    } else {
        assert(after[j] == before[j]);
    }
}

/// A layer in order stays in order when a record is purged from it,
/// whether its slot stays live or is tombstoned.
pub proof fn lemma_purged_wf<const N: usize>(
    before: Seq<Node<N>>,
    after: Seq<Node<N>>,
    id: VectorID,
    slots: Seq<VectorID>,
)
    requires
        layer_wf(before, slots),
        purged(before, after, id),
        0 <= id.0 < slots.len(),
    ensures
        layer_wf(after, slots),
        layer_wf(after, slots.update(id.0 as int, VectorID(INVALID))),
{
    let dead = slots.update(id.0 as int, VectorID(INVALID));
    assert forall|v: int| 0 <= v < after.len() implies node_ok(#[trigger] after[v], v, slots) && node_ok(
        after[v],
        v,
        dead,
    ) by {
        if v != id.0 {
            let old_list = before[v].neighbors();
            let new_list = after[v].neighbors();
            assert(node_ok(before[v], v, slots));
            lemma_degree(before[v]@);
            assert forall|a: int, b: int| 0 <= a < b < old_list.len() implies old_list[a]
                != old_list[b] by {
                assert(before[v]@[a] != before[v]@[b]);
            }
            assert forall|j: int| 0 <= j < new_list.len() implies link_ok(
                #[trigger] new_list[j],
                v,
                slots,
            ) && link_ok(new_list[j], v, dead) by {
                lemma_taken_out(old_list, new_list, id, j);
                let k = choose|k: int| 0 <= k < old_list.len() && old_list[k] == new_list[j];
                assert(link_ok(old_list[k], v, slots));
            }
            if !live(slots, v) {
                assert(old_list.len() == 0);
                assert(!old_list.contains(id));
            }
        }
    }
}

/// Whether a list got no neighbour but from `fresh`: every neighbour in
/// `after` is a neighbour in `before` or one of `fresh`.
pub open spec fn gained_only(after: Seq<VectorID>, before: Seq<VectorID>, fresh: Set<VectorID>) -> bool {
    forall|j: int| 0 <= j < after.len() ==> fresh.contains(#[trigger] after[j]) || before.contains(after[j])
}

/// Whether no links were made but with the records of `fresh`: of the
/// nodes that both layers have, those of other records got no neighbour
/// but from `fresh`.
pub open spec fn links_only<const N: usize>(
    after: Seq<Node<N>>,
    before: Seq<Node<N>>,
    fresh: Set<VectorID>,
) -> bool {
    forall|v: int|
        0 <= v < before.len() && v < after.len() && !fresh.contains(VectorID(v as u32)) ==> gained_only(
            (#[trigger] after[v]).neighbors(),
            before[v].neighbors(),
            fresh,
        )
}

/// A layer left as it is made no links.
pub proof fn lemma_links_only_same<const N: usize>(layer: Seq<Node<N>>, fresh: Set<VectorID>)
    ensures
        links_only(layer, layer, fresh),
{
    assert forall|v: int| 0 <= v < layer.len() implies gained_only(
        (#[trigger] layer[v]).neighbors(),
        layer[v].neighbors(),
        fresh,
    ) by {
        let list = layer[v].neighbors();
        assert forall|j: int| 0 <= j < list.len() implies list.contains(#[trigger] list[j]) by {}
    }
}

/// Links made one after the other with records of `fresh` are links with
/// records of `fresh`.
pub proof fn lemma_links_only_then<const N: usize>(
    first: Seq<Node<N>>,
    second: Seq<Node<N>>,
    third: Seq<Node<N>>,
    fresh: Set<VectorID>,
)
    requires
        links_only(second, first, fresh),
        links_only(third, second, fresh),
        first.len() <= second.len(),
    ensures
        links_only(third, first, fresh),
{
    assert forall|v: int|
        0 <= v < first.len() && v < third.len() && !fresh.contains(VectorID(v as u32)) implies gained_only(
        (#[trigger] third[v]).neighbors(),
        first[v].neighbors(),
        fresh,
    ) by {
        let a = first[v].neighbors();
        let b = second[v].neighbors();
        let c = third[v].neighbors();
        assert(gained_only(b, a, fresh));
        assert(gained_only(c, b, fresh));
        assert forall|j: int| 0 <= j < c.len() implies fresh.contains(#[trigger] c[j]) || a.contains(
            c[j],
        ) by {
            if !fresh.contains(c[j]) {
                let k = choose|k: int| 0 <= k < b.len() && b[k] == c[j];
                assert(fresh.contains(b[k]) || a.contains(b[k]));
            }
        }
    }
}

/// Links with records of `fresh` are links with records of a larger set.
pub proof fn lemma_links_only_wider<const N: usize>(
    after: Seq<Node<N>>,
    before: Seq<Node<N>>,
    fresh: Set<VectorID>,
    wider: Set<VectorID>,
)
    requires
        links_only(after, before, fresh),
        fresh.subset_of(wider),
    ensures
        links_only(after, before, wider),
{
    assert forall|v: int|
        0 <= v < before.len() && v < after.len() && !wider.contains(VectorID(v as u32)) implies gained_only(
        (#[trigger] after[v]).neighbors(),
        before[v].neighbors(),
        wider,
    ) by {
        let a = before[v].neighbors();
        let c = after[v].neighbors();
        assert(gained_only(c, a, fresh));
        assert forall|j: int| 0 <= j < c.len() implies wider.contains(#[trigger] c[j]) || a.contains(
            c[j],
        ) by {
            assert(fresh.contains(c[j]) || a.contains(c[j]));
        }
    }
}

/// Replacing the node of `id`, or giving another node `id` as a
/// neighbour, makes links with `id` only.
pub proof fn lemma_links_only_node<const N: usize>(
    before: Seq<Node<N>>,
    after: Seq<Node<N>>,
    v: int,
    id: VectorID,
)
    requires
        0 <= v < before.len(),
        after == before.update(v, after[v]),
        v == id.0 || stems_from(after[v].neighbors(), before[v].neighbors(), id),
    ensures
        links_only(after, before, set![id]),
{
    let fresh = set![id];
    assert forall|w: int|
        0 <= w < before.len() && w < after.len() && !fresh.contains(VectorID(w as u32)) implies gained_only(
        (#[trigger] after[w]).neighbors(),
        before[w].neighbors(),
        fresh,
    ) by {
        let list = after[w].neighbors();
        if w != v {
            assert(after[w] == before[w]);
            assert forall|j: int| 0 <= j < list.len() implies list.contains(#[trigger] list[j]) by {}
        } else {
            assert(VectorID(w as u32) != id);
            assert(stems_from(list, before[v].neighbors(), id));
        }
    }
}

/// Purging a record makes no links.
pub proof fn lemma_purged_links_only<const N: usize>(
    before: Seq<Node<N>>,
    after: Seq<Node<N>>,
    id: VectorID,
    fresh: Set<VectorID>,
)
    requires
        forall|v: int| 0 <= v < before.len() ==> (#[trigger] before[v]).wf(),
        purged(before, after, id),
    ensures
        links_only(after, before, fresh),
{
    assert forall|v: int|
        0 <= v < before.len() && v < after.len() && !fresh.contains(VectorID(v as u32)) implies gained_only(
        (#[trigger] after[v]).neighbors(),
        before[v].neighbors(),
        fresh,
    ) by {
        let old_list = before[v].neighbors();
        let new_list = after[v].neighbors();
        if v != id.0 {
            lemma_degree(before[v]@);
            assert(before[v].wf());
            assert forall|a: int, b: int| 0 <= a < b < old_list.len() implies old_list[a]
                != old_list[b] by {
                assert(before[v]@[a] != before[v]@[b]);
            }
            assert forall|j: int| 0 <= j < new_list.len() implies old_list.contains(
                #[trigger] new_list[j],
            ) by {
                lemma_taken_out(old_list, new_list, id, j);
            }
        }
    }
}

} // verus!
