//! What a collection holds, as mathematical values: the slot table, the
//! stored vectors and payloads, the count and the dimension.

use vstd::prelude::*;
use crate::err::Error;
use crate::metadata::MetadataView;
use crate::vector::{VectorID, INVALID};

verus! {

/// A record as a mathematical value.
pub struct RecordView {
    pub vector: Seq<u32>,
    pub data: MetadataView,
}

/// The contents of a collection.
pub struct Contents {
    /// For each identifier handed out so far, the identifier itself while
    /// its record lives and the invalid identifier once it is deleted.
    pub slots: Seq<VectorID>,
    pub vectors: Map<u32, Seq<u32>>,
    pub data: Map<u32, MetadataView>,
    pub count: nat,
    pub dimension: nat,
}

/// Whether position `k` of a slot table holds a live record.
pub open spec fn live(slots: Seq<VectorID>, k: int) -> bool {
    0 <= k < slots.len() && slots[k].valid()
}

/// The identifiers of the live records of a slot table.
pub open spec fn live_ids(slots: Seq<VectorID>) -> Set<u32> {
    Set::new(|k: u32| live(slots, k as int))
}

/// The slot table of `n` records of which none was deleted.
pub open spec fn fresh_slots(n: nat) -> Seq<VectorID> {
    Seq::new(n, |i: int| VectorID(i as u32))
}

impl Contents {
    /// The contents of a collection that never held a record.
    pub open spec fn empty() -> Contents {
        Contents {
            slots: Seq::empty(),
            vectors: Map::empty(),
            data: Map::empty(),
            count: 0,
            dimension: 0,
        }
    }

    /// Every slot is either tombstoned or holds its own position.
    pub open spec fn slots_consistent(self) -> bool {
        forall|i: int|
            0 <= i < self.slots.len() ==> (#[trigger] self.slots[i]) == VectorID(INVALID)
                || self.slots[i].0 == i
    }

    /// The count is the number of stored vectors, of stored payloads and of
    /// live slots, which are the same identifiers.
    pub open spec fn cardinality(self) -> bool {
        &&& self.vectors.dom() == live_ids(self.slots)
        &&& self.data.dom() == live_ids(self.slots)
        &&& live_ids(self.slots).finite()
        &&& self.count == live_ids(self.slots).len()
    }

    /// Every stored vector has the collection's dimension.
    pub open spec fn dimension_locked(self) -> bool {
        forall|k: u32| self.vectors.contains_key(k) ==> (#[trigger] self.vectors[k]).len() == self.dimension
    }

    pub open spec fn wf(self) -> bool {
        &&& self.slots.len() < u32::MAX
        &&& self.slots_consistent()
        &&& self.cardinality()
        &&& self.dimension_locked()
    }

    /// Whether a live record has the identifier.
    pub open spec fn contains(self, id: VectorID) -> bool {
        self.vectors.contains_key(id.0)
    }

    /// The record of a live identifier.
    pub open spec fn record(self, id: VectorID) -> RecordView {
        RecordView { vector: self.vectors[id.0], data: self.data[id.0] }
    }

    /// The contents after a record was admitted: it gets the next slot.
    pub open spec fn insert(self, record: RecordView) -> Contents {
        let id = self.slots.len() as u32;
        Contents {
            slots: self.slots.push(VectorID(id)),
            vectors: self.vectors.insert(id, record.vector),
            data: self.data.insert(id, record.data),
            count: self.count + 1,
            dimension: record.vector.len(),
        }
    }

    /// What inserting a record answers: the collection is full, or the
    /// vector has the wrong length, or the record is taken in. While the
    /// collection is empty and has no dimension every length is right.
    pub open spec fn insert_outcome(self, record: RecordView) -> Result<(), Error> {
        if self.slots.len() + 1 >= u32::MAX {
            Err(Error::CollectionLimit)
        } else if !(self.count == 0 && self.dimension == 0) && record.vector.len() != self.dimension {
            Err(
                Error::InvalidDimension {
                    found: record.vector.len() as usize,
                    expected: self.dimension as usize,
                },
            )
        } else {
            Ok(())
        }
    }

    /// What replacing a record answers: no live record has the identifier,
    /// or the vector has the wrong length, or the record is replaced.
    pub open spec fn update_outcome(self, id: VectorID, record: RecordView) -> Result<(), Error> {
        if !self.contains(id) {
            Err(Error::RecordNotFound)
        } else if record.vector.len() != self.dimension {
            Err(
                Error::InvalidDimension {
                    found: record.vector.len() as usize,
                    expected: self.dimension as usize,
                },
            )
        } else {
            Ok(())
        }
    }

    /// The contents after the first `n` of the records were admitted in
    /// their order.
    pub open spec fn insert_first(self, records: Seq<RecordView>, n: nat) -> Contents
        decreases n,
    {
        if n == 0 {
            self
        } else {
            self.insert_first(records, (n - 1) as nat).insert(records[n - 1])
        }
    }

    /// The contents after all the records were admitted in their order.
    pub open spec fn insert_all(self, records: Seq<RecordView>) -> Contents {
        self.insert_first(records, records.len())
    }

    /// The contents after a live record was deleted: its slot is
    /// tombstoned and never used again.
    pub open spec fn delete(self, id: VectorID) -> Contents {
        Contents {
            slots: self.slots.update(id.0 as int, VectorID(INVALID)),
            vectors: self.vectors.remove(id.0),
            data: self.data.remove(id.0),
            count: (self.count - 1) as nat,
            dimension: self.dimension,
        }
    }

    /// The contents after a live record was replaced under its identifier.
    pub open spec fn update(self, id: VectorID, record: RecordView) -> Contents {
        Contents {
            slots: self.slots,
            vectors: self.vectors.insert(id.0, record.vector),
            data: self.data.insert(id.0, record.data),
            count: self.count,
            dimension: self.dimension,
        }
    }
}

/// Whether the vector at position `i` occurs at no earlier position.
pub open spec fn first_occurrence(records: Seq<RecordView>, i: int) -> bool {
    forall|j: int| 0 <= j < i ==> (#[trigger] records[j]).vector != records[i].vector
}

/// Of the first `n` records, those whose vector occurs at no earlier
/// position, in their order.
pub open spec fn unique_prefix(records: Seq<RecordView>, n: nat) -> Seq<RecordView>
    decreases n,
{
    if n == 0 {
        Seq::empty()
    } else if first_occurrence(records, n - 1) {
        unique_prefix(records, (n - 1) as nat).push(records[n - 1])
    } else {
        unique_prefix(records, (n - 1) as nat)
    }
}

/// The records without those that repeat an earlier vector.
pub open spec fn unique(records: Seq<RecordView>) -> Seq<RecordView> {
    unique_prefix(records, records.len())
}

/// Whether all the records have the length of the first.
pub open spec fn consistent(records: Seq<RecordView>) -> bool {
    forall|i: int| 0 <= i < records.len() ==> (#[trigger] records[i]).vector.len() == records[0].vector.len()
}

/// The contents of a collection built from records: those that repeat an
/// earlier vector are dropped, the others are admitted in their order.
pub open spec fn built(records: Seq<RecordView>) -> Contents {
    Contents::empty().insert_all(unique(records))
}

pub proof fn lemma_unique_prefix_bounds(records: Seq<RecordView>, n: nat)
    requires
        n <= records.len(),
    ensures
        unique_prefix(records, n).len() <= n,
        forall|i: int|
            0 <= i < unique_prefix(records, n).len() ==> exists|j: int|
                0 <= j < n && records[j] == #[trigger] unique_prefix(records, n)[i],
    decreases n,
{
    if n > 0 {
        lemma_unique_prefix_bounds(records, (n - 1) as nat);
        let shorter = unique_prefix(records, (n - 1) as nat);
        let longer = unique_prefix(records, n);
        assert forall|i: int| 0 <= i < longer.len() implies exists|j: int|
            0 <= j < n && records[j] == #[trigger] longer[i] by {
            if i < shorter.len() {
                let j = choose|j: int| 0 <= j < n - 1 && records[j] == shorter[i];
                assert(records[j] == longer[i]);
            } else {
                assert(records[n - 1] == longer[i]);
            }
        }
    }
}

/// Records without a repeated vector are all kept.
pub proof fn lemma_unique_of_distinct(records: Seq<RecordView>, n: nat)
    requires
        n <= records.len(),
        forall|i: int| 0 <= i < records.len() ==> first_occurrence(records, i),
    ensures
        unique_prefix(records, n) == records.take(n as int),
    decreases n,
{
    if n > 0 {
        lemma_unique_of_distinct(records, (n - 1) as nat);
        assert(first_occurrence(records, n - 1));
        assert(records.take(n as int) =~= records.take(n - 1).push(records[n - 1]));
    } else {
        assert(records.take(0) =~= Seq::<RecordView>::empty());
    }
}

/// Once a collection holds a record its dimension stays: a record of
/// another length is refused, and what is taken in, replaced or deleted
/// leaves the dimension as it is.
pub proof fn lemma_dimension_lock(before: Contents, id: VectorID, record: RecordView)
    requires
        before.wf(),
        before.count > 0,
    ensures
        record.vector.len() != before.dimension ==> before.insert_outcome(record) is Err
            && before.update_outcome(id, record) is Err,
        before.insert_outcome(record) is Ok ==> before.insert(record).dimension == before.dimension,
        before.update_outcome(id, record) is Ok ==> before.update(id, record).dimension
            == before.dimension,
        before.delete(id).dimension == before.dimension,
{
}

/// There are no more live records than slots.
pub proof fn lemma_live_bound(slots: Seq<VectorID>)
    requires
        slots.len() <= u32::MAX,
    ensures
        live_ids(slots).finite(),
        live_ids(slots).len() <= slots.len(),
    decreases slots.len(),
{
    if slots.len() == 0 {
        assert(live_ids(slots) =~= Set::<u32>::empty());
    } else {
        let shorter = slots.drop_last();
        lemma_live_bound(shorter);
        let last = (slots.len() - 1) as u32;
        assert(live_ids(slots).subset_of(live_ids(shorter).insert(last)));
        vstd::set_lib::lemma_len_subset(live_ids(slots), live_ids(shorter).insert(last));
    }
}

/// Admitting one record of the right length keeps the contents well formed.
pub proof fn lemma_insert_wf(before: Contents, record: RecordView)
    requires
        before.wf(),
        before.slots.len() + 1 < u32::MAX,
        before.count == 0 || record.vector.len() == before.dimension,
    ensures
        before.insert(record).wf(),
{
    let after = before.insert(record);
    let id = before.slots.len() as u32;
    assert(live_ids(after.slots) =~= live_ids(before.slots).insert(id));
    assert(!live_ids(before.slots).contains(id));
    assert(after.vectors.dom() =~= live_ids(after.slots));
    assert(after.data.dom() =~= live_ids(after.slots));
    if before.count == 0 {
        assert(live_ids(before.slots).len() == 0);
        assert(live_ids(before.slots) =~= Set::<u32>::empty());
    }
    assert forall|k: u32| after.vectors.contains_key(k) implies (#[trigger] after.vectors[k]).len()
        == after.dimension by {
        if k != id {
            assert(before.vectors.contains_key(k));
        }
    }
}

/// Deleting a live record keeps the contents well formed.
pub proof fn lemma_delete_wf(before: Contents, id: VectorID)
    requires
        before.wf(),
        before.contains(id),
    ensures
        before.delete(id).wf(),
        before.count > 0,
{
    let after = before.delete(id);
    assert(live_ids(before.slots).contains(id.0));
    assert(live_ids(after.slots) =~= live_ids(before.slots).remove(id.0));
    assert(after.vectors.dom() =~= live_ids(after.slots));
    assert(after.data.dom() =~= live_ids(after.slots));
    assert forall|k: u32| after.vectors.contains_key(k) implies (#[trigger] after.vectors[k]).len()
        == after.dimension by {
        assert(before.vectors.contains_key(k));
    }
}

/// Replacing a live record by one of the same length keeps the contents
/// well formed.
pub proof fn lemma_update_wf(before: Contents, id: VectorID, record: RecordView)
    requires
        before.wf(),
        before.contains(id),
        record.vector.len() == before.dimension,
    ensures
        before.update(id, record).wf(),
{
    let after = before.update(id, record);
    assert(live_ids(before.slots).contains(id.0));
    assert(after.vectors.dom() =~= live_ids(after.slots));
    assert(after.data.dom() =~= live_ids(after.slots));
    assert forall|k: u32| after.vectors.contains_key(k) implies (#[trigger] after.vectors[k]).len()
        == after.dimension by {
        if k != id.0 {
            assert(before.vectors.contains_key(k));
        }
    }
}

} // verus!
