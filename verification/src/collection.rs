//! The collection of vector records and its index.

use vstd::prelude::*;
use std::collections::HashMap;
use crate::bits::at_most;
use crate::dedup::deduplicate;
use crate::distance::{Distance, RELEVANCY_DISABLED};
use crate::err::Error;
use crate::graph::{
    extend, gained_only, isolated, layer_wf, lemma_isolated_wf, lemma_layer_grown, lemma_layer_kept,
    lemma_links_only_node, lemma_links_only_same, lemma_links_only_then, lemma_links_only_wider,
    lemma_node_kept, lemma_purge_keeps_isolated, lemma_purged_isolated, lemma_purged_links_only,
    lemma_purged_wf, lemma_upper_node_ok, link_ok, links_only, node_ok, purge, purged,
};
use crate::layers::{layer_sizes, sizes};
use crate::metadata::{Metadata, MetadataView};
use crate::model::{
    built, consistent, first_occurrence, lemma_delete_wf, lemma_insert_wf, lemma_live_bound,
    lemma_unique_of_distinct, lemma_unique_prefix_bounds, lemma_update_wf, live, live_ids, unique,
    Contents, RecordView,
};
use crate::node::{degree, lemma_degree, BaseNode, Node, UpperNode, BASE_LINKS, M};
use crate::results::{
    filter_relevant, lemma_selected, lemma_selected_prefix, relevant, result_precedes, result_views, results_distinct,
    results_ordered, selected, ResultView, SearchResult,
};
use crate::search::{
    beaten, callable, candidate_ok, distinct_ids, insert_ordered, keeps_best, layer_ok, lemma_keeps_all,
    measured, ordered, precedes, Candidate, Search,
};
use crate::snapshot::{Snapshot, State};
use crate::vector::{Vector, VectorID, INVALID};

verus! {

broadcast use vstd::std_specs::hash::group_hash_axioms;

/// The pattern of the default layer ratio, `0.3`.
pub const DEFAULT_ML: u32 = 0x3E99_999A;

/// The collection HNSW index configuration.
#[derive(Clone, Copy, Debug)]
pub struct Config {
    /// Nodes to consider during construction.
    pub ef_construction: usize,
    /// Nodes to consider during search.
    pub ef_search: usize,
    /// Layer ratio, as a single-precision bit pattern: the share of a
    /// layer's records that the layer above holds.
    pub ml: u32,
    /// Distance calculation function.
    pub distance: Distance,
}

impl Config {
    /// Creates a new collection config with the given parameters. The
    /// distance is given by its name.
    pub fn new(ef_construction: usize, ef_search: usize, ml: u32, distance: &str) -> (r: Result<
        Config,
        Error,
    >)
        ensures
            r == match Distance::parse(distance@) {
                Some(d) => Ok::<Config, Error>(
                    Config { ef_construction, ef_search, ml, distance: d },
                ),
                None => Err::<Config, Error>(Error::UnsupportedDistance),
            },
    {
        match Distance::from(distance) {
            Ok(d) => Ok(Config { ef_construction, ef_search, ml, distance: d }),
            Err(e) => Err(e),
        }
    }

    /// Sets the distance calculation function by its name. An unknown name
    /// leaves the configuration as it was.
    pub fn set_distance(&mut self, distance: &str) -> (r: Result<(), Error>)
        ensures
            match Distance::parse(distance@) {
                Some(d) => r == Ok::<(), Error>(()) && *final(self) == (Config {
                    distance: d,
                    ..*old(self)
                }),
                None => r == Err::<(), Error>(Error::UnsupportedDistance) && *final(self) == *old(self),
            },
    {
        match Distance::from(distance) {
            Ok(d) => {
                self.distance = d;
                Ok(())
            },
            Err(e) => Err(e),
        }
    }
}

impl Default for Config {
    /// Default configuration for the collection index: `ef_construction`
    /// 40, `ef_search` 15, `ml` 0.3, euclidean distance.
    fn default() -> (r: Self)
        ensures
            r == (Config {
                ef_construction: 40,
                ef_search: 15,
                ml: DEFAULT_ML,
                distance: Distance::Euclidean,
            }),
    {
        Config { ef_construction: 40, ef_search: 15, ml: DEFAULT_ML, distance: Distance::Euclidean }
    }
}

/// A record containing a vector and its associated data.
#[derive(Debug)]
pub struct Record {
    /// The vector embedding.
    pub vector: Vector,
    /// Data associated with the vector.
    pub data: Metadata,
}

impl View for Record {
    type V = RecordView;

    open spec fn view(&self) -> RecordView {
        RecordView { vector: self.vector@, data: self.data@ }
    }
}

impl Clone for Record {
    fn clone(&self) -> (r: Self)
        ensures
            r@ == self@,
    {
        Record { vector: self.vector.clone(), data: self.data.clone() }
    }
}

impl Record {
    /// Creates a new record with copies of a vector and data.
    pub fn new(vector: &Vector, data: &Metadata) -> (r: Self)
        ensures
            r@ == (RecordView { vector: vector@, data: data@ }),
    {
        Record { vector: vector.clone(), data: data.clone() }
    }
}

/// The records of a list as mathematical values.
pub open spec fn record_views(s: Seq<Record>) -> Seq<RecordView> {
    Seq::new(s.len(), |i: int| s[i]@)
}

/// The collection of vector records with HNSW indexing. The kernel `K`
/// does the arithmetic of the configured distance on two vectors of one
/// length.
pub struct Collection<K> {
    config: Config,
    relevancy: u32,
    data: HashMap<u32, Metadata>,
    vectors: HashMap<u32, Vector>,
    slots: Vec<VectorID>,
    base_layer: Vec<BaseNode>,
    upper_layers: Vec<Vec<UpperNode>>,
    count: usize,
    dimension: usize,
    kernel: K,
}

impl<K: Fn(Distance, &Vector, &Vector) -> u32> View for Collection<K> {
    type V = Contents;

    closed spec fn view(&self) -> Contents {
        Contents {
            slots: self.slots@,
            vectors: Map::new(|k: u32| self.vectors@.contains_key(k), |k: u32| self.vectors@[k]@),
            data: Map::new(|k: u32| self.data@.contains_key(k), |k: u32| self.data@[k]@),
            count: self.count as nat,
            dimension: self.dimension as nat,
        }
    }
}

impl<K: Fn(Distance, &Vector, &Vector) -> u32> Collection<K> {
    /// The kernel that measures distances.
    pub closed spec fn spec_kernel(&self) -> K {
        self.kernel
    }

    /// The stored vectors, by identifier: those of the view, as the values
    /// that the kernel is called on.
    pub closed spec fn spec_vectors(&self) -> Map<u32, Vector> {
        self.vectors@
    }

    /// The collection configuration.
    pub closed spec fn spec_config(&self) -> Config {
        self.config
    }

    /// The min/max distance to consider a neighbor, as a single-precision
    /// bit pattern.
    pub closed spec fn spec_relevancy(&self) -> u32 {
        self.relevancy
    }

    /// The nodes of the base layer, by identifier.
    pub closed spec fn spec_base_layer(&self) -> Seq<BaseNode> {
        self.base_layer@
    }

    /// The layers above the base, the lowest first, each by identifier.
    pub closed spec fn spec_upper_layers(&self) -> Seq<Seq<UpperNode>> {
        Seq::new(self.upper_layers@.len(), |l: int| self.upper_layers@[l]@)
    }

    /// The contents are well formed, the kernel can be called, and every
    /// layer has one node for each slot, whose neighbours are live records
    /// other than the node itself, each listed once.
    pub open spec fn wf(&self) -> bool {
        &&& self@.wf()
        &&& callable(self.spec_kernel())
        &&& layer_wf(self.spec_base_layer(), self@.slots)
        &&& forall|l: int|
            0 <= l < self.spec_upper_layers().len() ==> layer_wf(
                #[trigger] self.spec_upper_layers()[l],
                self@.slots,
            )
    }

    /// A collection stays in order when its contents stay well formed and
    /// neither its slots nor its graph change.
    proof fn lemma_same_graph(before: &Self, after: &Self)
        requires
            before.wf(),
            after@.wf(),
            after@.slots == before@.slots,
            after.spec_kernel() == before.spec_kernel(),
            after.spec_base_layer() == before.spec_base_layer(),
            after.spec_upper_layers() == before.spec_upper_layers(),
        ensures
            after.wf(),
    {
        assert forall|l: int| 0 <= l < after.spec_upper_layers().len() implies layer_wf(
            #[trigger] after.spec_upper_layers()[l],
            after@.slots,
        ) by {
            assert(layer_wf(before.spec_upper_layers()[l], before@.slots));
        }
    }

    /// Creates an empty collection with the given configuration and kernel.
    pub fn new(config: &Config, kernel: K) -> (r: Self)
        requires
            callable(kernel),
        ensures
            r.wf(),
            r@ == Contents::empty(),
            r.spec_config() == *config,
            r.spec_relevancy() == RELEVANCY_DISABLED,
            r.spec_kernel() == kernel,
            r.spec_upper_layers().len() == 0,
    {
        let r = Collection {
            count: 0,
            dimension: 0,
            relevancy: RELEVANCY_DISABLED,
            config: *config,
            data: HashMap::new(),
            vectors: HashMap::new(),
            slots: Vec::new(),
            base_layer: Vec::new(),
            upper_layers: Vec::new(),
            kernel,
        };
        proof {
            assert(r@.vectors =~= Map::<u32, Seq<u32>>::empty());
            assert(r@.data =~= Map::<u32, MetadataView>::empty());
            assert(live_ids(r@.slots) =~= Set::<u32>::empty());
            assert(r@.vectors.dom() =~= live_ids(r@.slots));
            assert(r@.data.dom() =~= live_ids(r@.slots));
        }
        r
    }

    /// Returns the vector record associated with the ID.
    pub fn get(&self, id: &VectorID) -> (r: Result<Record, Error>)
        requires
            self.wf(),
        ensures
            self@.contains(*id) ==> r is Ok && r->Ok_0@ == self@.record(*id),
            !self@.contains(*id) ==> r == Err::<Record, Error>(Error::RecordNotFound),
    {
        let vector = match self.vectors.get(&id.0) {
            Some(v) => v,
            None => {
                return Err(Error::RecordNotFound);
            },
        };
        assert(self@.data.dom().contains(id.0));
        let data = match self.data.get(&id.0) {
            Some(d) => d,
            None => {
                return Err(Error::RecordNotFound);
            },
        };
        Ok(Record::new(vector, data))
    }

    /// Returns the live vector records of the collection by their IDs.
    pub fn list(&self) -> (r: Result<HashMap<u32, Record>, Error>)
        requires
            self.wf(),
        ensures
            r is Ok,
            forall|k: u32| r->Ok_0@.contains_key(k) <==> self@.vectors.contains_key(k),
            forall|k: u32|
                r->Ok_0@.contains_key(k) ==> (#[trigger] r->Ok_0@[k])@ == self@.record(VectorID(k)),
    {
        let mut records: HashMap<u32, Record> = HashMap::new();
        let mut i: usize = 0;
        while i < self.slots.len()
            invariant
                self.wf(),
                i <= self.slots@.len(),
                forall|k: u32|
                    records@.contains_key(k) <==> (k < i && self@.vectors.contains_key(k)),
                forall|k: u32|
                    records@.contains_key(k) ==> (#[trigger] records@[k])@ == self@.record(
                        VectorID(k),
                    ),
            decreases self.slots@.len() - i,
        {
            let id: VectorID = self.slots[i];
            if id.is_valid() {
                assert(live(self@.slots, i as int));
                assert(live_ids(self@.slots).contains(i as u32));
                if let Ok(record) = self.get(&id) {
                    records.insert(id.0, record);
                }
            } else {
                assert(!live_ids(self@.slots).contains(i as u32));
            }
            i += 1;
        }
        assert forall|k: u32| self@.vectors.contains_key(k) implies k < self.slots@.len() by {
            assert(live_ids(self@.slots).contains(k));
        }
        Ok(records)
    }

    /// Returns the configured vector dimension of the collection.
    pub fn dimension(&self) -> (r: usize)
        ensures
            r == self@.dimension,
    {
        self.dimension
    }

    /// Sets the vector dimension of the collection, which must be empty.
    pub fn set_dimension(&mut self, dimension: usize) -> (r: Result<(), Error>)
        requires
            old(self).wf(),
        ensures
            final(self).wf(),
            old(self)@.count == 0 ==> r == Ok::<(), Error>(()) && final(self)@ == (Contents {
                dimension: dimension as nat,
                ..old(self)@
            }),
            old(self)@.count != 0 ==> r == Err::<(), Error>(Error::CollectionNotEmpty) && *final(self) == *old(self),
            final(self).spec_config() == old(self).spec_config(),
            final(self).spec_relevancy() == old(self).spec_relevancy(),
            final(self).spec_kernel() == old(self).spec_kernel(),
            final(self).spec_base_layer() == old(self).spec_base_layer(),
            final(self).spec_upper_layers() == old(self).spec_upper_layers(),
    {
        proof {
            assert(self@.vectors.dom() =~= self.vectors@.dom());
            if self@.count == 0 {
                live_ids(self@.slots).lemma_len0_is_empty();
            }
        }
        if !self.vectors.is_empty() {
            return Err(Error::CollectionNotEmpty);
        }
        self.dimension = dimension;
        proof {
            assert(self@.vectors =~= old(self)@.vectors);
            assert(self@.data =~= old(self)@.data);
            Self::lemma_same_graph(old(self), self);
        }
        Ok(())
    }

    /// Sets the min/max relevancy for the search results.
    pub fn set_relevancy(&mut self, relevancy: u32)
        ensures
            final(self).spec_relevancy() == relevancy,
            final(self)@ == old(self)@,
            old(self).wf() ==> final(self).wf(),
            final(self).spec_config() == old(self).spec_config(),
            final(self).spec_kernel() == old(self).spec_kernel(),
            final(self).spec_base_layer() == old(self).spec_base_layer(),
            final(self).spec_upper_layers() == old(self).spec_upper_layers(),
    {
        self.relevancy = relevancy;
        proof {
            if old(self).wf() {
                Self::lemma_same_graph(old(self), self);
            }
        }
    }

    /// Returns the collection configuration.
    pub fn config(&self) -> (r: Config)
        ensures
            r == self.spec_config(),
    {
        self.config
    }

    /// Replaces the collection configuration. The graph stays as it was
    /// built.
    pub fn set_config(&mut self, config: Config)
        ensures
            final(self).spec_config() == config,
            final(self)@ == old(self)@,
            old(self).wf() ==> final(self).wf(),
            final(self).spec_relevancy() == old(self).spec_relevancy(),
            final(self).spec_kernel() == old(self).spec_kernel(),
            final(self).spec_base_layer() == old(self).spec_base_layer(),
            final(self).spec_upper_layers() == old(self).spec_upper_layers(),
    {
        self.config = config;
        proof {
            if old(self).wf() {
                Self::lemma_same_graph(old(self), self);
            }
        }
    }

    /// Returns the relevancy threshold.
    pub fn relevancy(&self) -> (r: u32)
        ensures
            r == self.spec_relevancy(),
    {
        self.relevancy
    }

    /// Returns the number of vector records in the collection.
    pub fn len(&self) -> (r: usize)
        ensures
            r == self@.count,
    {
        self.count
    }

    /// Returns true if the collection is empty.
    pub fn is_empty(&self) -> (r: bool)
        ensures
            r == (self@.count == 0),
    {
        self.count == 0
    }

    /// Checks if the collection contains a vector ID.
    pub fn contains(&self, id: &VectorID) -> (r: bool)
        ensures
            r == self@.contains(*id),
    {
        self.vectors.contains_key(&id.0)
    }

    /// Validates a vector dimension against the collection's.
    pub fn validate_dimension(&self, vector: &Vector) -> (r: Result<(), Error>)
        ensures
            vector@.len() == self@.dimension ==> r == Ok::<(), Error>(()),
            vector@.len() != self@.dimension ==> r == Err::<(), Error>(
                Error::InvalidDimension { found: vector@.len() as usize, expected: self@.dimension as usize },
            ),
    {
        let found: usize = vector.len();
        let expected: usize = self.dimension;
        if found != expected {
            Err(Error::invalid_dimension(found, expected))
        } else {
            Ok(())
        }
    }

    /// Truncates the search result based on the relevancy score: with the
    /// filter on, only the results whose distance passes it are kept.
    pub fn truncate_irrelevant_result(&self, result: Vec<SearchResult>) -> (r: Vec<SearchResult>)
        ensures
            result_views(r@) == relevant(
                self.spec_config().distance,
                self.spec_relevancy(),
                result_views(result@),
            ),
    {
        filter_relevant(self.config.distance, self.relevancy, result)
    }
}

/// How many of the nearest vectors a search keeps on a layer above the
/// base.
pub const UPPER_EF: usize = 5;

/// A base node's list after `id` was added behind its neighbours: the same
/// list where it is full, where `id` is invalid or where `id` is in it.
pub open spec fn pushed(list: Seq<VectorID>, id: VectorID) -> Seq<VectorID> {
    if Node::<64>::takes(list, list.len() as int, id) {
        list.push(id)
    } else {
        list
    }
}

/// A base node's list after `id` was put at `index`: the later neighbours
/// move one place to the right and the last one leaves a full list. The
/// same list where it does not take `id` there.
pub open spec fn inserted(list: Seq<VectorID>, index: int, id: VectorID) -> Seq<VectorID> {
    if Node::<64>::takes(list, index, id) {
        list.insert(index, id).take(
            if list.len() < BASE_LINKS {
                (list.len() + 1) as int
            } else {
                BASE_LINKS as int
            },
        )
    } else {
        list
    }
}

/// Whether the kernel gives a distance between the records `from` and `n`
/// that does not rank behind `distance`.
pub open spec fn not_behind<K: Fn(Distance, &Vector, &Vector) -> u32>(
    kernel: K,
    kind: Distance,
    vectors: Map<u32, Vector>,
    from: VectorID,
    n: VectorID,
    distance: u32,
) -> bool {
    exists|d: u32| #[trigger]
        measured(kernel, kind, vectors[from.0]@, vectors[n.0]@, d) && kind.spec_rank(d)
            <= kind.spec_rank(distance)
}

/// Whether the kernel gives a distance between the records `from` and `n`
/// that ranks behind `distance`.
pub open spec fn behind<K: Fn(Distance, &Vector, &Vector) -> u32>(
    kernel: K,
    kind: Distance,
    vectors: Map<u32, Vector>,
    from: VectorID,
    n: VectorID,
    distance: u32,
) -> bool {
    exists|d: u32| #[trigger]
        measured(kernel, kind, vectors[from.0]@, vectors[n.0]@, d) && kind.spec_rank(distance)
            < kind.spec_rank(d)
}

/// Whether `index` is the place of a record at `distance` from `from`
/// among the neighbours of `from`: the neighbours before it were measured
/// and are not farther from `from`, and the neighbour at it, if there is
/// one, was measured and is farther.
pub open spec fn place_of<K: Fn(Distance, &Vector, &Vector) -> u32>(
    kernel: K,
    kind: Distance,
    vectors: Map<u32, Vector>,
    list: Seq<VectorID>,
    from: VectorID,
    distance: u32,
    index: int,
) -> bool {
    &&& 0 <= index <= list.len()
    &&& forall|j: int|
        0 <= j < index ==> not_behind(kernel, kind, vectors, from, #[trigger] list[j], distance)
    &&& index < list.len() ==> behind(kernel, kind, vectors, from, list[index], distance)
}

/// What making `to` a neighbour of `from` does to the list of `from`:
/// nothing where `to` is a neighbour already; otherwise `to` is put at its
/// place by distance.
pub open spec fn link_made<K: Fn(Distance, &Vector, &Vector) -> u32>(
    kernel: K,
    kind: Distance,
    vectors: Map<u32, Vector>,
    before: Seq<VectorID>,
    after: Seq<VectorID>,
    from: VectorID,
    to: VectorID,
    distance: u32,
) -> bool {
    if before.contains(to) {
        after == before
    } else {
        exists|index: int| #[trigger]
            place_of(kernel, kind, vectors, before, from, distance, index) && after == inserted(
                before,
                index,
                to,
            )
    }
}

/// The list of a record after the first `n` of the chosen candidates were
/// added behind its neighbours, one after the other.
pub open spec fn attached(list: Seq<VectorID>, chosen: Seq<Candidate>, n: nat) -> Seq<VectorID>
    decreases n,
{
    if n == 0 {
        list
    } else {
        pushed(attached(list, chosen, (n - 1) as nat), chosen[n - 1].vector_id)
    }
}

/// Whether one of the first `n` chosen candidates is the record at `v`.
pub open spec fn chosen_among(chosen: Seq<Candidate>, n: int, v: int) -> bool {
    exists|j: int| 0 <= j < n && j < chosen.len() && (#[trigger] chosen[j]).vector_id.0 == v
}

/// The most neighbours that a record gets when it is linked on a layer:
/// `2M` on the base layer and `M` above it.
pub open spec fn link_limit(entry_layer: int) -> int {
    if entry_layer == 0 {
        BASE_LINKS as int
    } else {
        M as int
    }
}

/// Whether the candidates can be the neighbours chosen for the record
/// `id`: they are live records other than `id`, each once, nearest first by
/// a distance that the kernel gives between the vector of `id` and theirs;
/// they are no more than the limit and than `ef_construction`; and there is
/// at least one, if there is another live record and `ef_construction` is
/// not 0.
pub open spec fn choice_ok<K: Fn(Distance, &Vector, &Vector) -> u32>(
    kernel: K,
    config: Config,
    vectors: Map<u32, Vector>,
    slots: Seq<VectorID>,
    id: VectorID,
    limit: int,
    chosen: Seq<Candidate>,
) -> bool {
    &&& ordered(chosen)
    &&& distinct_ids(chosen)
    &&& forall|i: int|
        0 <= i < chosen.len() ==> {
            let c = #[trigger] chosen[i];
            &&& c.vector_id != id
            &&& live(slots, c.vector_id.0 as int)
            &&& vectors.contains_key(c.vector_id.0)
            &&& c.rank == config.distance.spec_rank(c.distance)
            &&& measured(kernel, config.distance, vectors[id.0]@, vectors[c.vector_id.0]@, c.distance)
        }
    &&& chosen.len() <= limit
    &&& chosen.len() <= config.ef_construction
    &&& (config.ef_construction > 0 && exists|k: int| #[trigger] live(slots, k) && k != id.0)
        ==> chosen.len() > 0
}

/// What linking the record `id` with the chosen candidates does to the
/// base layer: the candidates are added behind the neighbours of `id` in
/// their order; `id` is put into the list of each candidate at its place by
/// distance; and no other node changes.
pub open spec fn links_made<K: Fn(Distance, &Vector, &Vector) -> u32>(
    kernel: K,
    config: Config,
    vectors: Map<u32, Vector>,
    slots: Seq<VectorID>,
    before: Seq<BaseNode>,
    after: Seq<BaseNode>,
    id: VectorID,
    limit: int,
    chosen: Seq<Candidate>,
) -> bool {
    &&& choice_ok(kernel, config, vectors, slots, id, limit, chosen)
    &&& after.len() == before.len()
    &&& after[id.0 as int].neighbors() == attached(
        before[id.0 as int].neighbors(),
        chosen,
        chosen.len(),
    )
    &&& forall|i: int|
        0 <= i < chosen.len() ==> link_made(
            kernel,
            config.distance,
            vectors,
            before[(#[trigger] chosen[i]).vector_id.0 as int].neighbors(),
            after[chosen[i].vector_id.0 as int].neighbors(),
            chosen[i].vector_id,
            id,
            chosen[i].distance,
        )
    &&& forall|v: int|
        0 <= v < before.len() && v != id.0 && !chosen_among(chosen, chosen.len() as int, v) ==> (
        #[trigger] after[v]) == before[v]
}

/// Whether `after` is the base layer `before` with the record `id` linked
/// into it: with the neighbours that a search chose for it.
#[verifier::opaque]
pub open spec fn linked_in<K: Fn(Distance, &Vector, &Vector) -> u32>(
    kernel: K,
    config: Config,
    vectors: Map<u32, Vector>,
    slots: Seq<VectorID>,
    before: Seq<BaseNode>,
    after: Seq<BaseNode>,
    id: VectorID,
    limit: int,
) -> bool {
    exists|chosen: Seq<Candidate>| #[trigger]
        links_made(kernel, config, vectors, slots, before, after, id, limit, chosen)
}

/// The layer on which a record is linked when a collection is built: the
/// highest layer, of those up to `top`, whose size is above the record's
/// identifier.
pub open spec fn layer_of(sizes: Seq<nat>, id: int, top: int) -> int
    decreases top,
{
    if top <= 0 {
        0
    } else if top < sizes.len() && id < sizes[top] {
        top
    } else {
        layer_of(sizes, id, top - 1)
    }
}

/// Whether the steps are the base layer of a collection that is built:
/// first without any neighbour, then after each of the records 1, 2, 3 and
/// so on was linked into it, each on its layer.
pub open spec fn built_chain<K: Fn(Distance, &Vector, &Vector) -> u32>(
    kernel: K,
    config: Config,
    vectors: Map<u32, Vector>,
    slots: Seq<VectorID>,
    steps: Seq<Seq<BaseNode>>,
    sizes: Seq<nat>,
) -> bool {
    &&& steps.len() >= 1
    &&& forall|v: int| 0 <= v < steps[0].len() ==> (#[trigger] steps[0][v]).neighbors().len() == 0
    &&& forall|i: int|
        0 <= i < steps.len() - 1 ==> linked_in(
            kernel,
            config,
            vectors,
            slots,
            #[trigger] steps[i],
            steps[i + 1],
            VectorID((i + 1) as u32),
            link_limit(layer_of(sizes, i + 1, sizes.len() - 1)),
        )
}

/// Whether the layers above the base are copies of the base layer as it
/// stood when the last record of each of them was linked: a node of a
/// record of the layer holds the first `M` entries of the base node, and
/// every other node has no neighbours.
pub open spec fn upper_copied(steps: Seq<Seq<BaseNode>>, sizes: Seq<nat>, upper: Seq<Seq<UpperNode>>) -> bool {
    &&& upper.len() + 1 == sizes.len()
    &&& forall|l: int, v: int|
        0 <= l < upper.len() && 0 <= v < upper[l].len() ==> if v < sizes[l + 1] {
            (#[trigger] upper[l][v])@ == steps[sizes[l + 1] - 1][v]@.take(32)
        } else {
            upper[l][v].neighbors().len() == 0
        }
}

/// The sizes of layers as numbers.
pub open spec fn as_sizes(layers: Seq<usize>) -> Seq<nat> {
    layers.map_values(|x: usize| x as nat)
}

/// Sizes that fall from layer to layer fall over any number of layers.
pub proof fn lemma_sizes_fall(sizes: Seq<nat>, a: int, b: int)
    requires
        0 <= a <= b < sizes.len(),
        forall|i: int| 0 < i < sizes.len() ==> #[trigger] sizes[i] < sizes[i - 1],
    ensures
        sizes[b] <= sizes[a],
    decreases b - a,
{
    if a < b {
        lemma_sizes_fall(sizes, a, b - 1);
    }
}

/// A record whose identifier is below the size of a layer, and not below
/// that of the layer above, is linked on that layer.
pub proof fn lemma_layer_of(sizes: Seq<nat>, id: int, layer: int, top: int)
    requires
        0 <= layer <= top < sizes.len(),
        forall|i: int| 0 < i < sizes.len() ==> #[trigger] sizes[i] < sizes[i - 1],
        id < sizes[layer] || layer == 0,
        layer + 1 < sizes.len() ==> sizes[layer + 1] <= id,
    ensures
        layer_of(sizes, id, top) == layer,
    decreases top - layer,
{
    if top > layer {
        lemma_sizes_fall(sizes, layer + 1, top);
        lemma_layer_of(sizes, id, layer, top - 1);
    }
}

/// Whether the steps are the base layer as it stands before the first `n`
/// of the records are linked into it on the base layer, one after the
/// other, and after each of them.
pub open spec fn linked_all<K: Fn(Distance, &Vector, &Vector) -> u32>(
    kernel: K,
    config: Config,
    vectors: Map<u32, Vector>,
    slots: Seq<VectorID>,
    steps: Seq<Seq<BaseNode>>,
    ids: Seq<VectorID>,
    n: int,
) -> bool {
    &&& steps.len() == n + 1
    &&& forall|i: int|
        0 <= i < n ==> linked_in(
            kernel,
            config,
            vectors,
            slots,
            #[trigger] steps[i],
            steps[i + 1],
            ids[i],
            BASE_LINKS as int,
        )
}

impl<K: Fn(Distance, &Vector, &Vector) -> u32> Collection<K> {
    /// Everything but the base layer is the same in both.
    spec fn same_but_base(&self, other: &Self) -> bool {
        &&& self.config == other.config
        &&& self.relevancy == other.relevancy
        &&& self.data == other.data
        &&& self.vectors == other.vectors
        &&& self.slots == other.slots
        &&& self.upper_layers == other.upper_layers
        &&& self.count == other.count
        &&& self.dimension == other.dimension
        &&& self.kernel == other.kernel
    }

    /// Everything but the layers is the same in both.
    spec fn same_but_graph(&self, other: &Self) -> bool {
        &&& self.config == other.config
        &&& self.relevancy == other.relevancy
        &&& self.data == other.data
        &&& self.vectors == other.vectors
        &&& self.slots == other.slots
        &&& self.count == other.count
        &&& self.dimension == other.dimension
        &&& self.kernel == other.kernel
    }

    /// The record is isolated in every layer.
    spec fn all_isolated(&self, id: VectorID) -> bool {
        &&& isolated(self.base_layer@, id)
        &&& forall|l: int|
            0 <= l < self.upper_layers@.len() ==> isolated((#[trigger] self.upper_layers@[l])@, id)
    }

    /// Every layer is what purging the record from the layer of `before`
    /// leaves.
    spec fn all_purged(&self, before: &Self, id: VectorID) -> bool {
        &&& purged(before.base_layer@, self.base_layer@, id)
        &&& self.upper_layers@.len() == before.upper_layers@.len()
        &&& forall|l: int|
            0 <= l < self.upper_layers@.len() ==> purged(
                (#[trigger] before.upper_layers@[l])@,
                self.upper_layers@[l]@,
                id,
            )
    }

    /// A live record has a vector of the collection's dimension and a
    /// payload, and nothing else is stored.
    proof fn lemma_stored(&self, k: u32)
        requires
            self@.wf(),
        ensures
            live(self.slots@, k as int) <==> self.vectors@.contains_key(k),
            live(self.slots@, k as int) <==> self.data@.contains_key(k),
            self.vectors@.contains_key(k) ==> self.vectors@[k]@.len() == self.dimension,
            self.vectors@.contains_key(k) ==> self.slots@[k as int] == VectorID(k),
            self.count <= self.slots@.len(),
    {
        assert(live_ids(self@.slots).contains(k) <==> live(self.slots@, k as int));
        assert(self@.vectors.contains_key(k) <==> self.vectors@.contains_key(k));
        assert(self@.data.contains_key(k) <==> self.data@.contains_key(k));
        if self.vectors@.contains_key(k) {
            assert(self@.vectors[k] == self.vectors@[k]@);
        }
        lemma_live_bound(self.slots@);
    }

    /// In a layer in order every neighbour names a stored vector of the
    /// collection's dimension.
    proof fn lemma_layer_ok<const N: usize>(&self, layer: Seq<Node<N>>, query: Seq<u32>)
        requires
            self@.wf(),
            layer_wf(layer, self.slots@),
            query.len() == self.dimension,
        ensures
            layer_ok(layer, query, self.vectors@),
    {
        assert forall|v: int, j: int| 0 <= v < layer.len() && 0 <= j < degree(layer[v]@) implies {
            let n = #[trigger] layer[v]@[j];
            n.0 < layer.len() && self.vectors@.contains_key(n.0) && self.vectors@[n.0]@.len()
                == query.len()
        } by {
            lemma_degree(layer[v]@);
            assert(node_ok(layer[v], v, self.slots@));
            assert(layer[v].neighbors()[j] == layer[v]@[j]);
            assert(link_ok(layer[v].neighbors()[j], v, self.slots@));
            self.lemma_stored(layer[v]@[j].0);
        }
    }

    /// The upper layers are in order, said of the field itself.
    proof fn lemma_upper(&self, l: int)
        requires
            self.wf(),
            0 <= l < self.upper_layers@.len(),
        ensures
            layer_wf(self.upper_layers@[l]@, self.slots@),
    {
        assert(self.spec_upper_layers()[l] == self.upper_layers@[l]@);
    }

    /// A collection is in order when its contents are well formed and each
    /// of its layers is in order.
    proof fn lemma_wf_from_layers(&self)
        requires
            self@.wf(),
            callable(self.kernel),
            layer_wf(self.base_layer@, self.slots@),
            forall|l: int|
                0 <= l < self.upper_layers@.len() ==> layer_wf(
                    (#[trigger] self.upper_layers@[l])@,
                    self.slots@,
                ),
        ensures
            self.wf(),
    {
        assert forall|l: int| 0 <= l < self.spec_upper_layers().len() implies layer_wf(
            #[trigger] self.spec_upper_layers()[l],
            self@.slots,
        ) by {
            assert(layer_wf(self.upper_layers@[l]@, self.slots@));
        }
    }

    /// The first live record other than `skip`, in the order of the slots.
    fn first_valid(&self, skip: VectorID) -> (r: Option<VectorID>)
        requires
            self.wf(),
        ensures
            match r {
                Some(id) => live(self.slots@, id.0 as int) && id != skip && forall|i: int|
                    0 <= i < id.0 && live(self.slots@, i) ==> VectorID(i as u32) == skip,
                None => forall|i: int| live(self.slots@, i) ==> VectorID(i as u32) == skip,
            },
    {
        let mut i: usize = 0;
        while i < self.slots.len()
            invariant
                self.wf(),
                i <= self.slots@.len(),
                forall|j: int| 0 <= j < i && live(self.slots@, j) ==> VectorID(j as u32) == skip,
            decreases self.slots@.len() - i,
        {
            let id: VectorID = self.slots[i];
            if id.is_valid() && id != skip {
                return Some(id);
            }
            i += 1;
        }
        None
    }

    /// Searches from the top layer down to `entry_layer` and returns the
    /// search as it stands there. On the layers above `entry_layer` the
    /// search keeps `UPPER_EF` vectors and goes on from the best of them; on
    /// `entry_layer` it works on the base layer's nodes and keeps `ef`
    /// vectors. The record `skip` is never met.
    fn descend(&self, query: &Vector, seed: VectorID, skip: VectorID, entry_layer: usize, ef: usize) -> (search:
        Search)
        requires
            self.wf(),
            query@.len() == self.dimension,
            live(self.slots@, seed.0 as int),
            entry_layer <= self.upper_layers@.len(),
        ensures
            search.inv(self.kernel, self.config.distance, query@, self.vectors@),
            search.visited@.len() == self.slots@.len(),
            search.nearest@.len() <= ef,
            ef > 0 && seed != skip ==> search.nearest@.len() > 0,
            seed != skip ==> forall|i: int|
                0 <= i < search.nearest@.len() ==> (#[trigger] search.nearest@[i]).vector_id != skip,
            search.ef == ef,
            self.upper_layers@.len() == entry_layer && seed != skip ==> search.met@.len() > 0
                && search.met@[0].vector_id == seed,
    {
        let kind: Distance = self.config.distance;
        let top: usize = self.upper_layers.len();
        let first_ef: usize = if top > entry_layer {
            UPPER_EF
        } else {
            ef
        };
        let mut search = Search::new(self.slots.len(), first_ef);
        if skip.index() < search.visited.len() {
            search.visited[skip.index()] = true;
        }
        proof {
            self.lemma_stored(seed.0);
        }
        search.push(seed, query, &self.vectors, &self.kernel, kind);
        let mut layer: usize = top;
        while layer > entry_layer
            invariant
                self.wf(),
                query@.len() == self.dimension,
                entry_layer <= layer <= top,
                top == self.upper_layers@.len(),
                kind == self.config.distance,
                search.inv(self.kernel, kind, query@, self.vectors@),
                search.visited@.len() == self.slots@.len(),
                top > entry_layer ==> first_ef == UPPER_EF,
                layer == top ==> search.ef == first_ef,
                layer < top ==> search.met@ == search.nearest@,
                skip.0 < search.visited@.len() ==> search.visited@[skip.0 as int],
                seed != skip ==> forall|i: int|
                    0 <= i < search.nearest@.len() ==> (#[trigger] search.nearest@[i]).vector_id != skip,
                layer == top && seed != skip ==> search.met@.len() > 0 && search.met@[0].vector_id
                    == seed,
                seed != skip && (layer < top || first_ef > 0) ==> search.nearest@.len() > 0,
            decreases layer,
        {
            search.ef = UPPER_EF;
            proof {
                if layer < top {
                    lemma_keeps_all(search.nearest@, search.ef);
                }
                self.lemma_upper(layer - 1);
                self.lemma_layer_ok(self.upper_layers@[layer - 1]@, query@);
            }
            let ghost entered = search.nearest@;
            search.search(&self.upper_layers[layer - 1], query, &self.vectors, &self.kernel, kind, M);
            proof {
                if seed != skip {
                    Self::lemma_skip_kept(entered, search.nearest@, search.visited@.len() as int, skip);
                }
                assert forall|i: int| 0 <= i < search.nearest@.len() implies (
                #[trigger] search.nearest@[i]).vector_id.0 < search.visited@.len() by {
                    assert(candidate_ok(
                        search.nearest@[i],
                        self.kernel,
                        kind,
                        query@,
                        self.vectors@,
                        search.visited@,
                    ));
                }
            }
            let ghost searched = search.nearest@;
            search.cull(&self.kernel, kind, query, &self.vectors);
            proof {
                assert forall|i: int| 0 <= i < search.nearest@.len() implies searched.contains(
                    #[trigger] search.nearest@[i],
                ) by {
                    assert(search.nearest@[i] == searched[i]);
                }
            }
            layer -= 1;
        }
        let ghost entered = search.nearest@;
        let ghost met_entered = search.met@;
        search.ef = ef;
        proof {
            if layer < top {
                lemma_keeps_all(search.nearest@, search.ef);
            }
            self.lemma_layer_ok(self.base_layer@, query@);
        }
        search.search(&self.base_layer, query, &self.vectors, &self.kernel, kind, BASE_LINKS);
        proof {
            if met_entered.len() > 0 {
                assert(search.met@.take(met_entered.len() as int)[0] == search.met@[0]);
            }
            if seed != skip {
                Self::lemma_skip_kept(entered, search.nearest@, search.visited@.len() as int, skip);
            }
            assert forall|i: int| 0 <= i < search.nearest@.len() implies (
            #[trigger] search.nearest@[i]).vector_id.0 < search.visited@.len() by {
                assert(candidate_ok(
                    search.nearest@[i],
                    self.kernel,
                    kind,
                    query@,
                    self.vectors@,
                    search.visited@,
                ));
            }
        }
        search
    }

    /// A list whose newcomers were not visited before holds no record that
    /// was visited before and was not in the list.
    proof fn lemma_skip_kept(before: Seq<Candidate>, after: Seq<Candidate>, len: int, skip: VectorID)
        requires
            forall|i: int| 0 <= i < before.len() ==> (#[trigger] before[i]).vector_id != skip,
        ensures
            forall|i: int|
                0 <= i < after.len() && before.contains(#[trigger] after[i]) ==> after[i].vector_id != skip,
    {
        assert forall|i: int| 0 <= i < after.len() && before.contains(#[trigger] after[i]) implies after[i].vector_id
            != skip by {
            let j = choose|j: int| 0 <= j < before.len() && before[j] == after[i];
            assert(before[j].vector_id != skip);
        }
    }

    /// Makes `to` a neighbour of `from` in the base layer, at the place that
    /// its distance gives it among the neighbours of `from`, nearest first.
    /// If the list is full its farthest neighbour leaves, unless `to` is
    /// farther still.
    fn link(&mut self, from: VectorID, to: VectorID, distance: u32)
        requires
            old(self).wf(),
            live(old(self).slots@, from.0 as int),
            live(old(self).slots@, to.0 as int),
            from != to,
        ensures
            final(self).wf(),
            final(self).same_but_base(old(self)),
            final(self).base_layer@.len() == old(self).base_layer@.len(),
            links_only(final(self).base_layer@, old(self).base_layer@, set![to]),
            final(self).base_layer@ == old(self).base_layer@.update(
                from.0 as int,
                final(self).base_layer@[from.0 as int],
            ),
            link_made(
                final(self).kernel,
                final(self).config.distance,
                final(self).vectors@,
                old(self).base_layer@[from.0 as int].neighbors(),
                final(self).base_layer@[from.0 as int].neighbors(),
                from,
                to,
                distance,
            ),
    {
        let kind: Distance = self.config.distance;
        let rank: u32 = kind.rank(distance);
        let node: BaseNode = self.base_layer[from.index()];
        proof {
            lemma_links_only_same(self.base_layer@, set![to]);
            assert(self.base_layer@ =~= self.base_layer@.update(
                from.0 as int,
                self.base_layer@[from.0 as int],
            ));
        }
        if node.contains(to) {
            return ;
        }
        proof {
            self.lemma_stored(from.0);
            lemma_degree(node@);
            assert(node_ok(self.base_layer@[from.0 as int], from.0 as int, self.slots@));
        }
        let origin: &Vector = match self.vectors.get(&from.0) {
            Some(v) => v,
            None => {
                assert(false);
                return ;
            },
        };
        let ghost list = node.neighbors();
        let count: usize = node.degree();
        let mut index: usize = 0;
        while index < count
            invariant
                self.wf(),
                index <= count,
                count == degree(node@),
                count == node.neighbors().len(),
                list == node.neighbors(),
                node_ok(node, from.0 as int, self.slots@),
                origin@.len() == self.dimension,
                *origin == self.vectors@[from.0],
                kind == self.config.distance,
                rank == kind.spec_rank(distance),
                forall|j: int|
                    0 <= j < index ==> not_behind(
                        self.kernel,
                        kind,
                        self.vectors@,
                        from,
                        #[trigger] list[j],
                        distance,
                    ),
            ensures
                index <= count,
                place_of(self.kernel, kind, self.vectors@, list, from, distance, index as int),
            decreases count - index,
        {
            let neighbor: VectorID = node.get(index);
            proof {
                assert(link_ok(node.neighbors()[index as int], from.0 as int, self.slots@));
                self.lemma_stored(neighbor.0);
            }
            let other: &Vector = match self.vectors.get(&neighbor.0) {
                Some(v) => v,
                None => {
                    assert(false);
                    break ;
                },
            };
            let d: u32 = (self.kernel)(kind, origin, other);
            let worse: bool = rank < kind.rank(d);
            proof {
                assert(measured(
                    self.kernel,
                    kind,
                    self.vectors@[from.0]@,
                    self.vectors@[neighbor.0]@,
                    d,
                )) by {
                    assert(call_ensures(self.kernel, (kind, origin, other), d));
                }
            }
            if worse {
                assert(behind(self.kernel, kind, self.vectors@, from, list[index as int], distance));
                break ;
            }
            assert(not_behind(self.kernel, kind, self.vectors@, from, list[index as int], distance));
            index += 1;
        }
        let ghost before = self.base_layer@;
        self.base_layer[from.index()].insert(index, to);
        proof {
            let after = self.base_layer@;
            let v = from.0 as int;
            assert(after =~= before.update(v, after[v]));
            assert(before[v].neighbors() == list);
            assert(after[v].neighbors() == inserted(list, index as int, to));
            lemma_links_only_node(before, after, v, to);
            lemma_node_kept(before[v], after[v], v, self.slots@, to);
            lemma_layer_kept(before, after, v, self.slots@);
            assert(self@ == old(self)@);
            assert forall|l: int| 0 <= l < self.upper_layers@.len() implies layer_wf(
                (#[trigger] self.upper_layers@[l])@,
                self.slots@,
            ) by {
                old(self).lemma_upper(l);
            }
            self.lemma_wf_from_layers();
        }
    }

    /// Makes `neighbor` the last neighbour of `id` in the base layer, if it
    /// is not one yet and the list has room.
    fn attach(&mut self, id: VectorID, neighbor: VectorID)
        requires
            old(self).wf(),
            live(old(self).slots@, id.0 as int),
            live(old(self).slots@, neighbor.0 as int),
            id != neighbor,
        ensures
            final(self).wf(),
            final(self).same_but_base(old(self)),
            final(self).base_layer@.len() == old(self).base_layer@.len(),
            links_only(final(self).base_layer@, old(self).base_layer@, set![id]),
            final(self).base_layer@ == old(self).base_layer@.update(
                id.0 as int,
                final(self).base_layer@[id.0 as int],
            ),
            final(self).base_layer@[id.0 as int].neighbors() == pushed(
                old(self).base_layer@[id.0 as int].neighbors(),
                neighbor,
            ),
    {
        let node: BaseNode = self.base_layer[id.index()];
        proof {
            lemma_links_only_same(self.base_layer@, set![id]);
            assert(self.base_layer@ =~= self.base_layer@.update(
                id.0 as int,
                self.base_layer@[id.0 as int],
            ));
            lemma_degree(node@);
        }
        if node.contains(neighbor) {
            return ;
        }
        let ghost before = self.base_layer@;
        proof {
            assert(node_ok(before[id.0 as int], id.0 as int, self.slots@));
        }
        self.base_layer[id.index()].push(neighbor);
        proof {
            let after = self.base_layer@;
            let v = id.0 as int;
            assert(after =~= before.update(v, after[v]));
            lemma_links_only_node(before, after, v, id);
            lemma_node_kept(before[v], after[v], v, self.slots@, neighbor);
            lemma_layer_kept(before, after, v, self.slots@);
            assert(self@ == old(self)@);
            assert forall|l: int| 0 <= l < self.upper_layers@.len() implies layer_wf(
                (#[trigger] self.upper_layers@[l])@,
                self.slots@,
            ) by {
                old(self).lemma_upper(l);
            }
            self.lemma_wf_from_layers();
        }
    }

    /// Links a live record into the base layer. The search for its
    /// neighbours descends through the layers above `entry_layer`; the
    /// nearest records that it finds on `entry_layer`, at most `2M` of them
    /// on the base layer and `M` above it, become its neighbours, and it
    /// becomes theirs.
    fn insert_into_layers(&mut self, id: VectorID, entry_layer: usize)
        requires
            old(self).wf(),
            live(old(self).slots@, id.0 as int),
            entry_layer <= old(self).upper_layers@.len(),
        ensures
            final(self).wf(),
            final(self).same_but_base(old(self)),
            final(self).base_layer@.len() == old(self).base_layer@.len(),
            links_only(final(self).base_layer@, old(self).base_layer@, set![id]),
            linked_in(
                final(self).kernel,
                final(self).config,
                final(self).vectors@,
                final(self).slots@,
                old(self).base_layer@,
                final(self).base_layer@,
                id,
                link_limit(entry_layer as int),
            ),
    {
        proof {
            self.lemma_stored(id.0);
            lemma_links_only_same(self.base_layer@, set![id]);
        }
        let query: Vector = match self.vectors.get(&id.0) {
            Some(v) => v.clone(),
            None => {
                assert(false);
                return ;
            },
        };
        let seed: VectorID = match self.first_valid(id) {
            Some(s) => s,
            None => {
                proof {
                    reveal(linked_in);
                    let none: Seq<Candidate> = Seq::empty();
                    assert forall|k: int| #[trigger] live(self.slots@, k) implies k == id.0 by {
                        assert(VectorID(k as u32) == id);
                    }
                    assert(links_made(
                        self.kernel,
                        self.config,
                        self.vectors@,
                        self.slots@,
                        self.base_layer@,
                        self.base_layer@,
                        id,
                        link_limit(entry_layer as int),
                        none,
                    ));
                }
                return ;
            },
        };
        let search: Search = self.descend(&query, seed, id, entry_layer, self.config.ef_construction);
        let nearest: Vec<Candidate> = search.nearest;
        let limit: usize = if entry_layer == 0 {
            BASE_LINKS
        } else {
            M
        };
        let take: usize = if nearest.len() < limit {
            nearest.len()
        } else {
            limit
        };
        let ghost chosen = nearest@.take(take as int);
        proof {
            assert forall|i: int| 0 <= i < chosen.len() implies {
                let c = #[trigger] chosen[i];
                &&& c.vector_id != id
                &&& live(self.slots@, c.vector_id.0 as int)
                &&& self.vectors@.contains_key(c.vector_id.0)
                &&& c.rank == self.config.distance.spec_rank(c.distance)
                &&& measured(
                    self.kernel,
                    self.config.distance,
                    self.vectors@[id.0]@,
                    self.vectors@[c.vector_id.0]@,
                    c.distance,
                )
            } by {
                assert(chosen[i] == nearest@[i]);
                assert(candidate_ok(
                    nearest@[i],
                    self.kernel,
                    self.config.distance,
                    query@,
                    self.vectors@,
                    search.visited@,
                ));
                self.lemma_stored(nearest@[i].vector_id.0);
            }
            assert forall|a: int, b: int| 0 <= a < b < chosen.len() implies !precedes(
                #[trigger] chosen[b],
                #[trigger] chosen[a],
            ) && chosen[a].vector_id != chosen[b].vector_id by {
                assert(chosen[a] == nearest@[a] && chosen[b] == nearest@[b]);
            }
            assert(choice_ok(
                self.kernel,
                self.config,
                self.vectors@,
                self.slots@,
                id,
                link_limit(entry_layer as int),
                chosen,
            ));
        }
        let mut i: usize = 0;
        while i < take
            invariant
                self.wf(),
                self.same_but_base(old(self)),
                self.base_layer@.len() == old(self).base_layer@.len(),
                links_only(self.base_layer@, old(self).base_layer@, set![id]),
                i <= take <= nearest@.len(),
                chosen == nearest@.take(take as int),
                live(self.slots@, id.0 as int),
                choice_ok(
                    self.kernel,
                    self.config,
                    self.vectors@,
                    self.slots@,
                    id,
                    link_limit(entry_layer as int),
                    chosen,
                ),
                self.base_layer@[id.0 as int].neighbors() == attached(
                    old(self).base_layer@[id.0 as int].neighbors(),
                    chosen,
                    i as nat,
                ),
                forall|j: int|
                    0 <= j < i ==> link_made(
                        self.kernel,
                        self.config.distance,
                        self.vectors@,
                        old(self).base_layer@[(#[trigger] chosen[j]).vector_id.0 as int].neighbors(),
                        self.base_layer@[chosen[j].vector_id.0 as int].neighbors(),
                        chosen[j].vector_id,
                        id,
                        chosen[j].distance,
                    ),
                forall|v: int|
                    0 <= v < self.base_layer@.len() && v != id.0 && !chosen_among(chosen, i as int, v) ==> (
                    #[trigger] self.base_layer@[v]) == old(self).base_layer@[v],
            decreases take - i,
        {
            let c: Candidate = nearest[i];
            let ghost first = self.base_layer@;
            proof {
                assert(c == chosen[i as int]);
                // the candidate's node is as it was: it is no earlier candidate
                assert(!chosen_among(chosen, i as int, c.vector_id.0 as int)) by {
                    if chosen_among(chosen, i as int, c.vector_id.0 as int) {
                        let j = choose|j: int|
                            0 <= j < i && j < chosen.len() && (#[trigger] chosen[j]).vector_id.0
                                == c.vector_id.0;
                        assert(chosen[j].vector_id != chosen[i as int].vector_id);
                    }
                }
                assert(first[c.vector_id.0 as int] == old(self).base_layer@[c.vector_id.0 as int]);
            }
            self.link(c.vector_id, id, c.distance);
            let ghost second = self.base_layer@;
            self.attach(id, c.vector_id);
            proof {
                let third = self.base_layer@;
                lemma_links_only_then(first, second, third, set![id]);
                lemma_links_only_then(old(self).base_layer@, first, third, set![id]);
                assert(third[c.vector_id.0 as int] == second[c.vector_id.0 as int]);
                assert(second[id.0 as int] == first[id.0 as int]);
                assert forall|j: int| 0 <= j < i + 1 implies link_made(
                    self.kernel,
                    self.config.distance,
                    self.vectors@,
                    old(self).base_layer@[(#[trigger] chosen[j]).vector_id.0 as int].neighbors(),
                    third[chosen[j].vector_id.0 as int].neighbors(),
                    chosen[j].vector_id,
                    id,
                    chosen[j].distance,
                ) by {
                    if j < i {
                        assert(chosen[j].vector_id != chosen[i as int].vector_id);
                        assert(third[chosen[j].vector_id.0 as int] == first[chosen[j].vector_id.0 as int]);
                    }
                }
                assert forall|v: int|
                    0 <= v < third.len() && v != id.0 && !chosen_among(chosen, i + 1, v) implies (
                #[trigger] third[v]) == old(self).base_layer@[v] by {
                    assert(v != c.vector_id.0) by {
                        if v == c.vector_id.0 {
                            assert(chosen[i as int].vector_id.0 == v);
                            assert(chosen_among(chosen, i + 1, v));
                        }
                    }
                    assert(!chosen_among(chosen, i as int, v)) by {
                        if chosen_among(chosen, i as int, v) {
                            let j = choose|j: int|
                                0 <= j < i && j < chosen.len() && (#[trigger] chosen[j]).vector_id.0 == v;
                            assert(chosen_among(chosen, i + 1, v));
                        }
                    }
                    assert(third[v] == first[v]);
                }
            }
            i += 1;
        }
        proof {
            reveal(linked_in);
            assert(links_made(
                self.kernel,
                self.config,
                self.vectors@,
                self.slots@,
                old(self).base_layer@,
                self.base_layer@,
                id,
                link_limit(entry_layer as int),
                chosen,
            ));
        }
    }

    /// Inserts vector IDs into the index layers: links them into the base
    /// layer one after the other, each from the top layer down.
    fn insert_to_layers(&mut self, ids: &Vec<VectorID>)
        requires
            old(self).wf(),
            forall|i: int| 0 <= i < ids@.len() ==> live(old(self).slots@, (#[trigger] ids@[i]).0 as int),
        ensures
            final(self).wf(),
            final(self).same_but_base(old(self)),
            final(self).base_layer@.len() == old(self).base_layer@.len(),
            links_only(final(self).base_layer@, old(self).base_layer@, ids@.to_set()),
            exists|steps: Seq<Seq<BaseNode>>| #[trigger]
                linked_all(
                    final(self).kernel,
                    final(self).config,
                    final(self).vectors@,
                    final(self).slots@,
                    steps,
                    ids@,
                    ids@.len() as int,
                ) && steps[0] == old(self).base_layer@ && steps[ids@.len() as int] == final(self).base_layer@,
    {
        let mut i: usize = 0;
        let ghost mut steps: Seq<Seq<BaseNode>> = seq![self.base_layer@];
        proof {
            lemma_links_only_same(self.base_layer@, ids@.to_set());
        }
        while i < ids.len()
            invariant
                self.wf(),
                self.same_but_base(old(self)),
                self.base_layer@.len() == old(self).base_layer@.len(),
                links_only(self.base_layer@, old(self).base_layer@, ids@.to_set()),
                i <= ids@.len(),
                forall|j: int| 0 <= j < ids@.len() ==> live(self.slots@, (#[trigger] ids@[j]).0 as int),
                linked_all(
                    self.kernel,
                    self.config,
                    self.vectors@,
                    self.slots@,
                    steps,
                    ids@,
                    i as int,
                ),
                steps[0] == old(self).base_layer@,
                steps[i as int] == self.base_layer@,
            decreases ids@.len() - i,
        {
            let ghost before = self.base_layer@;
            let ghost earlier = steps;
            self.insert_into_layers(ids[i], 0);
            proof {
                assert(ids@.to_set().contains(ids@[i as int]));
                lemma_links_only_wider(self.base_layer@, before, set![ids@[i as int]], ids@.to_set());
                lemma_links_only_then(old(self).base_layer@, before, self.base_layer@, ids@.to_set());
                steps = earlier.push(self.base_layer@);
                assert forall|k: int| 0 <= k < i + 1 implies linked_in(
                    self.kernel,
                    self.config,
                    self.vectors@,
                    self.slots@,
                    #[trigger] steps[k],
                    steps[k + 1],
                    ids@[k],
                    BASE_LINKS as int,
                ) by {
                    if k < i {
                        assert(steps[k] == earlier[k]);
                        assert(steps[k + 1] == earlier[k + 1]);
                    }
                }
            }
            i += 1;
        }
    }

    /// Removes vector IDs from all index layers: each of them loses its
    /// neighbours and is no longer the neighbour of any node.
    fn delete_from_layers(&mut self, ids: &Vec<VectorID>)
        requires
            old(self).wf(),
            forall|i: int| 0 <= i < ids@.len() ==> (#[trigger] ids@[i]).0 < old(self).slots@.len(),
        ensures
            final(self).wf(),
            final(self).same_but_graph(old(self)),
            final(self).upper_layers@.len() == old(self).upper_layers@.len(),
            forall|i: int| 0 <= i < ids@.len() ==> final(self).all_isolated(#[trigger] ids@[i]),
            ids@.len() == 1 ==> final(self).all_purged(old(self), ids@[0]),
    {
        let mut i: usize = 0;
        while i < ids.len()
            invariant
                self.wf(),
                i == 0 ==> self.base_layer == old(self).base_layer && self.upper_layers == old(self).upper_layers,
                i == 1 ==> self.all_purged(old(self), ids@[0]),
                self.same_but_graph(old(self)),
                self.upper_layers@.len() == old(self).upper_layers@.len(),
                i <= ids@.len(),
                forall|j: int| 0 <= j < ids@.len() ==> (#[trigger] ids@[j]).0 < self.slots@.len(),
                forall|j: int| 0 <= j < i ==> self.all_isolated(#[trigger] ids@[j]),
            decreases ids@.len() - i,
        {
            let id: VectorID = ids[i];
            let ghost start = *self;
            let ghost base_before = self.base_layer@;
            proof {
                assert forall|v: int| 0 <= v < base_before.len() implies (#[trigger] base_before[v]).wf() by {
                    assert(node_ok(base_before[v], v, self.slots@));
                }
            }
            purge(&mut self.base_layer, id);
            proof {
                lemma_purged_wf(base_before, self.base_layer@, id, self.slots@);
                lemma_purged_isolated(base_before, self.base_layer@, id);
                assert forall|j: int| 0 <= j < i implies isolated(self.base_layer@, #[trigger] ids@[j]) by {
                    assert(start.all_isolated(ids@[j]));
                    lemma_purge_keeps_isolated(base_before, self.base_layer@, id, ids@[j]);
                }
            }
            let mut l: usize = 0;
            while l < self.upper_layers.len()
                invariant
                    self.same_but_graph(old(self)),
                    self.upper_layers@.len() == old(self).upper_layers@.len(),
                    self.upper_layers@.len() == start.upper_layers@.len(),
                    start.wf(),
                    start.slots == self.slots,
                    id.0 < self.slots@.len(),
                    l <= self.upper_layers@.len(),
                    i < ids@.len(),
                    id == ids@[i as int],
                    self@.wf(),
                    callable(self.kernel),
                    layer_wf(self.base_layer@, self.slots@),
                    isolated(self.base_layer@, id),
                    purged(start.base_layer@, self.base_layer@, id),
                    forall|k: int|
                        0 <= k < l ==> purged(
                            (#[trigger] start.upper_layers@[k])@,
                            self.upper_layers@[k]@,
                            id,
                        ),
                    forall|j: int| 0 <= j < i ==> isolated(self.base_layer@, #[trigger] ids@[j]),
                    forall|j: int| 0 <= j < i ==> start.all_isolated(#[trigger] ids@[j]),
                    forall|k: int|
                        l <= k < self.upper_layers@.len() ==> (#[trigger] self.upper_layers@[k])
                            == start.upper_layers@[k],
                    forall|k: int|
                        0 <= k < l ==> layer_wf((#[trigger] self.upper_layers@[k])@, self.slots@)
                            && isolated(self.upper_layers@[k]@, id),
                    forall|k: int, j: int|
                        0 <= k < l && 0 <= j < i ==> isolated(
                            (#[trigger] self.upper_layers@[k])@,
                            #[trigger] ids@[j],
                        ),
                decreases self.upper_layers@.len() - l,
            {
                let ghost layer_before = self.upper_layers@[l as int]@;
                proof {
                    start.lemma_upper(l as int);
                    assert forall|v: int| 0 <= v < layer_before.len() implies (
                    #[trigger] layer_before[v]).wf() by {
                        assert(node_ok(layer_before[v], v, self.slots@));
                    }
                }
                purge(&mut self.upper_layers[l], id);
                proof {
                    let layer_after = self.upper_layers@[l as int]@;
                    lemma_purged_wf(layer_before, layer_after, id, self.slots@);
                    lemma_purged_isolated(layer_before, layer_after, id);
                    assert forall|j: int| 0 <= j < i implies isolated(layer_after, #[trigger] ids@[j]) by {
                        assert(start.all_isolated(ids@[j]));
                        assert(isolated(start.upper_layers@[l as int]@, ids@[j]));
                        lemma_purge_keeps_isolated(layer_before, layer_after, id, ids@[j]);
                    }
                }
                l += 1;
            }
            proof {
                assert(self@ == old(self)@);
                self.lemma_wf_from_layers();
                assert(self.all_purged(&start, id));
            }
            i += 1;
        }
    }
}

impl<K: Fn(Distance, &Vector, &Vector) -> u32> Collection<K> {
    /// Whether a layer is another with nodes without neighbours added
    /// behind its own.
    pub open spec fn layer_grown<const N: usize>(before: Seq<Node<N>>, after: Seq<Node<N>>) -> bool {
        &&& before.len() <= after.len()
        &&& forall|v: int| 0 <= v < before.len() ==> (#[trigger] after[v]) == before[v]
        &&& forall|v: int|
            before.len() <= v < after.len() ==> (#[trigger] after[v]).neighbors().len() == 0
    }

    /// Every layer is that of `before` with nodes without neighbours added.
    spec fn grown_from(&self, before: &Self) -> bool {
        &&& Self::layer_grown(before.base_layer@, self.base_layer@)
        &&& self.upper_layers@.len() == before.upper_layers@.len()
        &&& forall|l: int|
            0 <= l < self.upper_layers@.len() ==> Self::layer_grown(
                (#[trigger] before.upper_layers@[l])@,
                self.upper_layers@[l]@,
            )
    }

    /// The layers above the base are those of `before` with nodes without
    /// neighbours added for the new records.
    pub open spec fn upper_grown(&self, before: &Self) -> bool {
        &&& self.spec_upper_layers().len() == before.spec_upper_layers().len()
        &&& forall|l: int|
            0 <= l < self.spec_upper_layers().len() ==> Self::layer_grown(
                #[trigger] before.spec_upper_layers()[l],
                self.spec_upper_layers()[l],
            )
    }

    /// Whether the steps lead to the graph of this collection by building
    /// it over layers of the given sizes: the base layer is the last of the
    /// steps, which begin without links and go on by linking the records 1,
    /// 2, 3 and so on, each on its layer; and the layers above are copies
    /// of the base layer as it stood on the way.
    pub open spec fn built_from(&self, steps: Seq<Seq<BaseNode>>, sizes: Seq<nat>) -> bool {
        &&& built_chain(
            self.spec_kernel(),
            self.spec_config(),
            self.spec_vectors(),
            self@.slots,
            steps,
            sizes,
        )
        &&& steps[0].len() == self@.slots.len()
        &&& steps.len() == if self@.slots.len() == 0 {
            1
        } else {
            self@.slots.len()
        }
        &&& steps[steps.len() - 1] == self.spec_base_layer()
        &&& upper_copied(steps, sizes, self.spec_upper_layers())
    }

    /// Whether the steps lead to the base layer of this collection by
    /// linking the records of `ids` into it one after the other, each with
    /// the neighbours that a search from the top layer down chose for it.
    pub open spec fn linked_from(&self, steps: Seq<Seq<BaseNode>>, ids: Seq<VectorID>) -> bool {
        &&& linked_all(
            self.spec_kernel(),
            self.spec_config(),
            self.spec_vectors(),
            self@.slots,
            steps,
            ids,
            ids.len() as int,
        )
        &&& steps[ids.len() as int] == self.spec_base_layer()
    }

    /// Links made in a layer that has grown are links made in the layer as
    /// it was.
    proof fn lemma_grown_links<const N: usize>(
        before: Seq<Node<N>>,
        grown: Seq<Node<N>>,
        after: Seq<Node<N>>,
        fresh: Set<VectorID>,
    )
        requires
            Self::layer_grown(before, grown),
            links_only(after, grown, fresh),
        ensures
            links_only(after, before, fresh),
    {
        assert forall|v: int|
            0 <= v < before.len() && v < after.len() && !fresh.contains(VectorID(v as u32)) implies gained_only(
            (#[trigger] after[v]).neighbors(),
            before[v].neighbors(),
            fresh,
        ) by {
            assert(grown[v] == before[v]);
            assert(gained_only(after[v].neighbors(), grown[v].neighbors(), fresh));
        }
    }

    /// The upper layers have grown when they are those of a collection whose
    /// layers have grown.
    proof fn lemma_upper_grown(&self, grown: &Self, before: &Self)
        requires
            grown.grown_from(before),
            self.upper_layers == grown.upper_layers,
        ensures
            self.upper_grown(before),
    {
        assert forall|l: int| 0 <= l < self.spec_upper_layers().len() implies Self::layer_grown(
            #[trigger] before.spec_upper_layers()[l],
            self.spec_upper_layers()[l],
        ) by {
            assert(Self::layer_grown(before.upper_layers@[l]@, grown.upper_layers@[l]@));
        }
    }

    /// Growing twice is growing.
    proof fn lemma_grown_twice(&self, middle: &Self, before: &Self)
        requires
            middle.grown_from(before),
            self.grown_from(middle),
        ensures
            self.grown_from(before),
    {
        assert forall|l: int| 0 <= l < self.upper_layers@.len() implies Self::layer_grown(
            (#[trigger] before.upper_layers@[l])@,
            self.upper_layers@[l]@,
        ) by {
            assert(Self::layer_grown(before.upper_layers@[l]@, middle.upper_layers@[l]@));
            assert(Self::layer_grown(middle.upper_layers@[l]@, self.upper_layers@[l]@));
        }
    }

    /// Gives a record the next slot and a node without neighbours in every
    /// layer. The record is stored and not yet linked.
    fn enroll(&mut self, record: &Record)
        requires
            old(self).wf(),
            old(self).slots@.len() + 1 < u32::MAX,
            old(self).count == 0 || record.vector@.len() == old(self).dimension,
        ensures
            final(self).wf(),
            final(self)@ == old(self)@.insert(record@),
            final(self).config == old(self).config,
            final(self).relevancy == old(self).relevancy,
            final(self).kernel == old(self).kernel,
            final(self).upper_layers@.len() == old(self).upper_layers@.len(),
            final(self).grown_from(old(self)),
    {
        let id: u32 = self.slots.len() as u32;
        let ghost start = *self;
        proof {
            self.lemma_stored(id);
            lemma_insert_wf(self@, record@);
        }
        self.vectors.insert(id, record.vector.clone());
        self.data.insert(id, record.data.clone());
        self.slots.push(VectorID(id));
        self.count = self.count + 1;
        self.dimension = record.vector.len();
        let len: usize = self.slots.len();
        extend(&mut self.base_layer, len);
        proof {
            assert(self@.vectors =~= start@.insert(record@).vectors);
            assert(self@.data =~= start@.insert(record@).data);
            assert(self@ == start@.insert(record@));
            lemma_layer_grown(start.base_layer@, self.base_layer@, start.slots@, self.slots@);
        }
        let mut l: usize = 0;
        while l < self.upper_layers.len()
            invariant
                l <= self.upper_layers@.len(),
                self.upper_layers@.len() == start.upper_layers@.len(),
                start.wf(),
                len == self.slots@.len(),
                self.slots@ == start.slots@.push(VectorID(id)),
                self@ == start@.insert(record@),
                self.config == start.config,
                self.relevancy == start.relevancy,
                self.kernel == start.kernel,
                layer_wf(self.base_layer@, self.slots@),
                forall|k: int|
                    l <= k < self.upper_layers@.len() ==> (#[trigger] self.upper_layers@[k])
                        == start.upper_layers@[k],
                forall|k: int| 0 <= k < l ==> layer_wf((#[trigger] self.upper_layers@[k])@, self.slots@),
                forall|k: int|
                    0 <= k < l ==> Self::layer_grown(
                        (#[trigger] start.upper_layers@[k])@,
                        self.upper_layers@[k]@,
                    ),
                Self::layer_grown(start.base_layer@, self.base_layer@),
            decreases self.upper_layers@.len() - l,
        {
            let ghost layer_before = self.upper_layers@[l as int]@;
            proof {
                start.lemma_upper(l as int);
            }
            extend(&mut self.upper_layers[l], len);
            proof {
                lemma_layer_grown(layer_before, self.upper_layers@[l as int]@, start.slots@, self.slots@);
            }
            l += 1;
        }
        proof {
            self.lemma_wf_from_layers();
        }
    }

    /// Inserts a vector record into the collection. It gets the next slot
    /// as its ID. The first record of a collection without a dimension
    /// sets the dimension.
    pub fn insert(&mut self, record: &Record) -> (r: Result<(), Error>)
        requires
            old(self).wf(),
        ensures
            final(self).wf(),
            final(self).spec_config() == old(self).spec_config(),
            final(self).spec_relevancy() == old(self).spec_relevancy(),
            final(self).spec_kernel() == old(self).spec_kernel(),
            final(self).spec_upper_layers().len() == old(self).spec_upper_layers().len(),
            r == old(self)@.insert_outcome(record@),
            r is Ok ==> final(self)@ == old(self)@.insert(record@),
            r is Ok ==> final(self).upper_grown(old(self)) && links_only(
                final(self).spec_base_layer(),
                old(self).spec_base_layer(),
                set![VectorID(old(self)@.slots.len() as u32)],
            ),
            r is Ok ==> exists|steps: Seq<Seq<BaseNode>>| #[trigger]
                final(self).linked_from(steps, seq![VectorID(old(self)@.slots.len() as u32)])
                    && Self::layer_grown(old(self).spec_base_layer(), steps[0]) && steps[0].len()
                    == final(self)@.slots.len(),
            r is Err ==> *final(self) == *old(self),
    {
        // Ensure the number of records is within the limit.
        if self.slots.len() + 1 >= 0xFFFF_FFFFusize {
            return Err(Error::collection_limit());
        }
        // Ensure the vector dimension matches the collection's. The first
        // record of a collection without a dimension sets it.

        if !(self.count == 0 && self.dimension == 0) && record.vector.len() != self.dimension {
            let len: usize = record.vector.len();
            return Err(Error::invalid_dimension(len, self.dimension));
        }
        proof {
            if self.count != 0 {
                assert(record.vector@.len() == self.dimension);
            }
        }
        let id: VectorID = VectorID(self.slots.len() as u32);
        self.enroll(record);
        let ghost enrolled = *self;
        // This operation is last because it depends on the stored vectors.
        let mut ids: Vec<VectorID> = Vec::new();
        ids.push(id);
        self.insert_to_layers(&ids);
        proof {
            assert(ids@.to_set() =~= set![id]) by {
                assert(ids@[0] == id);
            }
            assert(ids@ =~= seq![id]);
            Self::lemma_grown_links(old(self).base_layer@, enrolled.base_layer@, self.base_layer@, set![id]);
            self.lemma_upper_grown(&enrolled, old(self));
            let steps = choose|steps: Seq<Seq<BaseNode>>| #[trigger]
                linked_all(
                    self.kernel,
                    self.config,
                    self.vectors@,
                    self.slots@,
                    steps,
                    ids@,
                    ids@.len() as int,
                ) && steps[0] == enrolled.base_layer@ && steps[ids@.len() as int] == self.base_layer@;
            assert(self.linked_from(steps, seq![id]));
        }
        Ok(())
    }

    /// Deletes a vector record from the collection. Its ID is never used
    /// again.
    pub fn delete(&mut self, id: &VectorID) -> (r: Result<(), Error>)
        requires
            old(self).wf(),
        ensures
            final(self).wf(),
            final(self).spec_config() == old(self).spec_config(),
            final(self).spec_relevancy() == old(self).spec_relevancy(),
            final(self).spec_kernel() == old(self).spec_kernel(),
            final(self).spec_upper_layers().len() == old(self).spec_upper_layers().len(),
            old(self)@.contains(*id) ==> r == Ok::<(), Error>(()) && final(self)@ == old(self)@.delete(
                *id,
            ),
            !old(self)@.contains(*id) ==> r == Err::<(), Error>(Error::RecordNotFound) && *final(self)
                == *old(self),
            r is Ok ==> final(self).no_ghost(*id) && final(self).purged_of(old(self), *id),
    {
        // Ensure the vector ID exists in the collection.
        if !self.contains(id) {
            return Err(Error::record_not_found());
        }
        proof {
            self.lemma_stored(id.0);
            lemma_delete_wf(self@, *id);
        }
        let mut ids: Vec<VectorID> = Vec::new();
        ids.push(*id);
        self.delete_from_layers(&ids);
        let ghost purged_self = *self;
        proof {
            assert(self.all_isolated(ids@[0]));
            assert(self.all_purged(old(self), ids@[0]));
        }
        // Update the collection data.
        self.vectors.remove(&id.0);
        self.data.remove(&id.0);
        // Make the slot invalid so it won't be used again.
        self.slots[id.index()] = VectorID(INVALID);
        // Update the collection count.
        self.count = self.count - 1;
        proof {
            assert(self@.vectors =~= old(self)@.delete(*id).vectors);
            assert(self@.data =~= old(self)@.delete(*id).data);
            assert(self@ == old(self)@.delete(*id));
            lemma_isolated_wf(self.base_layer@, *id, purged_self.slots@);
            assert forall|l: int| 0 <= l < self.upper_layers@.len() implies layer_wf(
                (#[trigger] self.upper_layers@[l])@,
                self.slots@,
            ) by {
                purged_self.lemma_upper(l);
                lemma_isolated_wf(self.upper_layers@[l]@, *id, purged_self.slots@);
            }
            self.lemma_wf_from_layers();
            assert forall|l: int| 0 <= l < self.spec_upper_layers().len() implies isolated(
                #[trigger] self.spec_upper_layers()[l],
                *id,
            ) by {
                assert(isolated(self.upper_layers@[l]@, *id));
            }
            assert forall|l: int| 0 <= l < self.spec_upper_layers().len() implies purged(
                #[trigger] old(self).spec_upper_layers()[l],
                self.spec_upper_layers()[l],
                *id,
            ) by {
                assert(purged(old(self).upper_layers@[l]@, purged_self.upper_layers@[l]@, *id));
            }
        }
        Ok(())
    }

    /// The graph is that of `before` without the record: on every layer
    /// the record's node has no neighbours, the record is taken out of the
    /// list of every other node, and nothing else has changed.
    pub open spec fn purged_of(&self, before: &Self, id: VectorID) -> bool {
        &&& purged(before.spec_base_layer(), self.spec_base_layer(), id)
        &&& self.spec_upper_layers().len() == before.spec_upper_layers().len()
        &&& forall|l: int|
            0 <= l < self.spec_upper_layers().len() ==> purged(
                #[trigger] before.spec_upper_layers()[l],
                self.spec_upper_layers()[l],
                id,
            )
    }

    /// No node of any layer has the record as a neighbour, and the record's
    /// own nodes have no neighbours.
    pub open spec fn no_ghost(&self, id: VectorID) -> bool {
        &&& isolated(self.spec_base_layer(), id)
        &&& forall|l: int|
            0 <= l < self.spec_upper_layers().len() ==> isolated(
                #[trigger] self.spec_upper_layers()[l],
                id,
            )
    }

    /// Updates a vector record in the collection: the record keeps its ID
    /// and gets a new vector, new data and new neighbours.
    pub fn update(&mut self, id: &VectorID, record: &Record) -> (r: Result<(), Error>)
        requires
            old(self).wf(),
        ensures
            final(self).wf(),
            final(self).spec_config() == old(self).spec_config(),
            final(self).spec_relevancy() == old(self).spec_relevancy(),
            final(self).spec_kernel() == old(self).spec_kernel(),
            final(self).spec_upper_layers().len() == old(self).spec_upper_layers().len(),
            r == old(self)@.update_outcome(*id, record@),
            r is Ok ==> final(self)@ == old(self)@.update(*id, record@),
            r is Ok ==> links_only(final(self).spec_base_layer(), old(self).spec_base_layer(), set![*id])
                && forall|l: int|
                0 <= l < final(self).spec_upper_layers().len() ==> purged(
                    #[trigger] old(self).spec_upper_layers()[l],
                    final(self).spec_upper_layers()[l],
                    *id,
                ),
            r is Ok ==> exists|steps: Seq<Seq<BaseNode>>| #[trigger]
                final(self).linked_from(steps, seq![*id]) && purged(
                    old(self).spec_base_layer(),
                    steps[0],
                    *id,
                ),
            r is Err ==> *final(self) == *old(self),
    {
        if !self.contains(id) {
            return Err(Error::record_not_found());
        }
        // Validate the new vector dimension.
        if record.vector.len() != self.dimension {
            let len: usize = record.vector.len();
            return Err(Error::invalid_dimension(len, self.dimension));
        }
        proof {
            self.lemma_stored(id.0);
            lemma_update_wf(self@, *id, record@);
        }
        // Remove the old vector from the index layers.
        let mut ids: Vec<VectorID> = Vec::new();
        ids.push(*id);
        self.delete_from_layers(&ids);
        let ghost purged_self = *self;
        // Insert the updated vector and data.
        self.vectors.insert(id.0, record.vector.clone());
        self.data.insert(id.0, record.data.clone());
        proof {
            assert(self@.vectors =~= old(self)@.update(*id, record@).vectors);
            assert(self@.data =~= old(self)@.update(*id, record@).data);
            assert(self@ == old(self)@.update(*id, record@));
            assert forall|l: int| 0 <= l < self.upper_layers@.len() implies layer_wf(
                (#[trigger] self.upper_layers@[l])@,
                self.slots@,
            ) by {
                purged_self.lemma_upper(l);
            }
            self.lemma_wf_from_layers();
        }
        let ghost replaced = *self;
        self.insert_to_layers(&ids);
        proof {
            assert(ids@.to_set() =~= set![*id]) by {
                assert(ids@[0] == *id);
            }
            assert(ids@ =~= seq![*id]);
            let steps = choose|steps: Seq<Seq<BaseNode>>| #[trigger]
                linked_all(
                    self.kernel,
                    self.config,
                    self.vectors@,
                    self.slots@,
                    steps,
                    ids@,
                    ids@.len() as int,
                ) && steps[0] == replaced.base_layer@ && steps[ids@.len() as int] == self.base_layer@;
            assert(self.linked_from(steps, seq![*id]));
            assert(purged_self.all_purged(old(self), ids@[0]));
            assert(replaced.base_layer@ == purged_self.base_layer@);
            assert forall|v: int| 0 <= v < old(self).base_layer@.len() implies (
            #[trigger] old(self).base_layer@[v]).wf() by {
                assert(node_ok(old(self).base_layer@[v], v, old(self).slots@));
            }
            lemma_purged_links_only(old(self).base_layer@, purged_self.base_layer@, *id, set![*id]);
            lemma_links_only_then(
                old(self).base_layer@,
                purged_self.base_layer@,
                self.base_layer@,
                set![*id],
            );
            assert forall|l: int| 0 <= l < self.spec_upper_layers().len() implies purged(
                #[trigger] old(self).spec_upper_layers()[l],
                self.spec_upper_layers()[l],
                *id,
            ) by {
                assert(purged(old(self).upper_layers@[l]@, purged_self.upper_layers@[l]@, *id));
            }
        }
        Ok(())
    }
}

/// The length that `insert_many` asks of every record: the collection's
/// dimension, or the length of the first record while the collection is
/// empty and has no dimension.
pub open spec fn expected_dimension(before: Contents, records: Seq<RecordView>) -> nat {
    if before.count == 0 && before.dimension == 0 && records.len() > 0 {
        records[0].vector.len()
    } else {
        before.dimension
    }
}

/// Whether the record at `i` is the first whose length is not `expected`.
pub open spec fn first_mismatch(records: Seq<RecordView>, expected: nat, i: int) -> bool {
    &&& 0 <= i < records.len()
    &&& records[i].vector.len() != expected
    &&& forall|j: int| 0 <= j < i ==> (#[trigger] records[j]).vector.len() == expected
}

/// Whether `insert_many` takes the records: the slot table has room for
/// them and each has the expected length.
pub open spec fn insert_many_accepts(before: Contents, records: Seq<RecordView>) -> bool {
    &&& before.slots.len() + records.len() < u32::MAX
    &&& forall|i: int|
        0 <= i < records.len() ==> (#[trigger] records[i]).vector.len() == expected_dimension(
            before,
            records,
        )
}

impl<K: Fn(Distance, &Vector, &Vector) -> u32> Collection<K> {
    /// Inserts multiple vector records into the collection and returns
    /// their IDs in the order of the records. Either all of them are taken
    /// or none.
    pub fn insert_many(&mut self, records: &[Record]) -> (r: Result<Vec<VectorID>, Error>)
        requires
            old(self).wf(),
        ensures
            final(self).wf(),
            final(self).spec_config() == old(self).spec_config(),
            final(self).spec_relevancy() == old(self).spec_relevancy(),
            final(self).spec_kernel() == old(self).spec_kernel(),
            final(self).spec_upper_layers().len() == old(self).spec_upper_layers().len(),
            r is Ok <==> insert_many_accepts(old(self)@, record_views(records@)),
            old(self)@.slots.len() + records@.len() >= u32::MAX ==> r == Err::<Vec<VectorID>, Error>(
                Error::CollectionLimit,
            ),
            old(self)@.slots.len() + records@.len() < u32::MAX && r is Err ==> exists|i: int|
                #[trigger] first_mismatch(
                    record_views(records@),
                    expected_dimension(old(self)@, record_views(records@)),
                    i,
                ) && r->Err_0 == (Error::InvalidDimension {
                    found: records@[i].vector@.len() as usize,
                    expected: expected_dimension(old(self)@, record_views(records@)) as usize,
                }),
            r is Err ==> *final(self) == *old(self),
            r is Ok ==> final(self)@ == old(self)@.insert_all(record_views(records@)),
            r is Ok ==> r->Ok_0@.len() == records@.len() && forall|i: int|
                0 <= i < records@.len() ==> (#[trigger] r->Ok_0@[i]).0 == old(self)@.slots.len() + i,
            r is Ok ==> final(self).upper_grown(old(self)) && links_only(
                final(self).spec_base_layer(),
                old(self).spec_base_layer(),
                Set::new(|x: VectorID| x.0 >= old(self)@.slots.len()),
            ),
            r is Ok ==> exists|steps: Seq<Seq<BaseNode>>| #[trigger]
                final(self).linked_from(steps, r->Ok_0@) && Self::layer_grown(
                    old(self).spec_base_layer(),
                    steps[0],
                ) && steps[0].len() == final(self)@.slots.len(),
    {
        let ghost views = record_views(records@);
        // Make sure the collection is not full after inserting.
        if records.len() >= 0xFFFF_FFFFusize - self.slots.len() {
            return Err(Error::collection_limit());
        }
        if records.len() == 0 {
            proof {
                lemma_links_only_same(
                    self.base_layer@,
                    Set::new(|x: VectorID| x.0 >= old(self)@.slots.len()),
                );
                assert forall|l: int| 0 <= l < self.spec_upper_layers().len() implies Self::layer_grown(
                    #[trigger] old(self).spec_upper_layers()[l],
                    self.spec_upper_layers()[l],
                ) by {}
            }
            let nothing: Result<Vec<VectorID>, Error> = Ok(Vec::new());
            proof {
                let steps = seq![self.base_layer@];
                assert(self.linked_from(steps, nothing->Ok_0@));
                assert(Self::layer_grown(old(self).spec_base_layer(), steps[0]));
                assert(steps[0].len() == self@.slots.len());
            }
            return nothing;
        }
        // The first record sets the dimension of a collection without one.

        let expected: usize = if self.count == 0 && self.dimension == 0 {
            records[0].vector.len()
        } else {
            self.dimension
        };
        assert(views[0] == records@[0]@);
        assert(expected == expected_dimension(self@, views));
        // Validate the vector dimension against the collection.
        let mut k: usize = 0;
        while k < records.len()
            invariant
                k <= records@.len(),
                views == record_views(records@),
                *self == *old(self),
                self.wf(),
                expected == expected_dimension(old(self)@, views),
                old(self)@.slots.len() + records@.len() < u32::MAX,
                forall|j: int| 0 <= j < k ==> (#[trigger] views[j]).vector.len() == expected,
            decreases records@.len() - k,
        {
            let found: usize = records[k].vector.len();
            assert(views[k as int] == records@[k as int]@);
            if found != expected {
                assert(first_mismatch(views, expected as nat, k as int));
                return Err(Error::invalid_dimension(found, expected));
            }
            k += 1;
        }
        // Store the new records under new vector IDs.
        let mut ids: Vec<VectorID> = Vec::new();
        let mut i: usize = 0;
        while i < records.len()
            invariant
                i <= records@.len(),
                views == record_views(records@),
                self.wf(),
                self@ == old(self)@.insert_first(views, i as nat),
                self.slots@.len() == old(self).slots@.len() + i,
                old(self).slots@.len() + records@.len() < u32::MAX,
                i > 0 ==> self.dimension == expected,
                i == 0 ==> *self == *old(self),
                i > 0 ==> self.grown_from(old(self)),
                forall|j: int| 0 <= j < records@.len() ==> (#[trigger] views[j]).vector.len() == expected,
                expected == expected_dimension(old(self)@, views),
                self.config == old(self).config,
                self.relevancy == old(self).relevancy,
                self.kernel == old(self).kernel,
                self.upper_layers@.len() == old(self).upper_layers@.len(),
                ids@.len() == i,
                forall|j: int| 0 <= j < i ==> (#[trigger] ids@[j]).0 == old(self).slots@.len() + j,
                forall|j: int| 0 <= j < i ==> live(self.slots@, (#[trigger] ids@[j]).0 as int),
            decreases records@.len() - i,
        {
            let id: VectorID = VectorID(self.slots.len() as u32);
            assert(views[i as int] == records@[i as int]@);
            let ghost slots_before = self.slots@;
            let ghost previous = *self;
            self.enroll(&records[i]);
            ids.push(id);
            proof {
                if i > 0 {
                    self.lemma_grown_twice(&previous, old(self));
                }
                assert(self.slots@ == slots_before.push(id));
                assert forall|j: int| 0 <= j < i + 1 implies live(
                    self.slots@,
                    (#[trigger] ids@[j]).0 as int,
                ) by {
                    if j < i {
                        assert(live(slots_before, ids@[j].0 as int));
                        assert(self.slots@[ids@[j].0 as int] == slots_before[ids@[j].0 as int]);
                    }
                }
            }
            i += 1;
        }
        let ghost enrolled = *self;
        self.insert_to_layers(&ids);
        proof {
            let fresh = Set::new(|x: VectorID| x.0 >= old(self)@.slots.len());
            assert(ids@.to_set().subset_of(fresh)) by {
                assert forall|x: VectorID| ids@.to_set().contains(x) implies fresh.contains(x) by {
                    let j = choose|j: int| 0 <= j < ids@.len() && ids@[j] == x;
                    assert(ids@[j].0 == old(self).slots@.len() + j);
                }
            }
            lemma_links_only_wider(self.base_layer@, enrolled.base_layer@, ids@.to_set(), fresh);
            Self::lemma_grown_links(old(self).base_layer@, enrolled.base_layer@, self.base_layer@, fresh);
            self.lemma_upper_grown(&enrolled, old(self));
            let steps = choose|steps: Seq<Seq<BaseNode>>| #[trigger]
                linked_all(
                    self.kernel,
                    self.config,
                    self.vectors@,
                    self.slots@,
                    steps,
                    ids@,
                    ids@.len() as int,
                ) && steps[0] == enrolled.base_layer@ && steps[ids@.len() as int] == self.base_layer@;
            assert(self.linked_from(steps, ids@));
            assert(enrolled.grown_from(old(self)));
            assert(Self::layer_grown(old(self).spec_base_layer(), steps[0]));
            assert(steps[0].len() == self@.slots.len());
        }
        let ghost chain = choose|steps: Seq<Seq<BaseNode>>| #[trigger]
            self.linked_from(steps, ids@) && Self::layer_grown(old(self).spec_base_layer(), steps[0])
                && steps[0].len() == self@.slots.len();
        let r: Result<Vec<VectorID>, Error> = Ok(ids);
        proof {
            assert(self.linked_from(chain, r->Ok_0@));
        }
        r
    }

    /// What the collection holds of a result: the record is live, the data
    /// is the record's, and the distance is one that the kernel gives for
    /// the query and the record's vector.
    pub open spec fn hit(&self, query: Seq<u32>, r: ResultView) -> bool {
        &&& self@.vectors.contains_key(r.id)
        &&& r.data == self@.data[r.id]
        &&& measured(
            self.spec_kernel(),
            self.spec_config().distance,
            query,
            self@.vectors[r.id],
            r.distance,
        )
    }

    /// Results that are hits, nearest first, with no record twice.
    pub open spec fn found_ok(&self, query: Seq<u32>, found: Seq<ResultView>) -> bool {
        &&& results_ordered(self.spec_config().distance, found)
        &&& results_distinct(found)
        &&& forall|i: int| 0 <= i < found.len() ==> self.hit(query, #[trigger] found[i])
    }

    /// Whether a result lost its place among the `ef_search` nearest found:
    /// the found list is full and none of its results comes behind this one.
    pub open spec fn outdone(&self, r: ResultView, found: Seq<ResultView>) -> bool {
        found.len() >= self.spec_config().ef_search && forall|i: int|
            0 <= i < found.len() ==> !result_precedes(self.spec_config().distance, r, #[trigger] found[i])
    }

    /// What the found list is to the records that a search met on the base
    /// layer, each measured against the query: it holds the `ef_search`
    /// nearest of them. Where the graph has no layer above the base, the
    /// first record met is the first live record of the slot table.
    pub open spec fn walk_ok(&self, query: Seq<u32>, met: Seq<ResultView>, found: Seq<ResultView>) -> bool {
        &&& forall|k: int| 0 <= k < met.len() ==> self.hit(query, #[trigger] met[k])
        &&& forall|k: int|
            0 <= k < met.len() ==> found.contains(#[trigger] met[k]) || self.outdone(met[k], found)
        &&& self.spec_upper_layers().len() == 0 ==> met.len() > 0 && live(
            self@.slots,
            met[0].id as int,
        ) && forall|i: int| 0 <= i < met[0].id ==> !#[trigger] live(self@.slots, i)
    }

    /// Whether every live record is among the results.
    pub open spec fn complete(&self, found: Seq<ResultView>) -> bool {
        forall|k: u32|
            self@.vectors.contains_key(k) ==> exists|i: int|
                0 <= i < found.len() && (#[trigger] found[i]).id == k
    }

    /// A list of candidates that can become results.
    spec fn candidates_ok(&self, query: Seq<u32>, list: Seq<Candidate>) -> bool {
        &&& ordered(list)
        &&& distinct_ids(list)
        &&& forall|i: int|
            0 <= i < list.len() ==> {
                let c = #[trigger] list[i];
                &&& self.vectors@.contains_key(c.vector_id.0)
                &&& c.rank == self.config.distance.spec_rank(c.distance)
                &&& measured(
                    self.kernel,
                    self.config.distance,
                    query,
                    self.vectors@[c.vector_id.0]@,
                    c.distance,
                )
            }
    }

    /// The candidates as results, each with its record's data.
    spec fn as_results(&self, list: Seq<Candidate>) -> Seq<ResultView> {
        Seq::new(
            list.len(),
            |i: int|
                ResultView {
                    id: list[i].vector_id.0,
                    distance: list[i].distance,
                    data: self.data@[list[i].vector_id.0]@,
                },
        )
    }

    proof fn lemma_as_results(&self, query: Seq<u32>, list: Seq<Candidate>)
        requires
            self.wf(),
            self.candidates_ok(query, list),
        ensures
            self.found_ok(query, self.as_results(list)),
            self.as_results(list).len() == list.len(),
    {
        let found = self.as_results(list);
        let kind = self.config.distance;
        assert forall|i: int, j: int| 0 <= i < j < found.len() implies !result_precedes(
            kind,
            #[trigger] found[j],
            #[trigger] found[i],
        ) && found[i].id != found[j].id by {
            assert(!precedes(list[j], list[i]));
            assert(list[i].vector_id != list[j].vector_id);
        }
        assert forall|i: int| 0 <= i < found.len() implies self.hit(query, #[trigger] found[i]) by {
            let c = list[i];
            self.lemma_stored(c.vector_id.0);
            assert(self@.vectors[c.vector_id.0] == self.vectors@[c.vector_id.0]@);
            assert(self@.data[c.vector_id.0] == self.data@[c.vector_id.0]@);
        }
    }

    /// Turns the candidates into results with their data, keeps those that
    /// pass the relevancy threshold, and of them the first `n`.
    fn finish(&self, nearest: &Vec<Candidate>, n: usize, Ghost(query): Ghost<Seq<u32>>) -> (res: Vec<
        SearchResult,
    >)
        requires
            self.wf(),
            self.candidates_ok(query, nearest@),
        ensures
            result_views(res@) == selected(
                self.config.distance,
                self.relevancy,
                self.as_results(nearest@),
                n as nat,
            ),
    {
        let mut results: Vec<SearchResult> = Vec::new();
        let mut i: usize = 0;
        while i < nearest.len()
            invariant
                self.wf(),
                self.candidates_ok(query, nearest@),
                i <= nearest@.len(),
                results@.len() == i,
                forall|j: int|
                    0 <= j < i ==> (#[trigger] results@[j])@ == self.as_results(nearest@)[j],
            decreases nearest@.len() - i,
        {
            let c: Candidate = nearest[i];
            proof {
                self.lemma_stored(c.vector_id.0);
            }
            let data: Metadata = match self.data.get(&c.vector_id.0) {
                Some(d) => d.clone(),
                None => Metadata::Null,
            };
            results.push(SearchResult { id: c.vector_id.0, distance: c.distance, data });
            i += 1;
        }
        assert(result_views(results@) =~= self.as_results(nearest@));
        // Get relevant results and truncate the list.
        let mut relevant = self.truncate_irrelevant_result(results);
        let ghost kept = result_views(relevant@);
        relevant.truncate(n);
        proof {
            if n < kept.len() {
                assert(result_views(relevant@) =~= kept.take(n as int));
            }
        }
        relevant
    }

    /// Searches the collection for the nearest neighbors of a vector and
    /// returns up to `n` of them, nearest first. The search walks the graph
    /// from the first live record, so it may miss a record that is nearer
    /// than those it returns.
    pub fn search(&self, vector: &Vector, n: usize) -> (r: Result<Vec<SearchResult>, Error>)
        requires
            self.wf(),
        ensures
            self@.count == 0 ==> r is Ok && r->Ok_0@.len() == 0,
            self@.count > 0 && vector@.len() != self@.dimension ==> r == Err::<
                Vec<SearchResult>,
                Error,
            >(
                Error::InvalidDimension {
                    found: vector@.len() as usize,
                    expected: self@.dimension as usize,
                },
            ),
            self@.count > 0 && vector@.len() == self@.dimension ==> r is Ok && exists|
                found: Seq<ResultView>,
                met: Seq<ResultView>,
            |
                #![trigger self.found_ok(vector@, found), self.walk_ok(vector@, met, found)]
                self.found_ok(vector@, found) && self.walk_ok(vector@, met, found) && found.len()
                    <= self.spec_config().ef_search && (self.spec_config().ef_search > 0 ==> found.len()
                    > 0) && result_views(r->Ok_0@) == selected(
                    self.spec_config().distance,
                    self.spec_relevancy(),
                    found,
                    n as nat,
                ),
            r is Ok ==> self.found_ok(vector@, result_views(r->Ok_0@)) && r->Ok_0@.len() <= n
                && forall|i: int|
                0 <= i < r->Ok_0@.len() ==> self.spec_config().distance.spec_is_relevant(
                    (#[trigger] r->Ok_0@[i]).distance,
                    self.spec_relevancy(),
                ),
    {
        proof {
            assert(self@.vectors.dom() =~= self.vectors@.dom());
            if self@.count == 0 {
                live_ids(self@.slots).lemma_len0_is_empty();
            }
        }
        // Early return if the collection is empty.
        if self.vectors.is_empty() {
            let empty: Vec<SearchResult> = Vec::new();
            proof {
                assert(result_views(empty@) =~= Seq::<ResultView>::empty());
            }
            return Ok(empty);
        }
        // Ensure the vector dimension matches the collection dimension.
        if vector.len() != self.dimension {
            return Err(Error::invalid_dimension(vector.len(), self.dimension));
        }
        // Find the first valid vector ID from the slots.
        let seed: VectorID = match self.first_valid(VectorID(INVALID)) {
            Some(id) => id,
            None => {
                proof {
                    let k = choose|k: u32| live_ids(self@.slots).contains(k);
                    assert(live(self.slots@, k as int));
                    assert(VectorID(k) == VectorID(INVALID));
                }
                return Err(Error::UnableToInitiateSearch);
            },
        };
        let search: Search = self.descend(vector, seed, VectorID(INVALID), 0, self.config.ef_search);
        let ghost met = search.met@;
        let ghost visited = search.visited@;
        let nearest: Vec<Candidate> = search.nearest;
        proof {
            self.lemma_walk(vector@, met, nearest@, visited, seed);
            self.lemma_as_results(vector@, nearest@);
            lemma_selected(
                self.config.distance,
                self.relevancy,
                self.as_results(nearest@),
                n as nat,
            );
        }
        let res = self.finish(&nearest, n, Ghost(vector@));
        proof {
            let found = self.as_results(nearest@);
            let out = result_views(res@);
            assert(self.found_ok(vector@, found));
            assert(self.walk_ok(vector@, self.as_results(met), found));
            assert forall|i: int| 0 <= i < out.len() implies self.hit(vector@, #[trigger] out[i]) by {
                let j = choose|j: int| 0 <= j < found.len() && found[j] == out[i];
                assert(self.hit(vector@, found[j]));
            }
            assert forall|i: int| 0 <= i < res@.len() implies self.config.distance.spec_is_relevant(
                (#[trigger] res@[i]).distance,
                self.relevancy,
            ) by {
                assert(out[i].distance == res@[i].distance);
            }
        }
        Ok(res)
    }

    /// What a search holds of the vectors that it met carries over to the
    /// results that they become.
    proof fn lemma_walk(
        &self,
        query: Seq<u32>,
        met: Seq<Candidate>,
        nearest: Seq<Candidate>,
        visited: Seq<bool>,
        seed: VectorID,
    )
        requires
            self.wf(),
            keeps_best(met, nearest, self.config.ef_search),
            forall|i: int|
                0 <= i < met.len() ==> candidate_ok(
                    #[trigger] met[i],
                    self.kernel,
                    self.config.distance,
                    query,
                    self.vectors@,
                    visited,
                ),
            forall|i: int|
                0 <= i < nearest.len() ==> candidate_ok(
                    #[trigger] nearest[i],
                    self.kernel,
                    self.config.distance,
                    query,
                    self.vectors@,
                    visited,
                ),
            live(self.slots@, seed.0 as int),
            forall|i: int| 0 <= i < seed.0 ==> !#[trigger] live(self.slots@, i),
            self.upper_layers@.len() == 0 ==> met.len() > 0 && met[0].vector_id == seed,
        ensures
            self.walk_ok(query, self.as_results(met), self.as_results(nearest)),
    {
        let kind = self.config.distance;
        let results = self.as_results(met);
        let found = self.as_results(nearest);
        assert forall|k: int| 0 <= k < results.len() implies self.hit(query, #[trigger] results[k]) by {
            let c = met[k];
            self.lemma_stored(c.vector_id.0);
            assert(self@.vectors[c.vector_id.0] == self.vectors@[c.vector_id.0]@);
            assert(self@.data[c.vector_id.0] == self.data@[c.vector_id.0]@);
        }
        assert forall|k: int| 0 <= k < results.len() implies found.contains(#[trigger] results[k])
            || self.outdone(results[k], found) by {
            let c = met[k];
            if nearest.contains(c) {
                let p = choose|p: int| 0 <= p < nearest.len() && nearest[p] == c;
                assert(found[p] == results[k]);
            } else {
                assert(beaten(c, nearest, self.config.ef_search));
                assert forall|i: int| 0 <= i < found.len() implies !result_precedes(
                    kind,
                    results[k],
                    #[trigger] found[i],
                ) by {
                    assert(!precedes(c, nearest[i]));
                }
            }
        }
    }

    /// Searches the collection for the true nearest neighbors: measures
    /// every live record against the vector and returns up to `n` of them,
    /// nearest first.
    pub fn true_search(&self, vector: &Vector, n: usize) -> (r: Result<Vec<SearchResult>, Error>)
        requires
            self.wf(),
        ensures
            vector@.len() != self@.dimension ==> r == Err::<Vec<SearchResult>, Error>(
                Error::InvalidDimension {
                    found: vector@.len() as usize,
                    expected: self@.dimension as usize,
                },
            ),
            vector@.len() == self@.dimension ==> r is Ok && exists|found: Seq<ResultView>|
                #[trigger] self.found_ok(vector@, found) && self.complete(found) && found.len()
                    == self@.count && result_views(r->Ok_0@) == selected(
                    self.spec_config().distance,
                    self.spec_relevancy(),
                    found,
                    n as nat,
                ),
            r is Ok ==> self.found_ok(vector@, result_views(r->Ok_0@)) && r->Ok_0@.len() <= n
                && forall|i: int|
                0 <= i < r->Ok_0@.len() ==> self.spec_config().distance.spec_is_relevant(
                    (#[trigger] r->Ok_0@[i]).distance,
                    self.spec_relevancy(),
                ),
    {
        // Ensure the vector dimension matches the collection dimension.
        if vector.len() != self.dimension {
            return Err(Error::invalid_dimension(vector.len(), self.dimension));
        }
        let kind: Distance = self.config.distance;
        let mut nearest: Vec<Candidate> = Vec::new();
        // Calculate the distance between the query and each record, and
        // keep the records sorted by it.
        let mut i: usize = 0;
        while i < self.slots.len()
            invariant
                self.wf(),
                i <= self.slots@.len(),
                kind == self.config.distance,
                vector@.len() == self.dimension,
                self.candidates_ok(vector@, nearest@),
                forall|j: int| 0 <= j < nearest@.len() ==> (#[trigger] nearest@[j]).vector_id.0 < i,
                forall|k: int|
                    0 <= k < i && live(self.slots@, k) ==> exists|j: int|
                        0 <= j < nearest@.len() && (#[trigger] nearest@[j]).vector_id.0 == k,
            decreases self.slots@.len() - i,
        {
            let id: VectorID = self.slots[i];
            if id.is_valid() {
                proof {
                    self.lemma_stored(i as u32);
                }
                if let Some(stored) = self.vectors.get(&id.0) {
                    let distance: u32 = (self.kernel)(kind, vector, stored);
                    let rank: u32 = kind.rank(distance);
                    let c = Candidate { distance, rank, vector_id: id };
                    assert(measured(self.kernel, kind, vector@, self.vectors@[id.0]@, distance)) by {
                        assert(call_ensures(self.kernel, (kind, vector, stored), distance));
                    }
                    let ghost before = nearest@;
                    let at = insert_ordered(&mut nearest, c);
                    proof {
                        let after = nearest@;
                        assert forall|a: int| 0 <= a < after.len() implies {
                            let x = #[trigger] after[a];
                            &&& self.vectors@.contains_key(x.vector_id.0)
                            &&& x.rank == kind.spec_rank(x.distance)
                            &&& measured(
                                self.kernel,
                                kind,
                                vector@,
                                self.vectors@[x.vector_id.0]@,
                                x.distance,
                            )
                            &&& x.vector_id.0 < i + 1
                        } by {
                            if a < at {
                                assert(after[a] == before[a]);
                            } else if a > at {
                                assert(after[a] == before[a - 1]);
                            }
                        }
                        assert forall|a: int, b: int| 0 <= a < b < after.len() implies (
                        #[trigger] after[a]).vector_id != (#[trigger] after[b]).vector_id by {
                            let pa = if a < at { a } else { a - 1 };
                            let pb = if b < at { b } else { b - 1 };
                            if a == at {
                                assert(after[b] == before[pb]);
                            } else if b == at {
                                assert(after[a] == before[pa]);
                            } else {
                                assert(after[a] == before[pa]);
                                assert(after[b] == before[pb]);
                            }
                        }
                        assert forall|k: int| 0 <= k < i + 1 && live(self.slots@, k) implies exists|
                            j: int,
                        |
                            0 <= j < after.len() && (#[trigger] after[j]).vector_id.0 == k by {
                            if k < i {
                                let j = choose|j: int|
                                    0 <= j < before.len() && (#[trigger] before[j]).vector_id.0 == k;
                                let pj = if j < at { j } else { j + 1 };
                                assert(after[pj] == before[j]);
                            } else {
                                assert(after[at as int] == c);
                            }
                        }
                    }
                }
            }
            i += 1;
        }
        proof {
            let found = self.as_results(nearest@);
            self.lemma_as_results(vector@, nearest@);
            lemma_selected(kind, self.relevancy, found, n as nat);
            assert forall|k: u32| self@.vectors.contains_key(k) implies exists|j: int|
                0 <= j < found.len() && (#[trigger] found[j]).id == k by {
                self.lemma_stored(k);
                let j = choose|j: int| 0 <= j < nearest@.len() && (#[trigger] nearest@[j]).vector_id.0
                    == k as int;
                assert(found[j].id == k);
            }
            self.lemma_count(found);
        }
        let res = self.finish(&nearest, n, Ghost(vector@));
        proof {
            let found = self.as_results(nearest@);
            let out = result_views(res@);
            assert forall|i: int| 0 <= i < out.len() implies self.hit(vector@, #[trigger] out[i]) by {
                let j = choose|j: int| 0 <= j < found.len() && found[j] == out[i];
                assert(self.hit(vector@, found[j]));
            }
            assert forall|i: int| 0 <= i < res@.len() implies kind.spec_is_relevant(
                (#[trigger] res@[i]).distance,
                self.relevancy,
            ) by {
                assert(out[i].distance == res@[i].distance);
            }
        }
        Ok(res)
    }

    /// Results that name every live record once are as many as the records.
    proof fn lemma_count(&self, found: Seq<ResultView>)
        requires
            self.wf(),
            results_distinct(found),
            self.complete(found),
            forall|i: int| 0 <= i < found.len() ==> self@.vectors.contains_key((#[trigger] found[i]).id),
        ensures
            found.len() == self@.count,
    {
        let ids = found.map_values(|r: ResultView| r.id);
        assert(ids.no_duplicates()) by {
            assert forall|i: int, j: int| 0 <= i < ids.len() && 0 <= j < ids.len() && i != j implies ids[i]
                != ids[j] by {
                if i < j {
                    assert(found[i].id != found[j].id);
                } else {
                    assert(found[j].id != found[i].id);
                }
            }
        }
        ids.unique_seq_to_set();
        assert(ids.to_set() =~= self@.vectors.dom()) by {
            assert forall|k: u32| ids.to_set().contains(k) <==> self@.vectors.dom().contains(k) by {
                if ids.to_set().contains(k) {
                    let i = choose|i: int| 0 <= i < ids.len() && ids[i] == k;
                    assert(self@.vectors.contains_key(found[i].id));
                }
                if self@.vectors.dom().contains(k) {
                    let i = choose|i: int| 0 <= i < found.len() && (#[trigger] found[i]).id == k;
                    assert(ids[i] == k);
                }
            }
        }
    }
}

/// Whether `build` takes the records: they are fewer than the largest
/// identifier and all have the length of the first.
pub open spec fn build_accepts(records: Seq<RecordView>) -> bool {
    records.len() < u32::MAX && consistent(records)
}

/// Building a collection from records without a repeated vector gives the
/// contents that inserting them all into an empty collection gives, and
/// the one takes the records exactly when the other does.
pub proof fn lemma_build_matches_insert_many(records: Seq<RecordView>)
    requires
        forall|i: int| 0 <= i < records.len() ==> first_occurrence(records, i),
    ensures
        built(records) == Contents::empty().insert_all(records),
        build_accepts(records) <==> insert_many_accepts(Contents::empty(), records),
{
    lemma_unique_of_distinct(records, records.len());
    assert(records.take(records.len() as int) =~= records);
}

impl<K: Fn(Distance, &Vector, &Vector) -> u32> Collection<K> {
    /// Copies the first `end` nodes of the base layer, each cut down to its
    /// first `M` neighbours, into the given upper layer.
    fn copy_to_upper(&mut self, layer: usize, end: usize)
        requires
            old(self).wf(),
            1 <= layer <= old(self).upper_layers@.len(),
            end <= old(self).slots@.len(),
        ensures
            final(self).wf(),
            final(self).same_but_graph(old(self)),
            final(self).base_layer == old(self).base_layer,
            final(self).upper_layers@.len() == old(self).upper_layers@.len(),
            forall|l: int|
                0 <= l < final(self).upper_layers@.len() && l != layer - 1 ==> (
                #[trigger] final(self).upper_layers@[l]) == old(self).upper_layers@[l],
            final(self).upper_layers@[layer - 1]@.len() == old(self).upper_layers@[layer - 1]@.len(),
            forall|v: int|
                0 <= v < end ==> (#[trigger] final(self).upper_layers@[layer - 1]@[v])@ == old(self).base_layer@[v]@.take(32),
            forall|v: int|
                end <= v < final(self).upper_layers@[layer - 1]@.len() ==> (
                #[trigger] final(self).upper_layers@[layer - 1]@[v]) == old(self).upper_layers@[layer
                    - 1]@[v],
    {
        let ghost start = *self;
        let at: usize = layer - 1;
        let mut v: usize = 0;
        proof {
            start.lemma_upper(at as int);
        }
        while v < end
            invariant
                v <= end <= self.slots@.len(),
                at < self.upper_layers@.len(),
                start.wf(),
                self.same_but_graph(&start),
                self.base_layer == start.base_layer,
                self.upper_layers@.len() == start.upper_layers@.len(),
                layer_wf(self.upper_layers@[at as int]@, self.slots@),
                forall|l: int|
                    0 <= l < self.upper_layers@.len() && l != at ==> (#[trigger] self.upper_layers@[l])
                        == start.upper_layers@[l],
                self.upper_layers@[at as int]@.len() == start.upper_layers@[at as int]@.len(),
                forall|w: int|
                    0 <= w < v ==> (#[trigger] self.upper_layers@[at as int]@[w])@
                        == start.base_layer@[w]@.take(32),
                forall|w: int|
                    v <= w < self.upper_layers@[at as int]@.len() ==> (
                    #[trigger] self.upper_layers@[at as int]@[w]) == start.upper_layers@[at as int]@[w],
            decreases end - v,
        {
            proof {
                assert(node_ok(self.base_layer@[v as int], v as int, self.slots@));
            }
            let node: UpperNode = UpperNode::from(&self.base_layer[v]);
            let ghost before = self.upper_layers@[at as int]@;
            self.upper_layers[at][v] = node;
            proof {
                let after = self.upper_layers@[at as int]@;
                lemma_degree(self.base_layer@[v as int]@);
                lemma_degree(node@);
                lemma_upper_node_ok(self.base_layer@[v as int], node, v as int, self.slots@);
                assert(after =~= before.update(v as int, node));
                lemma_layer_kept(before, after, v as int, self.slots@);
            }
            v += 1;
        }
        proof {
            assert(self@ == start@);
            assert forall|l: int| 0 <= l < self.upper_layers@.len() implies layer_wf(
                (#[trigger] self.upper_layers@[l])@,
                self.slots@,
            ) by {
                if l != at {
                    start.lemma_upper(l);
                }
            }
            self.lemma_wf_from_layers();
        }
    }

    /// Builds the collection index from vector records. Records that repeat
    /// the vector of an earlier record are dropped; the others get the IDs
    /// 0, 1, 2 and so on in their order. The layers are filled from the top
    /// down, each with the records whose ID is below the layer's size.
    pub fn build(config: &Config, records: &[Record], kernel: K) -> (r: Result<Self, Error>)
        requires
            callable(kernel),
        ensures
            r is Ok <==> build_accepts(record_views(records@)),
            records@.len() >= u32::MAX ==> r is Err && r->Err_0 == Error::CollectionLimit,
            records@.len() < u32::MAX && r is Err ==> r->Err_0 == (Error::InconsistentDimension {
                expected: records@[0].vector@.len() as usize,
            }),
            r is Ok ==> {
                let c = r->Ok_0;
                &&& c.wf()
                &&& c@ == built(record_views(records@))
                &&& c.spec_config() == *config
                &&& c.spec_relevancy() == RELEVANCY_DISABLED
                &&& c.spec_kernel() == kernel
                &&& c.spec_upper_layers().len() + 1 == layer_sizes(c@.count, config.ml).len()
                &&& exists|steps: Seq<Seq<BaseNode>>| #[trigger]
                    c.built_from(steps, layer_sizes(c@.count, config.ml))
            },
    {
        let ghost views = record_views(records@);
        if records.len() == 0 {
            let c = Self::new(config, kernel);
            proof {
                assert(layer_sizes(0, config.ml) =~= seq![0nat]);
                let steps = seq![c.base_layer@];
                assert(c.built_from(steps, layer_sizes(0, config.ml)));
            }
            return Ok(c);
        }
        // Ensure the number of records is within the limit.
        if records.len() >= 0xFFFF_FFFFusize {
            return Err(Error::collection_limit());
        }
        // Ensure that the vector dimension is consistent.
        let dimension: usize = records[0].vector.len();
        assert(views[0] == records@[0]@);
        let mut k: usize = 0;
        while k < records.len()
            invariant
                k <= records@.len(),
                views == record_views(records@),
                dimension == views[0].vector.len(),
                0 < records@.len() < u32::MAX,
                forall|j: int| 0 <= j < k ==> (#[trigger] views[j]).vector.len() == dimension,
            decreases records@.len() - k,
        {
            assert(views[k as int] == records@[k as int]@);
            if records[k].vector.len() != dimension {
                return Err(Error::InconsistentDimension { expected: dimension });
            }
            k += 1;
        }
        // Drop the records that repeat a vector and store the others.
        let kept: Vec<usize> = deduplicate(records);
        let ghost uniques = unique(views);
        proof {
            lemma_unique_prefix_bounds(views, views.len());
        }
        let mut c = Self::new(config, kernel);
        let mut i: usize = 0;
        while i < kept.len()
            invariant
                i <= kept@.len(),
                views == record_views(records@),
                uniques == unique(views),
                kept@.len() == uniques.len(),
                kept@.len() <= records@.len(),
                records@.len() < u32::MAX,
                forall|j: int|
                    0 <= j < kept@.len() ==> (#[trigger] kept@[j]) < records@.len() && records@[kept@[j] as int]@
                        == uniques[j],
                forall|j: int| 0 <= j < views.len() ==> (#[trigger] views[j]).vector.len() == dimension,
                c.wf(),
                c@ == Contents::empty().insert_first(uniques, i as nat),
                c.slots@.len() == i,
                c.count == i,
                i > 0 ==> c.dimension == dimension,
                forall|j: int| 0 <= j < i ==> (#[trigger] c.slots@[j]) == VectorID(j as u32),
                c.config == *config,
                c.relevancy == RELEVANCY_DISABLED,
                c.kernel == kernel,
                c.upper_layers@.len() == 0,
                forall|v: int|
                    0 <= v < c.base_layer@.len() ==> (#[trigger] c.base_layer@[v]).neighbors().len() == 0,
            decreases kept@.len() - i,
        {
            let at: usize = kept[i];
            let ghost enrolled = c;
            proof {
                assert(views[at as int] == records@[at as int]@);
                assert(records@[at as int]@ == uniques[i as int]);
            }
            let ghost slots_before = c.slots@;
            c.enroll(&records[at]);
            proof {
                assert(c.slots@ == slots_before.push(VectorID(i as u32)));
                assert(c.grown_from(&enrolled));
                assert forall|v: int| 0 <= v < c.base_layer@.len() implies (
                #[trigger] c.base_layer@[v]).neighbors().len() == 0 by {
                    if v < enrolled.base_layer@.len() {
                        assert(c.base_layer@[v] == enrolled.base_layer@[v]);
                    }
                }
            }
            i += 1;
        }
        // Find the number of layers and how many records go on each.
        let layers: Vec<usize> = sizes(c.count, config.ml);
        let top: usize = layers.len() - 1;
        let total: usize = c.slots.len();
        while c.upper_layers.len() < top
            invariant
                c.wf(),
                c@ == built(views),
                c.slots@.len() == total,
                c.config == *config,
                c.relevancy == RELEVANCY_DISABLED,
                c.kernel == kernel,
                c.upper_layers@.len() <= top,
                forall|j: int| 0 <= j < total ==> (#[trigger] c.slots@[j]) == VectorID(j as u32),
                forall|v: int|
                    0 <= v < c.base_layer@.len() ==> (#[trigger] c.base_layer@[v]).neighbors().len() == 0,
                forall|l: int, v: int|
                    0 <= l < c.upper_layers@.len() && 0 <= v < c.upper_layers@[l]@.len() ==> (
                    #[trigger] c.upper_layers@[l]@[v]).neighbors().len() == 0,
            decreases top - c.upper_layers@.len(),
        {
            let ghost before = c;
            let mut layer: Vec<UpperNode> = Vec::new();
            extend(&mut layer, total);
            c.upper_layers.push(layer);
            proof {
                lemma_layer_grown(
                    Seq::<UpperNode>::empty(),
                    layer@,
                    Seq::<VectorID>::empty(),
                    c.slots@,
                );
                assert(c@ == before@);
                assert forall|l: int| 0 <= l < c.upper_layers@.len() implies layer_wf(
                    (#[trigger] c.upper_layers@[l])@,
                    c.slots@,
                ) by {
                    if l < before.upper_layers@.len() {
                        before.lemma_upper(l);
                    }
                }
                c.lemma_wf_from_layers();
                assert forall|l: int, v: int|
                    0 <= l < c.upper_layers@.len() && 0 <= v < c.upper_layers@[l]@.len() implies (
                #[trigger] c.upper_layers@[l]@[v]).neighbors().len() == 0 by {
                    if l < before.upper_layers@.len() {
                        assert(c.upper_layers@[l] == before.upper_layers@[l]);
                    }
                }
            }
        }
        // Link the records layer by layer, from the top down.
        let ghost unlinked = c;
        c.link_layers(&layers);
        proof {
            let sizes = as_sizes(layers@);
            assert(sizes =~= layer_sizes(c@.count, config.ml));
            assert(c.spec_upper_layers().len() == top);
            assert(c@ == unlinked@);
        }
        Ok(c)
    }

    /// Links the records of a collection that has no links yet, layer by
    /// layer from the top down. The records of a layer are those whose
    /// identifier is below the layer's size; record 0 is the one from which
    /// every search starts and is linked by the others. When the records of
    /// a layer above the base are linked, the layer gets its copy of the
    /// base layer as it stands then.
    fn link_layers(&mut self, layers: &Vec<usize>)
        requires
            old(self).wf(),
            layers@.len() == old(self).upper_layers@.len() + 1,
            layers@[0] == old(self).slots@.len(),
            forall|i: int| 0 < i < layers@.len() ==> 1 <= #[trigger] layers@[i] < layers@[i - 1],
            forall|j: int|
                0 <= j < old(self).slots@.len() ==> (#[trigger] old(self).slots@[j]) == VectorID(j as u32),
            forall|v: int|
                0 <= v < old(self).base_layer@.len() ==> (#[trigger] old(self).base_layer@[v]).neighbors().len()
                    == 0,
            forall|l: int, v: int|
                0 <= l < old(self).upper_layers@.len() && 0 <= v < old(self).upper_layers@[l]@.len() ==> (
                #[trigger] old(self).upper_layers@[l]@[v]).neighbors().len() == 0,
        ensures
            final(self).wf(),
            final(self).same_but_graph(old(self)),
            final(self).upper_layers@.len() == old(self).upper_layers@.len(),
            exists|steps: Seq<Seq<BaseNode>>| #[trigger]
                final(self).built_from(steps, as_sizes(layers@)),
    {
        let ghost sizes = as_sizes(layers@);
        let top: usize = layers.len() - 1;
        let total: usize = self.slots.len();
        let ghost mut steps: Seq<Seq<BaseNode>> = seq![self.base_layer@];
        let mut above: usize = top + 1;
        proof {
            assert forall|i: int| 0 < i < sizes.len() implies #[trigger] sizes[i] < sizes[i - 1] by {
                assert(layers@[i] < layers@[i - 1]);
            }
        }
        while above > 0
            invariant
                above <= top + 1,
                top + 1 == layers@.len(),
                sizes == as_sizes(layers@),
                forall|i: int| 0 < i < sizes.len() ==> #[trigger] sizes[i] < sizes[i - 1],
                forall|i: int| 0 < i < layers@.len() ==> 1 <= #[trigger] layers@[i] < layers@[i - 1],
                layers@[0] == total,
                self.wf(),
                self.same_but_graph(old(self)),
                self.slots@.len() == total,
                forall|j: int| 0 <= j < total ==> (#[trigger] self.slots@[j]) == VectorID(j as u32),
                self.upper_layers@.len() == top,
                self.base_layer@.len() == total,
                steps.len() == (if above == top + 1 || layers@[above as int] == 0 {
                    1int
                } else {
                    layers@[above as int] as int
                }),
                steps[0].len() == total,
                steps[steps.len() - 1] == self.base_layer@,
                built_chain(self.kernel, self.config, self.vectors@, self.slots@, steps, sizes),
                forall|l: int, v: int|
                    0 <= l < top && 0 <= v < self.upper_layers@[l]@.len() ==> if l + 1 >= above && v
                        < sizes[l + 1] {
                        (#[trigger] self.upper_layers@[l]@[v])@ == steps[sizes[l + 1] - 1][v]@.take(32)
                    } else {
                        self.upper_layers@[l]@[v].neighbors().len() == 0
                    },
            decreases above,
        {
            let layer: usize = above - 1;
            let start: usize = if layer == top {
                0
            } else {
                layers[layer + 1]
            };
            let end: usize = layers[layer];
            let mut id: usize = if start < 1 {
                1
            } else {
                start
            };
            proof {
                lemma_sizes_fall(sizes, 0, layer as int);
            }
            while id < end
                invariant
                    end <= total,
                    end == layers@[layer as int],
                    layer <= top,
                    layer < top ==> layers@[layer + 1] <= id,
                    1 <= id,
                    top + 1 == layers@.len(),
                    sizes == as_sizes(layers@),
                    forall|i: int| 0 < i < sizes.len() ==> #[trigger] sizes[i] < sizes[i - 1],
                    self.wf(),
                    self.same_but_graph(old(self)),
                    self.slots@.len() == total,
                    total < u32::MAX,
                    forall|j: int| 0 <= j < total ==> (#[trigger] self.slots@[j]) == VectorID(j as u32),
                    self.upper_layers@.len() == top,
                    self.base_layer@.len() == total,
                    steps.len() == id,
                    id <= end || id == 1,
                    steps[0].len() == total,
                    steps[steps.len() - 1] == self.base_layer@,
                    built_chain(self.kernel, self.config, self.vectors@, self.slots@, steps, sizes),
                    forall|l: int, v: int|
                        0 <= l < top && 0 <= v < self.upper_layers@[l]@.len() ==> if l + 1 > layer && v
                            < sizes[l + 1] {
                            (#[trigger] self.upper_layers@[l]@[v])@ == steps[sizes[l + 1] - 1][v]@.take(
                                32,
                            )
                        } else {
                            self.upper_layers@[l]@[v].neighbors().len() == 0
                        },
                decreases end - id,
            {
                let ghost before = *self;
                let ghost earlier = steps;
                assert(self.slots@[id as int] == VectorID(id as u32));
                self.insert_into_layers(VectorID(id as u32), layer);
                proof {
                    lemma_layer_of(sizes, id as int, layer as int, top as int);
                    steps = earlier.push(self.base_layer@);
                    assert(self.upper_layers == before.upper_layers);
                    assert forall|i: int| 0 <= i < steps.len() - 1 implies linked_in(
                        self.kernel,
                        self.config,
                        self.vectors@,
                        self.slots@,
                        #[trigger] steps[i],
                        steps[i + 1],
                        VectorID((i + 1) as u32),
                        link_limit(layer_of(sizes, i + 1, sizes.len() - 1)),
                    ) by {
                        if i < earlier.len() - 1 {
                            assert(steps[i] == earlier[i]);
                            assert(steps[i + 1] == earlier[i + 1]);
                        } else {
                            assert(steps[i] == earlier[i]);
                        }
                    }
                    assert(steps[0] == earlier[0]);
                    assert forall|l: int, v: int|
                        0 <= l < top && 0 <= v < self.upper_layers@[l]@.len() implies if l + 1 > layer
                        && v < sizes[l + 1] {
                        (#[trigger] self.upper_layers@[l]@[v])@ == steps[sizes[l + 1] - 1][v]@.take(32)
                    } else {
                        self.upper_layers@[l]@[v].neighbors().len() == 0
                    } by {
                        if l + 1 > layer && v < sizes[l + 1] {
                            lemma_sizes_fall(sizes, layer as int + 1, l + 1);
                            assert(steps[sizes[l + 1] - 1] == earlier[sizes[l + 1] - 1]);
                        }
                    }
                }
                id += 1;
            }
            // Copy the base layer state to the upper layer.
            if layer > 0 {
                let ghost before = *self;
                self.copy_to_upper(layer, end);
                proof {
                    assert(self@ == before@);
                    assert forall|l: int, v: int|
                        0 <= l < top && 0 <= v < self.upper_layers@[l]@.len() implies if l + 1 >= layer
                        && v < sizes[l + 1] {
                        (#[trigger] self.upper_layers@[l]@[v])@ == steps[sizes[l + 1] - 1][v]@.take(32)
                    } else {
                        self.upper_layers@[l]@[v].neighbors().len() == 0
                    } by {
                        assert(sizes[layer as int] == end);
                        if l != layer - 1 {
                            assert(self.upper_layers@[l] == before.upper_layers@[l]);
                        } else if v < end {
                            assert(before.base_layer@ == steps[end - 1]);
                        } else {
                            assert(self.upper_layers@[l]@[v] == before.upper_layers@[l]@[v]);
                        }
                    }
                }
            }
            above = layer;
        }
        proof {
            assert(self.spec_upper_layers().len() + 1 == sizes.len());
            assert(upper_copied(steps, sizes, self.spec_upper_layers())) by {
                assert forall|l: int, v: int|
                    0 <= l < self.spec_upper_layers().len() && 0 <= v < self.spec_upper_layers()[l].len() implies if v
                    < sizes[l + 1] {
                    (#[trigger] self.spec_upper_layers()[l][v])@ == steps[sizes[l + 1] - 1][v]@.take(32)
                } else {
                    self.spec_upper_layers()[l][v].neighbors().len() == 0
                } by {
                    assert(self.spec_upper_layers()[l][v] == self.upper_layers@[l]@[v]);
                }
            }
            assert(self.built_from(steps, sizes));
        }
    }
}

impl<K: Fn(Distance, &Vector, &Vector) -> u32> Collection<K> {
    /// The state of the collection: all of it but the kernel.
    pub open spec fn state(&self) -> State {
        State {
            contents: self@,
            config: self.spec_config(),
            relevancy: self.spec_relevancy(),
            base_layer: self.spec_base_layer(),
            upper_layers: self.spec_upper_layers(),
        }
    }

    /// Copies the state of the collection into plain values.
    pub fn snapshot(&self) -> (s: Snapshot)
        requires
            self.wf(),
        ensures
            s.wf(),
            s.state() == self.state(),
    {
        let mut slots: Vec<VectorID> = Vec::new();
        let mut records: Vec<Option<Record>> = Vec::new();
        let mut base_layer: Vec<BaseNode> = Vec::new();
        let mut i: usize = 0;
        while i < self.slots.len()
            invariant
                self.wf(),
                i <= self.slots@.len(),
                slots@ == self.slots@.take(i as int),
                base_layer@ == self.base_layer@.take(i as int),
                records@.len() == i,
                forall|k: int|
                    0 <= k < i ==> ((#[trigger] records@[k]) is Some) == self.slots@[k].valid(),
                forall|k: int|
                    0 <= k < i && records@[k] is Some ==> (#[trigger] records@[k])->0@ == self@.record(
                        VectorID(k as u32),
                    ),
            decreases self.slots@.len() - i,
        {
            let id: VectorID = self.slots[i];
            proof {
                self.lemma_stored(i as u32);
            }
            let record: Option<Record> = if id.is_valid() {
                match self.get(&id) {
                    Ok(r) => Some(r),
                    Err(_) => None,
                }
            } else {
                None
            };
            slots.push(id);
            records.push(record);
            base_layer.push(self.base_layer[i]);
            proof {
                assert(slots@ =~= self.slots@.take(i + 1));
                assert(base_layer@ =~= self.base_layer@.take(i + 1));
            }
            i += 1;
        }
        let mut upper_layers: Vec<Vec<UpperNode>> = Vec::new();
        let mut l: usize = 0;
        while l < self.upper_layers.len()
            invariant
                self.wf(),
                l <= self.upper_layers@.len(),
                upper_layers@.len() == l,
                forall|k: int| 0 <= k < l ==> (#[trigger] upper_layers@[k])@ == self.upper_layers@[k]@,
            decreases self.upper_layers@.len() - l,
        {
            let mut layer: Vec<UpperNode> = Vec::new();
            let mut v: usize = 0;
            while v < self.upper_layers[l].len()
                invariant
                    l < self.upper_layers@.len(),
                    v <= self.upper_layers@[l as int]@.len(),
                    layer@ == self.upper_layers@[l as int]@.take(v as int),
                decreases self.upper_layers@[l as int]@.len() - v,
            {
                layer.push(self.upper_layers[l][v]);
                proof {
                    assert(layer@ =~= self.upper_layers@[l as int]@.take(v + 1));
                }
                v += 1;
            }
            proof {
                assert(layer@ =~= self.upper_layers@[l as int]@);
            }
            upper_layers.push(layer);
            l += 1;
        }
        let s = Snapshot {
            config: self.config,
            relevancy: self.relevancy,
            dimension: self.dimension,
            slots,
            records,
            base_layer,
            upper_layers,
        };
        proof {
            assert(s.slots@ =~= self.slots@);
            assert(s.base_layer@ =~= self.base_layer@);
            assert(s.state().upper_layers =~= self.spec_upper_layers());
            assert(s.state().contents.vectors =~= self@.vectors) by {
                assert forall|k: u32| s.state().contents.vectors.contains_key(k)
                    <==> self@.vectors.contains_key(k) by {
                    self.lemma_stored(k);
                }
                assert forall|k: u32| s.state().contents.vectors.contains_key(k) implies s.state().contents.vectors[k]
                    == self@.vectors[k] by {
                    assert(s.records@[k as int]->0@ == self@.record(VectorID(k)));
                }
            }
            assert(s.state().contents.data =~= self@.data) by {
                assert forall|k: u32| s.state().contents.data.contains_key(k) <==> self@.data.contains_key(
                    k,
                ) by {
                    self.lemma_stored(k);
                }
                assert forall|k: u32| s.state().contents.data.contains_key(k) implies s.state().contents.data[k]
                    == self@.data[k] by {
                    assert(s.records@[k as int]->0@ == self@.record(VectorID(k)));
                }
            }
            assert(s.state().contents == self@);
            assert(s.state() == self.state());
            assert(s.state().wf()) by {
                assert forall|k: int| 0 <= k < s.state().upper_layers.len() implies layer_wf(
                    #[trigger] s.state().upper_layers[k],
                    s.state().contents.slots,
                ) by {
                    assert(layer_wf(self.spec_upper_layers()[k], self@.slots));
                }
            }
        }
        s
    }

    /// Brings a collection back from a snapshot, with the kernel to use
    /// from now on. A snapshot that is not in order gives nothing.
    pub fn restore(snapshot: Snapshot, kernel: K) -> (r: Option<Self>)
        requires
            callable(kernel),
        ensures
            r is Some <==> snapshot.wf(),
            r is Some ==> r->0.wf() && r->0.state() == snapshot.state() && r->0.spec_kernel() == kernel,
    {
        if !snapshot.is_valid() {
            return None;
        }
        let ghost state = snapshot.state();
        assert(state.contents.slots.len() < u32::MAX);
        let mut vectors: HashMap<u32, Vector> = HashMap::new();
        let mut data: HashMap<u32, Metadata> = HashMap::new();
        let mut i: usize = 0;
        while i < snapshot.records.len()
            invariant
                snapshot.wf(),
                i <= snapshot.records@.len(),
                snapshot.records@.len() < u32::MAX,
                forall|k: u32| #[trigger] vectors@.contains_key(k) <==> (k < i && snapshot.stores(k)),
                forall|k: u32| #[trigger] data@.contains_key(k) <==> (k < i && snapshot.stores(k)),
                forall|k: u32|
                    vectors@.contains_key(k) ==> (#[trigger] vectors@[k])@ == snapshot.records@[k as int]->0.vector@,
                forall|k: u32|
                    data@.contains_key(k) ==> (#[trigger] data@[k])@ == snapshot.records@[k as int]->0.data@,
            decreases snapshot.records@.len() - i,
        {
            let ghost vectors_before = vectors@;
            let ghost data_before = data@;
            match &snapshot.records[i] {
                Some(record) => {
                    vectors.insert(i as u32, record.vector.clone());
                    data.insert(i as u32, record.data.clone());
                },
                None => {},
            }
            assert forall|k: u32| #[trigger] vectors@.contains_key(k) <==> (k < i + 1 && snapshot.stores(k)) by {
                if k as int == i as int {
                    assert(k == i as u32);
                } else {
                    assert(vectors@.contains_key(k) == vectors_before.contains_key(k));
                }
            }
            assert forall|k: u32| #[trigger] data@.contains_key(k) <==> (k < i + 1 && snapshot.stores(k)) by {
                if k as int == i as int {
                    assert(k == i as u32);
                } else {
                    assert(data@.contains_key(k) == data_before.contains_key(k));
                }
            }
            i += 1;
        }
        let count: usize = vectors.len();
        let c = Collection {
            config: snapshot.config,
            relevancy: snapshot.relevancy,
            data,
            vectors,
            slots: snapshot.slots,
            base_layer: snapshot.base_layer,
            upper_layers: snapshot.upper_layers,
            count,
            dimension: snapshot.dimension,
            kernel,
        };
        proof {
            assert(c@.vectors =~= state.contents.vectors);
            assert(c@.data =~= state.contents.data);
            assert(c@.vectors.dom() =~= c.vectors@.dom());
            assert(c@ == state.contents);
            assert(c.spec_upper_layers() =~= state.upper_layers);
            assert(c.state() == state);
            assert forall|l: int| 0 <= l < c.spec_upper_layers().len() implies layer_wf(
                #[trigger] c.spec_upper_layers()[l],
                c@.slots,
            ) by {
                assert(layer_wf(state.upper_layers[l], state.contents.slots));
            }
        }
        Some(c)
    }
}

impl<K: Fn(Distance, &Vector, &Vector) -> u32> Collection<K> {
    /// Every slot is either tombstoned or holds its own position.
    pub proof fn lemma_slot_consistency(&self, i: int)
        requires
            self.wf(),
            0 <= i < self@.slots.len(),
        ensures
            (self@.slots[i] == VectorID(INVALID)) != (self@.slots[i].0 == i),
    {
    }

    /// The count is the number of stored vectors, of stored payloads and of
    /// live slots.
    pub proof fn lemma_cardinality(&self)
        requires
            self.wf(),
        ensures
            self@.count == self@.vectors.dom().len(),
            self@.count == self@.data.dom().len(),
            self@.count == live_ids(self@.slots).len(),
            self@.count <= self@.slots.len(),
    {
        lemma_live_bound(self@.slots);
    }

    /// Every layer has one node for each slot; a node of the base layer has
    /// at most `2M` neighbours and a node above it at most `M`.
    pub proof fn lemma_graph_shapes(&self, l: int, v: int)
        requires
            self.wf(),
            0 <= l < self.spec_upper_layers().len(),
            0 <= v < self@.slots.len(),
        ensures
            self.spec_base_layer().len() == self@.slots.len(),
            self.spec_upper_layers()[l].len() == self@.slots.len(),
            self.spec_base_layer()[v].neighbors().len() <= BASE_LINKS,
            self.spec_upper_layers()[l][v].neighbors().len() <= M,
    {
        lemma_degree(self.spec_base_layer()[v]@);
        lemma_degree(self.spec_upper_layers()[l][v]@);
    }

    /// No node has a neighbour that is not a live record, and no node has
    /// itself as a neighbour, on any layer.
    pub proof fn lemma_neighbors_live(&self, v: int, j: int)
        requires
            self.wf(),
            0 <= v < self@.slots.len(),
        ensures
            0 <= j < self.spec_base_layer()[v].neighbors().len() ==> {
                let n = self.spec_base_layer()[v].neighbors()[j];
                self@.contains(n) && n.0 != v
            },
            forall|l: int|
                0 <= l < self.spec_upper_layers().len() && 0 <= j < (
                #[trigger] self.spec_upper_layers()[l])[v].neighbors().len() ==> {
                    let n = self.spec_upper_layers()[l][v].neighbors()[j];
                    self@.contains(n) && n.0 != v
                },
    {
        if 0 <= j < self.spec_base_layer()[v].neighbors().len() {
            let n = self.spec_base_layer()[v].neighbors()[j];
            assert(node_ok(self.spec_base_layer()[v], v, self@.slots));
            assert(link_ok(n, v, self@.slots));
            assert(live_ids(self@.slots).contains(n.0));
        }
        assert forall|l: int|
            0 <= l < self.spec_upper_layers().len() && 0 <= j < (
            #[trigger] self.spec_upper_layers()[l])[v].neighbors().len() implies {
            let n = self.spec_upper_layers()[l][v].neighbors()[j];
            self@.contains(n) && n.0 != v
        } by {
            let n = self.spec_upper_layers()[l][v].neighbors()[j];
            assert(layer_wf(self.spec_upper_layers()[l], self@.slots));
            assert(node_ok(self.spec_upper_layers()[l][v], v, self@.slots));
            assert(link_ok(n, v, self@.slots));
            assert(live_ids(self@.slots).contains(n.0));
        }
    }
}

/// Adding chosen candidates behind the neighbours of a record never takes
/// a neighbour away.
pub proof fn lemma_attached_grows(list: Seq<VectorID>, chosen: Seq<Candidate>, n: nat)
    ensures
        attached(list, chosen, n).len() >= list.len(),
        n > 0 && list.len() == 0 && chosen[0].vector_id.valid() ==> attached(list, chosen, n).len() > 0,
    decreases n,
{
    if n > 0 {
        lemma_attached_grows(list, chosen, (n - 1) as nat);
        if n == 1 && list.len() == 0 && chosen[0].vector_id.valid() {
            assert(!list.contains(chosen[0].vector_id));
            assert(pushed(list, chosen[0].vector_id) == list.push(chosen[0].vector_id));
        }
    }
}

/// A record without neighbours that is linked into the base layer has a
/// neighbour afterwards, if there is another live record and
/// `ef_construction` is not 0: it appears in the graph.
pub proof fn lemma_linked_has_neighbour<K: Fn(Distance, &Vector, &Vector) -> u32>(
    kernel: K,
    config: Config,
    vectors: Map<u32, Vector>,
    slots: Seq<VectorID>,
    before: Seq<BaseNode>,
    after: Seq<BaseNode>,
    id: VectorID,
    limit: int,
)
    requires
        linked_in(kernel, config, vectors, slots, before, after, id, limit),
        before[id.0 as int].neighbors().len() == 0,
        config.ef_construction > 0,
        slots.len() < u32::MAX,
        exists|k: int| #[trigger] live(slots, k) && k != id.0,
    ensures
        after[id.0 as int].neighbors().len() > 0,
{
    reveal(linked_in);
    let chosen = choose|chosen: Seq<Candidate>| #[trigger]
        links_made(kernel, config, vectors, slots, before, after, id, limit, chosen);
    assert(chosen.len() > 0);
    assert(live(slots, chosen[0].vector_id.0 as int));
    assert(chosen[0].vector_id.valid());
    lemma_attached_grows(before[id.0 as int].neighbors(), chosen, chosen.len());
}

/// Whether the kernel is a function: it gives one distance for two
/// vectors, whenever it is asked.
pub open spec fn functional<K: Fn(Distance, &Vector, &Vector) -> u32>(kernel: K) -> bool {
    forall|kind: Distance, a: Seq<u32>, b: Seq<u32>, d: u32, e: u32|
        #![trigger measured(kernel, kind, a, b, d), measured(kernel, kind, a, b, e)]
        measured(kernel, kind, a, b, d) && measured(kernel, kind, a, b, e) ==> d == e
}

impl<K: Fn(Distance, &Vector, &Vector) -> u32> Collection<K> {
    /// The stored vectors are those of the view.
    pub proof fn lemma_vectors(&self, k: u32)
        ensures
            self.spec_vectors().contains_key(k) <==> self@.vectors.contains_key(k),
            self.spec_vectors().contains_key(k) ==> self.spec_vectors()[k]@ == self@.vectors[k],
    {
    }

    /// With a kernel that is a function, a query has one hit for each live
    /// record.
    pub proof fn lemma_hit_unique(&self, query: Seq<u32>, a: ResultView, b: ResultView)
        requires
            functional(self.spec_kernel()),
            self.hit(query, a),
            self.hit(query, b),
            a.id == b.id,
        ensures
            a == b,
    {
    }

    /// With a kernel that is a function, what `true_search` finds is
    /// settled by the collection and the query: two lists that hold a hit
    /// for every live record, nearest first and none twice, are the same
    /// list. So are the answers of two calls on one collection with one
    /// query, one threshold and one `n`.
    pub proof fn lemma_found_unique(&self, query: Seq<u32>, a: Seq<ResultView>, b: Seq<ResultView>)
        requires
            self.wf(),
            functional(self.spec_kernel()),
            self.found_ok(query, a),
            self.complete(a),
            self.found_ok(query, b),
            self.complete(b),
        ensures
            a == b,
    {
        self.lemma_count(a);
        self.lemma_count(b);
        self.lemma_same_prefix(query, a, b, a.len());
        assert(a.take(a.len() as int) =~= a);
        assert(b.take(a.len() as int) =~= b);
    }

    /// Two such lists agree on their first `k` results.
    proof fn lemma_same_prefix(&self, query: Seq<u32>, a: Seq<ResultView>, b: Seq<ResultView>, k: nat)
        requires
            self.wf(),
            functional(self.spec_kernel()),
            self.found_ok(query, a),
            self.complete(a),
            self.found_ok(query, b),
            self.complete(b),
            a.len() == b.len(),
            k <= a.len(),
        ensures
            a.take(k as int) == b.take(k as int),
        decreases k,
    {
        if k == 0 {
            assert(a.take(0) =~= b.take(0));
        } else {
            let m = (k - 1) as int;
            self.lemma_same_prefix(query, a, b, m as nat);
            let kind = self.spec_config().distance;
            assert forall|i: int| 0 <= i < m implies a[i] == b[i] by {
                assert(a.take(m)[i] == b.take(m)[i]);
            }
            // the result at m in the one list stands somewhere in the other
            assert(self.hit(query, a[m]));
            let j = choose|j: int| 0 <= j < b.len() && (#[trigger] b[j]).id == a[m].id;
            assert(self.hit(query, b[j]));
            self.lemma_hit_unique(query, a[m], b[j]);
            assert(self.hit(query, b[m]));
            let i = choose|i: int| 0 <= i < a.len() && (#[trigger] a[i]).id == b[m].id;
            assert(self.hit(query, a[i]));
            self.lemma_hit_unique(query, b[m], a[i]);
            if j < m {
                assert(a[j] == b[j]);
                assert(a[j].id != a[m].id);
            }
            if i < m {
                assert(b[i] == a[i]);
                assert(b[i].id != b[m].id);
            }
            if j > m && i > m {
                // each would have to come before the other
                assert(!result_precedes(kind, b[j], b[m]));
                assert(!result_precedes(kind, a[i], a[m]));
                assert(b[m].id != b[j].id);
                assert(false);
            }
            assert(a[m] == b[m]);
            assert(a.take(k as int) =~= b.take(k as int)) by {
                assert forall|x: int| 0 <= x < k implies a.take(k as int)[x] == b.take(k as int)[x] by {
                    if x < m {
                        assert(a[x] == b[x]);
                    }
                }
            }
        }
    }
}

/// With a kernel that is a function, the answer of `true_search` is
/// settled by the state and the query, and raising the bar leaves a
/// beginning of it: of two collections that hold the same under the same
/// kernel and distance, the one with the stricter threshold answers with a
/// beginning of what the other answers. With equal thresholds the answers
/// are the same, as they are before and after a collection was stored and
/// brought back.
pub proof fn lemma_true_search_settled<K: Fn(Distance, &Vector, &Vector) -> u32>(
    strict: &Collection<K>,
    loose: &Collection<K>,
    query: Seq<u32>,
    n: nat,
    found_strict: Seq<ResultView>,
    found_loose: Seq<ResultView>,
)
    requires
        strict.wf(),
        loose.wf(),
        functional(strict.spec_kernel()),
        strict.spec_kernel() == loose.spec_kernel(),
        strict.spec_config().distance == loose.spec_config().distance,
        strict@ == loose@,
        strict.found_ok(query, found_strict),
        strict.complete(found_strict),
        loose.found_ok(query, found_loose),
        loose.complete(found_loose),
        strict.spec_relevancy() == loose.spec_relevancy() || (strict.spec_relevancy()
            != RELEVANCY_DISABLED && (loose.spec_relevancy() == RELEVANCY_DISABLED
            || if strict.spec_config().distance.spec_lower_is_better() {
            at_most(strict.spec_relevancy(), loose.spec_relevancy())
        } else {
            at_most(loose.spec_relevancy(), strict.spec_relevancy())
        })),
    ensures
        found_strict == found_loose,
        selected(strict.spec_config().distance, strict.spec_relevancy(), found_strict, n) == selected(
            loose.spec_config().distance,
            loose.spec_relevancy(),
            found_loose,
            n,
        ).take(
            selected(strict.spec_config().distance, strict.spec_relevancy(), found_strict, n).len() as int,
        ),
        strict.spec_relevancy() == loose.spec_relevancy() ==> selected(
            strict.spec_config().distance,
            strict.spec_relevancy(),
            found_strict,
            n,
        ) == selected(loose.spec_config().distance, loose.spec_relevancy(), found_loose, n),
{
    let kind = strict.spec_config().distance;
    assert(strict.found_ok(query, found_loose)) by {
        assert forall|i: int| 0 <= i < found_loose.len() implies strict.hit(
            query,
            #[trigger] found_loose[i],
        ) by {
            assert(loose.hit(query, found_loose[i]));
        }
    }
    assert(strict.complete(found_loose));
    strict.lemma_found_unique(query, found_strict, found_loose);
    if strict.spec_relevancy() == loose.spec_relevancy() {
        let a = selected(kind, strict.spec_relevancy(), found_strict, n);
        assert(a.take(a.len() as int) =~= a);
    } else {
        lemma_selected_prefix(kind, strict.spec_relevancy(), loose.spec_relevancy(), found_strict, n);
    }
}

} // verus!
