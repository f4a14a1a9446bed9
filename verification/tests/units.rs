use sahomedb::bits::{exec_at_most, exec_is_nan};
use sahomedb::collection::{Collection, Config, Record};
use sahomedb::dedup::deduplicate;
use sahomedb::distance::Distance;
use sahomedb::err::Error;
use sahomedb::graph::{extend, purge};
use sahomedb::layers::{shrink, sizes};
use sahomedb::metadata::Metadata;
use sahomedb::node::{BaseNode, Node, UpperNode};
use sahomedb::random::unit_pattern;
use sahomedb::results::{filter_relevant, SearchResult};
use sahomedb::search::{insert_ordered, position, Candidate, Search};
use sahomedb::snapshot::{check_layer, check_node};
use sahomedb::vector::{Vector, VectorID, INVALID};
use std::collections::HashMap;

fn bits(x: f32) -> u32 {
    x.to_bits()
}

fn vector(values: &[f32]) -> Vector {
    Vector(values.iter().map(|x| x.to_bits()).collect())
}

fn euclidean(_kind: Distance, a: &Vector, b: &Vector) -> u32 {
    let sum: f32 = a
        .0
        .iter()
        .zip(b.0.iter())
        .map(|(x, y)| (f32::from_bits(*x) - f32::from_bits(*y)).powi(2))
        .sum();
    sum.sqrt().to_bits()
}

fn ids(node_ids: &[u32]) -> Vec<VectorID> {
    node_ids.iter().map(|i| VectorID(*i)).collect()
}

fn neighbors<const N: usize>(node: &Node<N>) -> Vec<u32> {
    (0..node.degree()).map(|i| node.get(i).0).collect()
}

#[test]
fn distance_string_parsing() {
    assert_eq!(Distance::from("l2"), Err(Error::UnsupportedDistance));
    assert_eq!(Distance::from(""), Err(Error::UnsupportedDistance));
    assert_eq!(Distance::from("Dot"), Err(Error::UnsupportedDistance));
    assert_eq!(Distance::from("dot"), Ok(Distance::Dot));
    assert_eq!(Distance::from("euclidean"), Ok(Distance::Euclidean));
    assert_eq!(Distance::from("cosine"), Ok(Distance::Cosine));
    for name in ["dot", "euclidean", "cosine"] {
        assert_eq!(Distance::from(name).unwrap().name(), name);
    }
    for kind in [Distance::Dot, Distance::Euclidean, Distance::Cosine] {
        assert_eq!(Distance::from(kind.name()), Ok(kind));
    }
}

#[test]
fn error_messages() {
    assert_eq!(Error::invalid_dimension(2, 3), Error::InvalidDimension { found: 2, expected: 3 });
    assert_eq!(Error::collection_limit(), Error::CollectionLimit);
    assert_eq!(Error::record_not_found(), Error::RecordNotFound);
    assert_eq!(Error::UnsupportedDistance.message(), "Distance function not supported.");
    assert_eq!(Error::UnableToInitiateSearch.message(), "Unable to initiate search.");
    assert_eq!(Error::CollectionNotEmpty.message(), "The collection must be empty.");
    assert_eq!(Error::CollectionLimit.message(), "The collection limit is reached.");
    assert_eq!(Error::RecordNotFound.message(), "The vector record is not found.");
    assert_eq!(Error::InvalidDimension { found: 1, expected: 2 }.message(), "Invalid vector dimension.");
    assert_eq!(
        Error::InconsistentDimension { expected: 2 }.message(),
        "The vector dimension is inconsistent."
    );
}

#[test]
fn numbers_in_order() {
    let values = [
        f32::NEG_INFINITY,
        -3.5,
        -1.0,
        -1e-40,
        -0.0,
        0.0,
        1e-40,
        0.3,
        1.0,
        7.25,
        f32::MAX,
        f32::INFINITY,
    ];
    for a in values {
        for b in values {
            assert_eq!(exec_at_most(bits(a), bits(b)), a <= b);
        }
        assert!(!exec_is_nan(bits(a)));
        assert!(!exec_at_most(bits(a), bits(f32::NAN)));
        assert!(!exec_at_most(bits(f32::NAN), bits(a)));
    }
    assert!(exec_is_nan(bits(f32::NAN)));
    assert!(exec_is_nan(0xFFC0_0001));
    assert!(!exec_at_most(bits(f32::NAN), bits(f32::NAN)));
}

#[test]
fn ranks_follow_the_kernel() {
    let values = [f32::NEG_INFINITY, -2.0, -0.0, 0.0, 0.5, 1.0, 3.0, f32::INFINITY];
    for a in values {
        for b in values {
            let near = Distance::Euclidean;
            assert_eq!(near.rank(bits(a)) <= near.rank(bits(b)), a <= b);
            for alike in [Distance::Dot, Distance::Cosine] {
                assert_eq!(alike.rank(bits(a)) <= alike.rank(bits(b)), a >= b);
            }
        }
        for kind in [Distance::Dot, Distance::Euclidean, Distance::Cosine] {
            assert!(kind.rank(bits(a)) < kind.rank(bits(f32::NAN)));
        }
    }
    assert_eq!(Distance::Euclidean.rank(bits(0.0)), 0x8000_0000);
    assert_eq!(Distance::Euclidean.rank(bits(1.0)), 0xBF80_0000);
    assert_eq!(Distance::Dot.rank(bits(1.0)), 0x4080_0000);
    assert_eq!(Distance::Dot.rank(bits(f32::NAN)), u32::MAX);
    assert!(Distance::Euclidean.lower_is_better());
    assert!(!Distance::Dot.lower_is_better());
    assert!(!Distance::Cosine.lower_is_better());
}

#[test]
fn relevancy_threshold() {
    let off = bits(-1.0);
    for kind in [Distance::Dot, Distance::Euclidean, Distance::Cosine] {
        assert!(kind.is_relevant(bits(123.0), off));
        assert!(kind.is_relevant(bits(f32::NAN), off));
        assert!(!kind.is_relevant(bits(f32::NAN), bits(0.5)));
    }
    assert!(Distance::Euclidean.is_relevant(bits(0.5), bits(0.5)));
    assert!(Distance::Euclidean.is_relevant(bits(0.25), bits(0.5)));
    assert!(!Distance::Euclidean.is_relevant(bits(0.75), bits(0.5)));
    assert!(Distance::Cosine.is_relevant(bits(0.5), bits(0.5)));
    assert!(Distance::Cosine.is_relevant(bits(0.75), bits(0.5)));
    assert!(!Distance::Cosine.is_relevant(bits(0.25), bits(0.5)));
    assert!(Distance::Dot.is_relevant(bits(-0.5), bits(-2.0)));
    assert!(!Distance::Dot.is_relevant(bits(-3.0), bits(-2.0)));
}

#[test]
fn filter_keeps_order() {
    let results: Vec<SearchResult> = [0.1f32, 0.9, 0.3, 0.5, 0.7]
        .iter()
        .enumerate()
        .map(|(i, d)| SearchResult { id: i as u32, distance: bits(*d), data: Metadata::Integer(i) })
        .collect();
    let kept = filter_relevant(Distance::Euclidean, bits(0.5), results);
    let ids: Vec<u32> = kept.iter().map(|r| r.id).collect();
    assert_eq!(ids, vec![0, 2, 3]);
    assert!(matches!(kept[1].data, Metadata::Integer(2)));
    let kept = filter_relevant(Distance::Dot, bits(0.5), kept);
    let ids: Vec<u32> = kept.iter().map(|r| r.id).collect();
    assert_eq!(ids, vec![3]);
    let kept = filter_relevant(Distance::Dot, bits(-1.0), kept);
    assert_eq!(kept.len(), 1);
}

#[test]
fn layer_sizes() {
    let ratio = bits(0.3);
    assert_eq!(sizes(1000, ratio), vec![1000, 300, 90]);
    assert_eq!(sizes(100, ratio), vec![100]);
    assert_eq!(sizes(107, ratio), vec![107, 32]);
    assert_eq!(sizes(106, ratio), vec![106]);
    assert_eq!(sizes(0, ratio), vec![0]);
    assert_eq!(sizes(100_000, bits(0.5)), vec![100_000, 50_000, 25_000, 12_500, 6_250, 3_125, 1_562, 781, 390, 195, 97, 48]);
    // a ratio outside of 0..1 gives a single layer
    assert_eq!(sizes(1000, bits(0.0)), vec![1000]);
    assert_eq!(sizes(1000, bits(1.0)), vec![1000]);
    assert_eq!(sizes(1000, bits(2.5)), vec![1000]);
    assert_eq!(sizes(1000, bits(-0.3)), vec![1000]);
    assert_eq!(sizes(1000, bits(f32::NAN)), vec![1000]);
}

#[test]
fn shrink_rounds_down() {
    assert_eq!(shrink(1000, bits(0.3)), 300);
    assert_eq!(shrink(90, bits(0.3)), 27);
    assert_eq!(shrink(10, bits(0.5)), 5);
    assert_eq!(shrink(11, bits(0.5)), 5);
    assert_eq!(shrink(1, bits(0.999)), 0);
    assert_eq!(shrink(0, bits(0.3)), 0);
    assert_eq!(shrink(1 << 30, bits(0.25)), 1 << 28);
    assert_eq!(shrink(1000, 1), 0);
    for len in [1usize, 7, 1000, 123_456, 9_999_999] {
        for ratio in [0.001f32, 0.3, 0.5, 0.75, 0.99] {
            let exact = (len as f64 * ratio as f64).floor() as usize;
            assert_eq!(shrink(len, bits(ratio)), exact);
        }
    }
}

#[test]
fn unit_patterns() {
    assert_eq!(unit_pattern(0), 0);
    assert_eq!(f32::from_bits(unit_pattern(1)), 1.0 / 16_777_216.0);
    assert_eq!(f32::from_bits(unit_pattern(1 << 23)), 0.5);
    assert_eq!(f32::from_bits(unit_pattern(3 << 22)), 0.75);
    for k in [2u32, 3, 5, 255, 256, 65_537, 8_388_607, 8_388_609, 16_777_215] {
        assert_eq!(f32::from_bits(unit_pattern(k)), k as f32 / 16_777_216.0);
    }
}

#[test]
fn vector_basics() {
    let a = vector(&[1.0, 2.0, 3.0]);
    let b = vector(&[1.0, 2.0, 3.0]);
    let c = vector(&[1.0, 2.0, 3.5]);
    assert_eq!(a.len(), 3);
    assert!(!a.is_empty());
    assert!(Vector::new(vec![]).is_empty());
    assert!(a.same_bits(&b));
    assert!(!a.same_bits(&c));
    assert!(!a.same_bits(&vector(&[1.0, 2.0])));
    assert!(!vector(&[0.0]).same_bits(&vector(&[-0.0])));
    assert_eq!(a.to_hashkey(), vec![bits(1.0), bits(2.0), bits(3.0)]);
    assert_eq!(a.clone().0, a.0);
    assert!(VectorID(0).is_valid());
    assert!(!VectorID(INVALID).is_valid());
    assert_eq!(VectorID(17).index(), 17);
}

#[test]
fn records_are_copies() {
    let v = vector(&[1.0]);
    let text = Metadata::Text(String::from("hello"));
    let record = Record::new(&v, &text);
    assert_eq!(record.vector.0, v.0);
    assert!(matches!(&record.data, Metadata::Text(s) if s == "hello"));
    let copy = record.clone();
    assert_eq!(copy.vector.0, v.0);
    assert!(matches!(&copy.data, Metadata::Text(s) if s == "hello"));
    assert!(matches!(Metadata::Null.clone(), Metadata::Null));
    assert!(matches!(Metadata::Integer(5).clone(), Metadata::Integer(5)));
}

#[test]
fn nested_data_is_copied_whole() {
    let inner = Metadata::Array(vec![Metadata::Integer(1), Metadata::Text(String::from("two")), Metadata::Null]);
    let data = Metadata::Object(vec![
        (String::from("list"), inner),
        (String::from("n"), Metadata::Integer(3)),
        (String::from("deep"), Metadata::Object(vec![(String::from("x"), Metadata::Array(vec![]))])),
    ]);
    let copy = data.clone();
    assert_eq!(format!("{:?}", copy), format!("{:?}", data));
    let record = Record::new(&vector(&[1.0, 2.0]), &data);
    let mut collection = Collection::new(&Config::default(), euclidean);
    collection.insert(&record).unwrap();
    let stored = collection.get(&VectorID(0)).unwrap();
    assert_eq!(format!("{:?}", stored.data), format!("{:?}", data));
    let found = collection.search(&vector(&[1.0, 2.0]), 1).unwrap();
    assert_eq!(format!("{:?}", found[0].data), format!("{:?}", data));
    match &found[0].data {
        Metadata::Object(entries) => {
            assert_eq!(entries.len(), 3);
            assert_eq!(entries[1].0, "n");
            assert!(matches!(entries[1].1, Metadata::Integer(3)));
        }
        _ => panic!("the data is no object"),
    }
}

#[test]
fn deduplicate_keeps_first_occurrences() {
    let records: Vec<Record> = [1.0f32, 2.0, 1.0, 3.0, 2.0, 1.0, 4.0]
        .iter()
        .map(|x| Record::new(&vector(&[*x, 0.5]), &Metadata::Null))
        .collect();
    assert_eq!(deduplicate(&records), vec![0, 1, 3, 6]);
    assert_eq!(deduplicate(&records[..2]), vec![0, 1]);
    assert_eq!(deduplicate(&[]), Vec::<usize>::new());
    let same: Vec<Record> = (0..5).map(|_| Record::new(&vector(&[9.0]), &Metadata::Null)).collect();
    assert_eq!(deduplicate(&same), vec![0]);
}

#[test]
fn node_insert_and_remove() {
    let mut node: UpperNode = Node::new();
    assert_eq!(node.degree(), 0);
    assert!(!node.contains(VectorID(1)));
    node.push(VectorID(1));
    node.push(VectorID(2));
    node.insert(0, VectorID(3));
    node.insert(2, VectorID(4));
    assert_eq!(neighbors(&node), vec![3, 1, 4, 2]);
    assert!(node.contains(VectorID(4)));
    assert_eq!(node.remove(VectorID(1)), Some(1));
    assert_eq!(neighbors(&node), vec![3, 4, 2]);
    assert_eq!(node.remove(VectorID(1)), None);
    assert_eq!(node.remove(VectorID(2)), Some(2));
    assert_eq!(neighbors(&node), vec![3, 4]);
    assert_eq!(node.0[2], VectorID(INVALID));
    node.clear();
    assert_eq!(node.degree(), 0);
}

#[test]
fn full_node_drops_the_last() {
    let mut node: UpperNode = Node::new();
    for i in 0..32u32 {
        node.push(VectorID(i));
    }
    assert_eq!(node.degree(), 32);
    node.push(VectorID(99));
    assert!(!node.contains(VectorID(99)));
    node.insert(32, VectorID(99));
    assert!(!node.contains(VectorID(99)));
    node.insert(5, VectorID(99));
    assert_eq!(node.degree(), 32);
    assert_eq!(node.get(5), VectorID(99));
    assert_eq!(node.get(6), VectorID(5));
    assert_eq!(node.get(31), VectorID(30));
    assert!(!node.contains(VectorID(31)));
    assert_eq!(node.remove(VectorID(0)), Some(0));
    assert_eq!(node.degree(), 31);
    assert_eq!(node.get(30), VectorID(30));
}

#[test]
fn upper_node_takes_the_first_neighbors() {
    let mut base: BaseNode = Node::new();
    for i in 0..40u32 {
        base.push(VectorID(100 + i));
    }
    let upper = UpperNode::from(&base);
    assert_eq!(upper.degree(), 32);
    assert_eq!(neighbors(&upper), (100..132).collect::<Vec<u32>>());
    let mut small: BaseNode = Node::new();
    small.push(VectorID(7));
    assert_eq!(neighbors(&UpperNode::from(&small)), vec![7]);
}

#[test]
fn purge_and_extend_a_layer() {
    let mut layer: Vec<UpperNode> = Vec::new();
    extend(&mut layer, 4);
    assert_eq!(layer.len(), 4);
    extend(&mut layer, 2);
    assert_eq!(layer.len(), 4);
    for (v, list) in [(0usize, vec![1u32, 2, 3]), (1, vec![2, 0]), (2, vec![0, 1, 3]), (3, vec![2])] {
        for n in list {
            layer[v].push(VectorID(n));
        }
    }
    let slots = ids(&[0, 1, 2, 3]);
    assert!(check_layer(&layer, &slots));
    purge(&mut layer, VectorID(2));
    assert_eq!(neighbors(&layer[0]), vec![1, 3]);
    assert_eq!(neighbors(&layer[1]), vec![0]);
    assert_eq!(neighbors(&layer[2]), Vec::<u32>::new());
    assert_eq!(neighbors(&layer[3]), Vec::<u32>::new());
    assert!(check_layer(&layer, &slots));
    assert!(check_layer(&layer, &ids(&[0, 1, INVALID, 3])));
}

#[test]
fn checks_find_what_is_out_of_order() {
    let slots = ids(&[0, 1, INVALID, 3]);
    let mut node: UpperNode = Node::new();
    assert!(check_node(&node, 0, &slots));
    assert!(check_node(&node, 2, &slots));
    node.push(VectorID(1));
    node.push(VectorID(3));
    assert!(check_node(&node, 0, &slots));
    // a node of a dead record with neighbours
    assert!(!check_node(&node, 2, &slots));
    // itself as a neighbour
    assert!(!check_node(&node, 1, &slots));
    // a dead neighbour
    let mut ghost: UpperNode = Node::new();
    ghost.push(VectorID(2));
    assert!(!check_node(&ghost, 0, &slots));
    // a neighbour that is no slot
    let mut far: UpperNode = Node::new();
    far.push(VectorID(4));
    assert!(!check_node(&far, 0, &slots));
    // a neighbour twice
    let mut twice = node;
    twice.0[2] = VectorID(1);
    assert!(!check_node(&twice, 0, &slots));
    // a gap in the list
    let mut gap = node;
    gap.0[3] = VectorID(3);
    assert!(!check_node(&gap, 0, &slots));
    // a layer of the wrong length
    let layer: Vec<UpperNode> = vec![Node::new(); 3];
    assert!(!check_layer(&layer, &slots));
}

#[test]
fn ordered_lists() {
    let candidate = |rank: u32, id: u32| Candidate { distance: rank, rank, vector_id: VectorID(id) };
    let mut list: Vec<Candidate> = Vec::new();
    assert_eq!(position(&list, &candidate(5, 0)), 0);
    for (rank, id) in [(5, 0), (3, 1), (9, 2), (5, 3), (1, 4), (5, 2)] {
        insert_ordered(&mut list, candidate(rank, id));
    }
    let order: Vec<(u32, u32)> = list.iter().map(|c| (c.rank, c.vector_id.0)).collect();
    assert_eq!(order, vec![(1, 4), (3, 1), (5, 0), (5, 2), (5, 3), (9, 2)]);
    assert_eq!(position(&list, &candidate(5, 1)), 3);
    assert_eq!(position(&list, &candidate(0, 0)), 0);
    assert_eq!(position(&list, &candidate(10, 0)), 6);
}

#[test]
fn search_one_layer() {
    // five points on a line, each linked to its neighbours on the line
    let mut vectors: HashMap<u32, Vector> = HashMap::new();
    for i in 0..5u32 {
        vectors.insert(i, vector(&[i as f32]));
    }
    let mut layer: Vec<UpperNode> = vec![Node::new(); 5];
    for i in 0..5usize {
        if i > 0 {
            layer[i].push(VectorID(i as u32 - 1));
        }
        if i < 4 {
            layer[i].push(VectorID(i as u32 + 1));
        }
    }
    let query = vector(&[3.2]);
    let mut search = Search::new(5, 2);
    search.push(VectorID(0), &query, &vectors, &euclidean, Distance::Euclidean);
    assert_eq!(search.nearest.len(), 1);
    search.push(VectorID(0), &query, &vectors, &euclidean, Distance::Euclidean);
    assert_eq!(search.nearest.len(), 1);
    search.search(&layer, &query, &vectors, &euclidean, Distance::Euclidean, 32);
    let found: Vec<u32> = search.nearest.iter().map(|c| c.vector_id.0).collect();
    assert_eq!(found, vec![3, 4]);
    assert!((f32::from_bits(search.nearest[0].distance) - 0.2).abs() < 1e-6);
    assert!(search.candidates.is_empty() || search.candidates[0].rank > search.nearest[1].rank);
    search.cull(&euclidean, Distance::Euclidean, &query, &vectors);
    assert_eq!(search.nearest.len(), 1);
    assert_eq!(search.nearest[0].vector_id, VectorID(3));
    assert_eq!(search.candidates.len(), 1);
    assert!(search.visited.iter().all(|v| *v));
}

#[test]
fn search_with_a_cap_on_links() {
    let mut vectors: HashMap<u32, Vector> = HashMap::new();
    for i in 0..4u32 {
        vectors.insert(i, vector(&[i as f32]));
    }
    let mut layer: Vec<UpperNode> = vec![Node::new(); 4];
    for n in [1u32, 2, 3] {
        layer[0].push(VectorID(n));
    }
    let query = vector(&[3.0]);
    let mut search = Search::new(4, 10);
    search.push(VectorID(0), &query, &vectors, &euclidean, Distance::Euclidean);
    search.search(&layer, &query, &vectors, &euclidean, Distance::Euclidean, 2);
    let found: Vec<u32> = search.nearest.iter().map(|c| c.vector_id.0).collect();
    assert_eq!(found, vec![2, 1, 0]);
}

#[test]
fn snapshot_round_trip() {
    let records = Record::many_random(8, 150);
    let mut collection = Collection::build(&Config::default(), &records, euclidean).ok().unwrap();
    collection.delete(&VectorID(3)).unwrap();
    collection.insert(&records[3]).unwrap();
    collection.set_relevancy(bits(1.25));
    let first = collection.snapshot();
    assert!(first.is_valid());
    assert_eq!(first.slots.len(), 151);
    assert_eq!(first.upper_layers.len(), 1);
    assert!(first.records[3].is_none());
    let text = format!("{:?}", first);
    let restored = Collection::restore(first, euclidean).unwrap();
    assert_eq!(restored.len(), 150);
    assert_eq!(restored.dimension(), 8);
    assert_eq!(restored.relevancy(), bits(1.25));
    let second = restored.snapshot();
    assert_eq!(format!("{:?}", second), text);
    for record in records.iter().take(40) {
        let left = collection.search(&record.vector, 10).unwrap();
        let right = restored.search(&record.vector, 10).unwrap();
        assert_eq!(format!("{:?}", left), format!("{:?}", right));
    }
}

#[test]
fn restore_refuses_what_is_out_of_order() {
    let records = Record::many_random(4, 10);
    let collection = Collection::build(&Config::default(), &records, euclidean).ok().unwrap();
    assert!(Collection::restore(collection.snapshot(), euclidean).is_some());
    let mut s = collection.snapshot();
    s.slots[2] = VectorID(INVALID);
    assert!(!s.is_valid());
    assert!(Collection::restore(s, euclidean).is_none());
    let mut s = collection.snapshot();
    s.slots[2] = VectorID(5);
    assert!(Collection::restore(s, euclidean).is_none());
    let mut s = collection.snapshot();
    s.records[4] = None;
    assert!(Collection::restore(s, euclidean).is_none());
    let mut s = collection.snapshot();
    s.dimension = 5;
    assert!(Collection::restore(s, euclidean).is_none());
    let mut s = collection.snapshot();
    s.base_layer.pop();
    assert!(Collection::restore(s, euclidean).is_none());
    let mut s = collection.snapshot();
    s.base_layer[1].0[0] = VectorID(1);
    assert!(Collection::restore(s, euclidean).is_none());
    let mut s = collection.snapshot();
    s.upper_layers.push(Vec::new());
    assert!(Collection::restore(s, euclidean).is_none());
    let mut s = collection.snapshot();
    s.records.push(None);
    assert!(Collection::restore(s, euclidean).is_none());
}

#[test]
fn invariants_hold_after_every_operation() {
    let records = Record::many_random(6, 400);
    let mut collection = Collection::build(&Config::default(), &records[..200], euclidean).ok().unwrap();
    assert!(collection.snapshot().is_valid());
    for (i, record) in records[200..].iter().enumerate() {
        collection.insert(record).unwrap();
        if i % 3 == 0 {
            collection.delete(&VectorID(i as u32)).unwrap();
        }
        if i % 5 == 1 && i % 3 != 0 {
            collection.update(&VectorID(i as u32), &records[i]).unwrap();
        }
        if i % 40 == 0 {
            assert!(collection.snapshot().is_valid());
        }
    }
    let snapshot = collection.snapshot();
    assert!(snapshot.is_valid());
    // no valid neighbour entry refers to a tombstoned id, no node lists itself
    for layer in std::iter::once(&snapshot.base_layer) {
        for (v, node) in layer.iter().enumerate() {
            for n in neighbors(node) {
                assert!(snapshot.slots[n as usize].is_valid());
                assert!(n as usize != v);
            }
        }
    }
    let live = snapshot.slots.iter().filter(|s| s.is_valid()).count();
    assert_eq!(live, collection.len());
    assert_eq!(collection.list().unwrap().len(), live);
    for (i, slot) in snapshot.slots.iter().enumerate() {
        assert!(*slot == VectorID(INVALID) || slot.0 as usize == i);
    }
    assert_eq!(snapshot.base_layer.len(), snapshot.slots.len());
    for layer in snapshot.upper_layers.iter() {
        assert_eq!(layer.len(), snapshot.slots.len());
    }
}
