use sahomedb::collection::{Collection, Config, Record};
use sahomedb::distance::Distance;
use sahomedb::err::Error;
use sahomedb::metadata::Metadata;
use sahomedb::vector::{Vector, VectorID};

fn floats(v: &Vector) -> Vec<f32> {
    v.0.iter().map(|b| f32::from_bits(*b)).collect()
}

fn vector(values: &[f32]) -> Vector {
    Vector(values.iter().map(|x| x.to_bits()).collect())
}

fn kernel(kind: Distance, a: &Vector, b: &Vector) -> u32 {
    assert_eq!(a.0.len(), b.0.len());
    let x = floats(a);
    let y = floats(b);
    let dot: f32 = x.iter().zip(y.iter()).map(|(p, q)| p * q).sum();
    let value = match kind {
        Distance::Dot => dot,
        Distance::Euclidean => {
            x.iter().zip(y.iter()).map(|(p, q)| (p - q).powi(2)).sum::<f32>().sqrt()
        }
        Distance::Cosine => {
            let ma = x.iter().map(|p| p.powi(2)).sum::<f32>().sqrt();
            let mb = y.iter().map(|q| q.powi(2)).sum::<f32>().sqrt();
            dot / (ma * mb)
        }
    };
    value.to_bits()
}

struct Lcg(u64);

impl Lcg {
    fn next(&mut self) -> f32 {
        self.0 = self.0.wrapping_mul(6364136223846793005).wrapping_add(1442695040888963407);
        ((self.0 >> 40) as f32) / ((1u64 << 24) as f32)
    }

    fn record(&mut self, dimension: usize, data: usize) -> Record {
        let values: Vec<f32> = (0..dimension).map(|_| self.next()).collect();
        Record::new(&vector(&values), &Metadata::Integer(data))
    }

    fn records(&mut self, dimension: usize, len: usize) -> Vec<Record> {
        (0..len).map(|i| self.record(dimension, i)).collect()
    }
}

fn config(distance: &str) -> Config {
    Config::new(40, 15, 0.3f32.to_bits(), distance).unwrap()
}

fn integer(data: &Metadata) -> usize {
    match data {
        Metadata::Integer(n) => *n,
        _ => panic!("the data is no integer"),
    }
}

#[test]
fn empty_search() {
    let collection = Collection::new(&Config::default(), kernel);
    let query = vector(&[0.0; 128]);
    let found = collection.search(&query, 5).unwrap();
    assert!(found.is_empty());
}

#[test]
fn new_collection_is_empty() {
    let collection = Collection::new(&Config::default(), kernel);
    assert_eq!(collection.len(), 0);
    assert!(collection.is_empty());
    assert_eq!(collection.dimension(), 0);
    assert_eq!(f32::from_bits(collection.relevancy()), -1.0);
    assert!(collection.list().unwrap().is_empty());
}

#[test]
fn default_config() {
    let config = Config::default();
    assert_eq!(config.ef_construction, 40);
    assert_eq!(config.ef_search, 15);
    assert_eq!(f32::from_bits(config.ml), 0.3);
    assert_eq!(config.distance, Distance::Euclidean);
}

#[test]
fn config_rejects_unknown_distance() {
    assert_eq!(Config::new(40, 15, 0.3f32.to_bits(), "l2").err(), Some(Error::UnsupportedDistance));
    let mut config = Config::default();
    assert_eq!(config.set_distance("manhattan"), Err(Error::UnsupportedDistance));
    assert_eq!(config.distance, Distance::Euclidean);
    assert_eq!(config.set_distance("cosine"), Ok(()));
    assert_eq!(config.distance, Distance::Cosine);
}

#[test]
fn dimension_lock() {
    let mut collection = Collection::new(&Config::default(), kernel);
    let record = Record::new(&vector(&[1.0, 2.0, 3.0]), &Metadata::Integer(0));
    collection.insert(&record).unwrap();
    assert_eq!(collection.dimension(), 3);
    let found = collection.search(&vector(&[0.0, 0.0]), 1);
    assert_eq!(found.err(), Some(Error::InvalidDimension { found: 2, expected: 3 }));
    let exact = collection.true_search(&vector(&[0.0, 0.0]), 1);
    assert_eq!(exact.err(), Some(Error::InvalidDimension { found: 2, expected: 3 }));
}

#[test]
fn wrong_dimension_leaves_the_collection_unchanged() {
    let mut collection = Collection::new(&Config::default(), kernel);
    collection.insert(&Record::new(&vector(&[1.0, 2.0, 3.0]), &Metadata::Integer(0))).unwrap();
    let short = Record::new(&vector(&[1.0, 2.0]), &Metadata::Integer(1));
    assert_eq!(collection.insert(&short), Err(Error::InvalidDimension { found: 2, expected: 3 }));
    assert_eq!(
        collection.update(&VectorID(0), &short),
        Err(Error::InvalidDimension { found: 2, expected: 3 })
    );
    let many = vec![
        Record::new(&vector(&[1.0, 2.0, 4.0]), &Metadata::Integer(1)),
        Record::new(&vector(&[1.0, 2.0, 3.0, 4.0]), &Metadata::Integer(2)),
    ];
    assert_eq!(
        collection.insert_many(&many).err(),
        Some(Error::InvalidDimension { found: 4, expected: 3 })
    );
    assert_eq!(collection.len(), 1);
    assert_eq!(collection.dimension(), 3);
    assert_eq!(collection.list().unwrap().len(), 1);
    assert_eq!(floats(&collection.get(&VectorID(0)).unwrap().vector), vec![1.0, 2.0, 3.0]);
}

#[test]
fn insert_assigns_ids_in_order() {
    let mut rng = Lcg(7);
    let mut collection = Collection::new(&Config::default(), kernel);
    for i in 0..20usize {
        let record = rng.record(8, i);
        collection.insert(&record).unwrap();
        assert_eq!(collection.len(), i + 1);
        assert!(collection.contains(&VectorID(i as u32)));
        assert!(!collection.contains(&VectorID(i as u32 + 1)));
        let stored = collection.get(&VectorID(i as u32)).unwrap();
        assert_eq!(stored.vector.0, record.vector.0);
        assert_eq!(integer(&stored.data), i);
    }
    let ids = collection.insert_many(&rng.records(8, 5)).unwrap();
    assert_eq!(ids, vec![VectorID(20), VectorID(21), VectorID(22), VectorID(23), VectorID(24)]);
    assert_eq!(collection.len(), 25);
}

#[test]
fn insert_many_of_nothing() {
    let mut collection = Collection::new(&Config::default(), kernel);
    assert_eq!(collection.insert_many(&[]).unwrap(), vec![]);
    assert_eq!(collection.len(), 0);
    assert_eq!(collection.dimension(), 0);
}

#[test]
fn set_dimension_only_when_empty() {
    let mut collection = Collection::new(&Config::default(), kernel);
    assert_eq!(collection.set_dimension(4), Ok(()));
    assert_eq!(collection.dimension(), 4);
    let short = Record::new(&vector(&[1.0, 2.0]), &Metadata::Null);
    assert_eq!(collection.insert(&short), Err(Error::InvalidDimension { found: 2, expected: 4 }));
    collection.insert(&Record::new(&vector(&[1.0, 2.0, 3.0, 4.0]), &Metadata::Null)).unwrap();
    assert_eq!(collection.set_dimension(5), Err(Error::CollectionNotEmpty));
    assert_eq!(collection.dimension(), 4);
}

#[test]
fn round_trip_euclidean() {
    let mut rng = Lcg(11);
    let records = rng.records(16, 100);
    let collection = Collection::build(&config("euclidean"), &records, kernel).ok().unwrap();
    assert_eq!(collection.len(), 100);
    for (id, record) in records.iter().enumerate() {
        let found = collection.search(&record.vector, 1).unwrap();
        assert_eq!(found.len(), 1);
        assert_eq!(found[0].id, id as u32);
        assert_eq!(f32::from_bits(found[0].distance), 0.0);
        assert_eq!(integer(&found[0].data), id);
    }
}

#[test]
fn round_trip_cosine() {
    let mut rng = Lcg(13);
    let records = rng.records(16, 100);
    let collection = Collection::build(&config("cosine"), &records, kernel).ok().unwrap();
    for (id, record) in records.iter().enumerate() {
        let found = collection.search(&record.vector, 1).unwrap();
        assert_eq!(found[0].id, id as u32);
        assert!((f32::from_bits(found[0].distance) - 1.0).abs() < 1e-5);
    }
}

#[test]
fn delete_hides_id() {
    let mut rng = Lcg(17);
    let records = rng.records(8, 60);
    let mut collection = Collection::build(&config("euclidean"), &records, kernel).ok().unwrap();
    assert_eq!(collection.delete(&VectorID(5)), Ok(()));
    assert_eq!(collection.len(), 59);
    assert_eq!(collection.get(&VectorID(5)).err(), Some(Error::RecordNotFound));
    assert!(!collection.contains(&VectorID(5)));
    assert!(!collection.list().unwrap().contains_key(&5));
    assert_eq!(collection.list().unwrap().len(), 59);
    assert_eq!(collection.delete(&VectorID(5)), Err(Error::RecordNotFound));
    assert_eq!(collection.delete(&VectorID(1000)), Err(Error::RecordNotFound));
    for record in records.iter() {
        for k in [1usize, 5, 60] {
            let found = collection.search(&record.vector, k).unwrap();
            assert!(found.iter().all(|r| r.id != 5));
            let exact = collection.true_search(&record.vector, k).unwrap();
            assert!(exact.iter().all(|r| r.id != 5));
        }
    }
    // the identifier is not handed out again
    collection.insert(&rng.record(8, 99)).unwrap();
    assert!(collection.contains(&VectorID(60)));
    assert!(!collection.contains(&VectorID(5)));
}

#[test]
fn delete_everything_then_search() {
    let mut rng = Lcg(19);
    let records = rng.records(4, 10);
    let mut collection = Collection::new(&Config::default(), kernel);
    collection.insert_many(&records).unwrap();
    for id in 0..10u32 {
        collection.delete(&VectorID(id)).unwrap();
    }
    assert!(collection.is_empty());
    assert!(collection.search(&records[0].vector, 3).unwrap().is_empty());
    assert!(collection.true_search(&records[0].vector, 3).unwrap().is_empty());
    collection.insert(&records[3]).unwrap();
    let found = collection.search(&records[3].vector, 3).unwrap();
    assert_eq!(found.len(), 1);
    assert_eq!(found[0].id, 10);
}

#[test]
fn update_preserves_id() {
    let mut rng = Lcg(23);
    let records = rng.records(16, 50);
    let mut collection = Collection::build(&config("euclidean"), &records, kernel).ok().unwrap();
    let replacement = rng.record(16, 777);
    assert_eq!(collection.update(&VectorID(10), &replacement), Ok(()));
    assert_eq!(collection.len(), 50);
    let stored = collection.get(&VectorID(10)).unwrap();
    assert_eq!(stored.vector.0, replacement.vector.0);
    assert_eq!(integer(&stored.data), 777);
    let found = collection.search(&replacement.vector, 1).unwrap();
    assert_eq!(found[0].id, 10);
    assert_eq!(integer(&found[0].data), 777);
    assert_eq!(collection.update(&VectorID(50), &replacement), Err(Error::RecordNotFound));
}

#[test]
fn update_on_empty_collection_finds_no_record() {
    let mut collection = Collection::new(&Config::default(), kernel);
    let record = Record::new(&vector(&[1.0, 2.0]), &Metadata::Null);
    assert_eq!(collection.update(&VectorID(0), &record), Err(Error::RecordNotFound));
    assert_eq!(collection.dimension(), 0);
}

#[test]
fn build_rejects_inconsistent_dimensions() {
    let records = vec![
        Record::new(&vector(&[1.0, 2.0]), &Metadata::Null),
        Record::new(&vector(&[1.0, 2.0, 3.0]), &Metadata::Null),
    ];
    let built = Collection::build(&Config::default(), &records, kernel);
    assert_eq!(built.err(), Some(Error::InconsistentDimension { expected: 2 }));
}

#[test]
fn build_of_nothing_is_empty() {
    let collection = Collection::build(&Config::default(), &[], kernel).ok().unwrap();
    assert!(collection.is_empty());
    assert_eq!(collection.dimension(), 0);
}

#[test]
fn build_drops_repeated_vectors() {
    let a = vector(&[1.0, 0.0]);
    let b = vector(&[0.0, 1.0]);
    let records = vec![
        Record::new(&a, &Metadata::Integer(0)),
        Record::new(&b, &Metadata::Integer(1)),
        Record::new(&a, &Metadata::Integer(2)),
        Record::new(&vector(&[0.5, 0.5]), &Metadata::Integer(3)),
        Record::new(&b, &Metadata::Integer(4)),
    ];
    let collection = Collection::build(&Config::default(), &records, kernel).ok().unwrap();
    assert_eq!(collection.len(), 3);
    assert_eq!(integer(&collection.get(&VectorID(0)).unwrap().data), 0);
    assert_eq!(integer(&collection.get(&VectorID(1)).unwrap().data), 1);
    assert_eq!(integer(&collection.get(&VectorID(2)).unwrap().data), 3);
    // bit for bit: the two zeros are different vectors
    let zeros = vec![
        Record::new(&vector(&[0.0]), &Metadata::Null),
        Record::new(&vector(&[-0.0]), &Metadata::Null),
    ];
    let collection = Collection::build(&Config::default(), &zeros, kernel).ok().unwrap();
    assert_eq!(collection.len(), 2);
    // inserting does not drop anything
    let mut inserted = Collection::new(&Config::default(), kernel);
    inserted.insert_many(&records).unwrap();
    assert_eq!(inserted.len(), 5);
}

#[test]
fn build_and_insert_many_hold_the_same() {
    let mut rng = Lcg(29);
    let records = rng.records(8, 200);
    let built = Collection::build(&Config::default(), &records, kernel).ok().unwrap();
    let mut inserted = Collection::new(&Config::default(), kernel);
    let ids = inserted.insert_many(&records).unwrap();
    assert_eq!(ids.len(), 200);
    assert_eq!(built.len(), inserted.len());
    assert_eq!(built.dimension(), inserted.dimension());
    let left = built.list().unwrap();
    let right = inserted.list().unwrap();
    assert_eq!(left.len(), right.len());
    for (id, record) in left.iter() {
        assert_eq!(record.vector.0, right[id].vector.0);
        assert_eq!(integer(&record.data), integer(&right[id].data));
        assert_eq!(record.vector.0, records[*id as usize].vector.0);
    }
}

fn recall(collection: &Collection<fn(Distance, &Vector, &Vector) -> u32>, queries: &[Record]) -> f32 {
    let mut hits = 0;
    for query in queries {
        let found = collection.search(&query.vector, 1).unwrap();
        let exact = collection.true_search(&query.vector, 1).unwrap();
        if found[0].id == exact[0].id || found[0].distance == exact[0].distance {
            hits += 1;
        }
    }
    hits as f32 / queries.len() as f32
}

#[test]
fn built_collection_recalls_the_nearest() {
    let mut rng = Lcg(31);
    let records = rng.records(32, 1000);
    let queries = rng.records(32, 1000);
    let built = Collection::build(
        &Config::default(),
        &records,
        kernel as fn(Distance, &Vector, &Vector) -> u32,
    ).ok().unwrap();
    assert!(recall(&built, &queries) >= 0.95);
}

#[test]
fn inserted_collection_recalls_the_nearest() {
    let mut rng = Lcg(37);
    let records = rng.records(32, 1000);
    let queries = rng.records(32, 1000);
    let mut inserted = Collection::new(
        &Config::default(),
        kernel as fn(Distance, &Vector, &Vector) -> u32,
    );
    inserted.insert_many(&records).unwrap();
    assert!(recall(&inserted, &queries) >= 0.95);
}

#[test]
fn search_results_are_ordered() {
    let mut rng = Lcg(41);
    let records = rng.records(8, 300);
    let queries = rng.records(8, 20);
    let near = Collection::build(&config("euclidean"), &records, kernel).ok().unwrap();
    let alike = Collection::build(&config("dot"), &records, kernel).ok().unwrap();
    for query in queries.iter() {
        for found in [near.search(&query.vector, 10).unwrap(), near.true_search(&query.vector, 10).unwrap()] {
            assert_eq!(found.len(), 10);
            for pair in found.windows(2) {
                assert!(f32::from_bits(pair[0].distance) <= f32::from_bits(pair[1].distance));
                assert!(pair[0].id != pair[1].id);
            }
        }
        for found in [alike.search(&query.vector, 10).unwrap(), alike.true_search(&query.vector, 10).unwrap()] {
            assert_eq!(found.len(), 10);
            for pair in found.windows(2) {
                assert!(f32::from_bits(pair[0].distance) >= f32::from_bits(pair[1].distance));
            }
        }
    }
}

#[test]
fn true_search_is_exact() {
    let mut rng = Lcg(43);
    let records = rng.records(4, 40);
    let mut collection = Collection::new(&config("euclidean"), kernel);
    collection.insert_many(&records).unwrap();
    collection.delete(&VectorID(3)).unwrap();
    let query = rng.record(4, 0).vector;
    let mut expected: Vec<(f32, u32)> = (0..40u32)
        .filter(|id| *id != 3)
        .map(|id| (f32::from_bits(kernel(Distance::Euclidean, &query, &records[id as usize].vector)), id))
        .collect();
    expected.sort_by(|a, b| a.partial_cmp(b).unwrap());
    let found = collection.true_search(&query, 100).unwrap();
    assert_eq!(found.len(), 39);
    for (result, (distance, id)) in found.iter().zip(expected.iter()) {
        assert_eq!(result.id, *id);
        assert_eq!(f32::from_bits(result.distance), *distance);
        assert_eq!(integer(&result.data), *id as usize);
    }
    let few = collection.true_search(&query, 7).unwrap();
    assert_eq!(few.len(), 7);
    assert_eq!(few[6].id, expected[6].1);
    assert!(collection.true_search(&query, 0).unwrap().is_empty());
}

#[test]
fn equal_distances_come_by_id() {
    let records = vec![
        Record::new(&vector(&[0.0, 1.0]), &Metadata::Integer(0)),
        Record::new(&vector(&[1.0, 0.0]), &Metadata::Integer(1)),
        Record::new(&vector(&[0.0, -1.0]), &Metadata::Integer(2)),
        Record::new(&vector(&[-1.0, 0.0]), &Metadata::Integer(3)),
    ];
    let mut collection = Collection::new(&config("euclidean"), kernel);
    for record in records.iter().rev() {
        collection.insert(record).unwrap();
    }
    let query = vector(&[0.0, 0.0]);
    let ids: Vec<u32> = collection.true_search(&query, 4).unwrap().iter().map(|r| r.id).collect();
    assert_eq!(ids, vec![0, 1, 2, 3]);
    let ids: Vec<u32> = collection.search(&query, 4).unwrap().iter().map(|r| r.id).collect();
    assert_eq!(ids, vec![0, 1, 2, 3]);
}

#[test]
fn relevancy_filters_before_truncation() {
    let records: Vec<Record> = (0..10)
        .map(|i| Record::new(&vector(&[i as f32]), &Metadata::Integer(i)))
        .collect();
    let mut collection = Collection::new(&config("euclidean"), kernel);
    collection.insert_many(&records).unwrap();
    let query = vector(&[0.0]);
    assert_eq!(collection.true_search(&query, 100).unwrap().len(), 10);
    collection.set_relevancy(3.5f32.to_bits());
    let ids: Vec<u32> = collection.true_search(&query, 100).unwrap().iter().map(|r| r.id).collect();
    assert_eq!(ids, vec![0, 1, 2, 3]);
    let ids: Vec<u32> = collection.search(&query, 100).unwrap().iter().map(|r| r.id).collect();
    assert_eq!(ids, vec![0, 1, 2, 3]);
    let ids: Vec<u32> = collection.true_search(&query, 2).unwrap().iter().map(|r| r.id).collect();
    assert_eq!(ids, vec![0, 1]);
    collection.set_relevancy(3.0f32.to_bits());
    assert_eq!(collection.true_search(&query, 100).unwrap().len(), 4);
    collection.set_relevancy(0.0f32.to_bits());
    assert_eq!(collection.true_search(&query, 100).unwrap().len(), 1);
    collection.set_relevancy((-1.0f32).to_bits());
    assert_eq!(collection.true_search(&query, 100).unwrap().len(), 10);
}

#[test]
fn relevancy_for_similarity_keeps_the_higher() {
    let records: Vec<Record> = (0..10)
        .map(|i| Record::new(&vector(&[i as f32]), &Metadata::Integer(i)))
        .collect();
    let mut collection = Collection::new(&config("dot"), kernel);
    collection.insert_many(&records).unwrap();
    let query = vector(&[1.0]);
    collection.set_relevancy(6.5f32.to_bits());
    let ids: Vec<u32> = collection.true_search(&query, 100).unwrap().iter().map(|r| r.id).collect();
    assert_eq!(ids, vec![9, 8, 7]);
}

#[test]
fn raising_the_bar_never_adds_results() {
    let mut rng = Lcg(47);
    let records = rng.records(8, 200);
    let query = rng.record(8, 0).vector;
    let mut near = Collection::build(&config("euclidean"), &records, kernel).ok().unwrap();
    let mut last = usize::MAX;
    for threshold in [2.0f32, 1.5, 1.0, 0.8, 0.5, 0.2, 0.0] {
        near.set_relevancy(threshold.to_bits());
        let count = near.search(&query, 100).unwrap().len();
        assert!(count <= last);
        last = count;
    }
    let mut alike = Collection::build(&config("cosine"), &records, kernel).ok().unwrap();
    let mut last = usize::MAX;
    for threshold in [-0.5f32, 0.0, 0.5, 0.7, 0.9, 0.99, 1.5] {
        alike.set_relevancy(threshold.to_bits());
        let count = alike.search(&query, 100).unwrap().len();
        assert!(count <= last);
        last = count;
    }
    assert_eq!(last, 0);
}

#[test]
fn search_keeps_at_most_ef_search() {
    let mut rng = Lcg(53);
    let records = rng.records(8, 200);
    let mut collection = Collection::build(&config("euclidean"), &records, kernel).ok().unwrap();
    assert_eq!(collection.search(&records[0].vector, 100).unwrap().len(), 15);
    let mut wide = collection.config();
    wide.ef_search = 50;
    collection.set_config(wide);
    assert_eq!(collection.search(&records[0].vector, 100).unwrap().len(), 50);
    let mut none = collection.config();
    none.ef_search = 0;
    collection.set_config(none);
    assert!(collection.search(&records[0].vector, 100).unwrap().is_empty());
}

#[test]
fn many_inserts_deletes_and_updates() {
    let mut rng = Lcg(59);
    let records = rng.records(8, 300);
    let mut collection = Collection::build(&config("euclidean"), &records[..150], kernel).ok().unwrap();
    for record in records[150..].iter() {
        collection.insert(record).unwrap();
    }
    for id in (0..300u32).step_by(3) {
        collection.delete(&VectorID(id)).unwrap();
    }
    for id in (1..300u32).step_by(3) {
        let replacement = rng.record(8, 1000 + id as usize);
        collection.update(&VectorID(id), &replacement).unwrap();
    }
    assert_eq!(collection.len(), 200);
    let listed = collection.list().unwrap();
    assert_eq!(listed.len(), 200);
    for id in 0..300u32 {
        assert_eq!(collection.contains(&VectorID(id)), id % 3 != 0);
        assert_eq!(listed.contains_key(&id), id % 3 != 0);
    }
    let mut found_self = 0;
    for (id, record) in listed.iter() {
        let found = collection.search(&record.vector, 5).unwrap();
        assert!(found.iter().all(|r| r.id % 3 != 0));
        if found[0].id == *id {
            found_self += 1;
        }
    }
    assert!(found_self >= 190);
}

#[test]
fn random_records() {
    let records = Record::many_random(12, 30);
    assert_eq!(records.len(), 30);
    for record in records.iter() {
        assert_eq!(record.vector.len(), 12);
        for x in floats(&record.vector) {
            assert!(0.0 <= x && x < 1.0);
        }
        assert!(matches!(record.data, Metadata::Integer(_)));
    }
    assert!(records.iter().any(|r| r.vector.0 != records[0].vector.0));
    let collection = Collection::build(&Config::default(), &records, kernel).ok().unwrap();
    let found = collection.search(&records[7].vector, 1).unwrap();
    assert_eq!(found[0].id, 7);
    assert!(Record::many_random(3, 0).is_empty());
    assert!(Vector::random(0).is_empty());
}

#[test]
fn stricter_threshold_answers_with_a_beginning() {
    let mut rng = Lcg(71);
    let records = rng.records(8, 120);
    let query = rng.record(8, 0).vector;
    for (name, thresholds) in [
        ("euclidean", [0.3f32, 0.6, 0.9, 1.2, 5.0]),
        ("dot", [3.0f32, 2.5, 2.0, 1.0, -5.0]),
    ] {
        let mut collection = Collection::build(&config(name), &records, kernel).ok().unwrap();
        let mut stricter: Vec<u32> = Vec::new();
        for threshold in thresholds {
            collection.set_relevancy(threshold.to_bits());
            let ids: Vec<u32> = collection.true_search(&query, 50).unwrap().iter().map(|r| r.id).collect();
            assert!(ids.len() >= stricter.len());
            assert_eq!(&ids[..stricter.len()], &stricter[..]);
            let again: Vec<u32> = collection.true_search(&query, 50).unwrap().iter().map(|r| r.id).collect();
            assert_eq!(again, ids);
            stricter = ids;
        }
        assert_eq!(stricter.len(), 50);
    }
}
