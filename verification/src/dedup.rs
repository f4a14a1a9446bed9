//! Dropping records that repeat an earlier vector.
//!
//! The vectors met so far are kept in a `dashmap::DashSet`, keyed by their
//! components. Verus does not look into that set: what this module says of
//! its methods is taken on trust from the crate's source.

use vstd::prelude::*;
use dashmap::DashSet;
use crate::collection::{record_views, Record};
use crate::model::{first_occurrence, unique, unique_prefix};

verus! {

#[verifier::external_type_specification]
#[verifier::external_body]
#[verifier::reject_recursive_types(K)]
#[verifier::reject_recursive_types(S)]
pub struct ExDashSet<K, S>(DashSet<K, S>);

/// The keys that a set holds.
pub uninterp spec fn keys(set: DashSet<Vec<u32>>) -> Set<Seq<u32>>;

/// `DashSet::new`: a set that holds no key.
#[verifier::external_body]
fn seen_new() -> (set: DashSet<Vec<u32>>)
    ensures
        keys(set) == Set::<Seq<u32>>::empty(),
{
    DashSet::new()
}

/// `DashSet::contains`: whether the set holds a key with these components.
#[verifier::external_body]
fn seen_contains(set: &DashSet<Vec<u32>>, key: &Vec<u32>) -> (r: bool)
    ensures
        r == keys(*set).contains(key@),
{
    set.contains(key)
}

/// `DashSet::insert`: the set holds the key afterwards, and what it held
/// before. The answer is whether the key is new to the set.
#[verifier::external_body]
fn seen_insert(set: &mut DashSet<Vec<u32>>, key: Vec<u32>) -> (r: bool)
    ensures
        keys(*final(set)) == keys(*old(set)).insert(key@),
        r == !keys(*old(set)).contains(key@),
{
    set.insert(key)
}

/// The positions of the records whose vector occurs at no earlier position,
/// in rising order. Two vectors are the same if their components agree bit
/// for bit.
pub fn deduplicate(records: &[Record]) -> (kept: Vec<usize>)
    ensures
        kept@.len() == unique(record_views(records@)).len(),
        forall|i: int|
            0 <= i < kept@.len() ==> (#[trigger] kept@[i]) < records@.len() && records@[kept@[i] as int]@
                == unique(record_views(records@))[i],
        forall|i: int, j: int| 0 <= i < j < kept@.len() ==> kept@[i] < kept@[j],
{
    let ghost views = record_views(records@);
    let mut seen: DashSet<Vec<u32>> = seen_new();
    let mut kept: Vec<usize> = Vec::new();
    let mut i: usize = 0;
    while i < records.len()
        invariant
            i <= records@.len(),
            views == record_views(records@),
            forall|v: Seq<u32>|
                keys(seen).contains(v) <==> exists|j: int| 0 <= j < i && (#[trigger] views[j]).vector == v,
            kept@.len() == unique_prefix(views, i as nat).len(),
            forall|k: int|
                0 <= k < kept@.len() ==> (#[trigger] kept@[k]) < i && records@[kept@[k] as int]@
                    == unique_prefix(views, i as nat)[k],
            forall|a: int, b: int| 0 <= a < b < kept@.len() ==> kept@[a] < kept@[b],
        decreases records@.len() - i,
    {
        let key: Vec<u32> = records[i].vector.to_hashkey();
        let ghost held = keys(seen);
        assert(views[i as int] == records@[i as int]@);
        proof {
            if held.contains(key@) {
                let j = choose|j: int| 0 <= j < i && (#[trigger] views[j]).vector == key@;
                assert(!first_occurrence(views, i as int));
            } else {
                assert forall|j: int| 0 <= j < i implies (#[trigger] views[j]).vector != views[i as int].vector by {
                    if views[j].vector == key@ {
                        assert(held.contains(key@));
                    }
                }
                assert(first_occurrence(views, i as int));
            }
        }
        if !seen_contains(&seen, &key) {
            seen_insert(&mut seen, key);
            kept.push(i);
        }
        proof {
            assert forall|v: Seq<u32>| keys(seen).contains(v) <==> exists|j: int|
                0 <= j < i + 1 && (#[trigger] views[j]).vector == v by {
                if keys(seen).contains(v) {
                    if held.contains(v) {
                        let j = choose|j: int| 0 <= j < i && (#[trigger] views[j]).vector == v;
                        assert(0 <= j < i + 1 && views[j].vector == v);
                    } else {
                        assert(views[i as int].vector == v);
                    }
                }
                if exists|j: int| 0 <= j < i + 1 && (#[trigger] views[j]).vector == v {
                    let j = choose|j: int| 0 <= j < i + 1 && (#[trigger] views[j]).vector == v;
                    if j < i {
                        assert(held.contains(v));
                    }
                }
            }
        }
        i += 1;
    }
    kept
}

} // verus!
