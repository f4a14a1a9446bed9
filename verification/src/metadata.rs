//! The payload stored beside a vector.

use vstd::prelude::*;

verus! {

/// What a payload holds, as a mathematical value.
pub enum MetadataView {
    Null,
    Integer(usize),
    Text(Seq<char>),
    Array(Seq<MetadataView>),
    Object(Seq<(Seq<char>, MetadataView)>),
}

/// A payload. The collection stores and copies it and never looks inside.
#[derive(Debug)]
pub enum Metadata {
    /// Nothing.
    Null,
    /// A number.
    Integer(usize),
    /// A text.
    Text(String),
    /// Payloads in a row.
    Array(Vec<Metadata>),
    /// Payloads under their keys, in the order in which they were given.
    Object(Vec<(String, Metadata)>),
}

/// What a payload holds.
pub open spec fn payload(m: Metadata) -> MetadataView
    decreases m,
{
    match m {
        Metadata::Null => MetadataView::Null,
        Metadata::Integer(n) => MetadataView::Integer(n),
        Metadata::Text(s) => MetadataView::Text(s@),
        Metadata::Array(items) => MetadataView::Array(
            Seq::new(
                items@.len(),
                |i: int|
                    if 0 <= i < items@.len() {
                        payload(items@[i])
                    } else {
                        MetadataView::Null
                    },
            ),
        ),
        Metadata::Object(entries) => MetadataView::Object(
            Seq::new(
                entries@.len(),
                |i: int|
                    if 0 <= i < entries@.len() {
                        (entries@[i].0@, payload(entries@[i].1))
                    } else {
                        (Seq::empty(), MetadataView::Null)
                    },
            ),
        ),
    }
}

impl View for Metadata {
    type V = MetadataView;

    open spec fn view(&self) -> MetadataView {
        payload(*self)
    }
}

impl Clone for Metadata {
    /// A deep copy.
    fn clone(&self) -> (r: Self)
        ensures
            r@ == self@,
        decreases self,
    {
        match self {
            Metadata::Null => Metadata::Null,
            Metadata::Integer(n) => Metadata::Integer(*n),
            Metadata::Text(s) => Metadata::Text(s.clone()),
            Metadata::Array(items) => {
                let mut copies: Vec<Metadata> = Vec::new();
                let mut i: usize = 0;
                while i < items.len()
                    invariant
                        i <= items@.len(),
                        copies@.len() == i,
                        *self == Metadata::Array(*items),
                        forall|j: int| 0 <= j < i ==> (#[trigger] copies@[j])@ == items@[j]@,
                    decreases items@.len() - i,
                {
                    assert(decreases_to!(self => items@[i as int])) by {
                        assert(self->Array_0 == *items);
                        assert(decreases_to!(*self => self->Array_0));
                    }
                    copies.push(items[i].clone());
                    i += 1;
                }
                let r = Metadata::Array(copies);
                assert(r@ == self@) by {
                    reveal_with_fuel(payload, 2);
                    assert(r@->Array_0 =~= self@->Array_0);
                }
                r
            },
            Metadata::Object(entries) => {
                let mut copies: Vec<(String, Metadata)> = Vec::new();
                let mut i: usize = 0;
                while i < entries.len()
                    invariant
                        i <= entries@.len(),
                        copies@.len() == i,
                        *self == Metadata::Object(*entries),
                        forall|j: int|
                            0 <= j < i ==> (#[trigger] copies@[j]).0@ == entries@[j].0@ && copies@[j].1@
                                == entries@[j].1@,
                    decreases entries@.len() - i,
                {
                    assert(decreases_to!(self => entries@[i as int].1)) by {
                        assert(self->Object_0 == *entries);
                        assert(decreases_to!(*self => self->Object_0));
                        assert(decreases_to!(entries@[i as int] => entries@[i as int].1));
                    }
                    let key: String = entries[i].0.clone();
                    let value: Metadata = entries[i].1.clone();
                    copies.push((key, value));
                    i += 1;
                }
                let r = Metadata::Object(copies);
                assert(r@ == self@) by {
                    reveal_with_fuel(payload, 2);
                    assert(r@->Object_0 =~= self@->Object_0);
                }
                r
            },
        }
    }
}

} // verus!
