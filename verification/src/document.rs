//! Documents as they are handed to the index: per field, the terms of the
//! field with the positions at which each term occurs.

use vstd::prelude::*;
use vstd::slice::slice_to_vec;
use vstd::string::StringSliceAdditionalSpecFns;
use crate::sorted::{lemma_index_unique, lemma_insert_places, SortedMap};

verus! {

/// The terms of one field, each with the positions at which it occurs, in
/// ascending byte order of the terms.
pub struct Terms {
    entries: SortedMap<Vec<u32>>,
}

impl View for Terms {
    type V = Map<Seq<u8>, Seq<u32>>;

    /// From each term to its positions, in the order in which they were added.
    closed spec fn view(&self) -> Map<Seq<u8>, Seq<u32>> {
        Map::new(
            |term: Seq<u8>| self.entries.keys().contains(term),
            |term: Seq<u8>| self.entries.values()[self.entries.keys().index_of(term)]@,
        )
    }
}

impl Terms {
    /// The terms, in the order in which a segment stores them.
    pub closed spec fn terms(self) -> Seq<Seq<u8>> {
        self.entries.keys()
    }

    /// The position lists; `positions()[i]` belongs to `terms()[i]`.
    pub closed spec fn positions(self) -> Seq<Seq<u32>> {
        Seq::new(self.entries.values().len(), |i: int| self.entries.values()[i]@)
    }

    /// The terms ascend strictly and every term has at least one position.
    pub closed spec fn wf(self) -> bool {
        &&& self.entries.wf()
        &&& forall|i: int| 0 <= i < self.entries.values().len() ==> (#[trigger] self.entries.values()[i])@.len() > 0
    }

    /// The positions recorded for `term`, none if the term is unknown.
    pub open spec fn positions_of(self, term: Seq<u8>) -> Seq<u32> {
        if self@.contains_key(term) {
            self@[term]
        } else {
            Seq::empty()
        }
    }

    /// What well-formedness says of the two lists and of the view.
    pub proof fn lemma_wf(self)
        requires
            self.wf(),
        ensures
            self.terms().len() == self.positions().len(),
            crate::order::strictly_ascending(self.terms()),
            forall|i: int| 0 <= i < self.terms().len() ==> (#[trigger] self.positions()[i]).len() > 0,
            forall|i: int|
                0 <= i < self.terms().len() ==> self@.contains_key(#[trigger] self.terms()[i])
                    && self@[self.terms()[i]] == self.positions()[i],
            forall|term: Seq<u8>| self@.contains_key(term) <==> self.terms().contains(term),
    {
        assert forall|i: int| 0 <= i < self.terms().len() implies self@.contains_key(
            #[trigger] self.terms()[i],
        ) && self@[self.terms()[i]] == self.positions()[i] by {
            lemma_index_unique(self.entries.keys(), i);
        }
    }

    /// No terms.
    pub fn new() -> (terms: Terms)
        ensures
            terms.wf(),
            terms@ == Map::<Seq<u8>, Seq<u32>>::empty(),
    {
        let terms = Terms { entries: SortedMap::new() };
        assert(terms@ =~= Map::<Seq<u8>, Seq<u32>>::empty());
        terms
    }

    /// Records one more position of `term`, after those already recorded.
    pub fn term(&mut self, term: &str, position: u32) -> (terms: &mut Terms)
        requires
            old(self).wf(),
        ensures
            terms.wf(),
            terms@ == old(self)@.insert(
                term.spec_bytes(),
                old(self).positions_of(term.spec_bytes()).push(position),
            ),
            *final(self) == *final(terms),
    {
        self.add(term.as_bytes(), position);
        self
    }

    /// Records one more position of the term with the bytes `term`.
    pub fn add(&mut self, term: &[u8], position: u32)
        requires
            old(self).wf(),
        ensures
            final(self).wf(),
            final(self)@ == old(self)@.insert(term@, old(self).positions_of(term@).push(position)),
    {
        let ghost before = *self;
        let (at, found) = self.entries.search(term);
        if found {
            proof {
                lemma_index_unique(before.entries.keys(), at as int);
            }
            let list = self.entries.value_at_mut(at);
            list.push(position);
            proof {
                let keys = before.entries.keys();
                assert(self.entries.keys() == keys);
                assert forall|key: Seq<u8>| #[trigger] self@.contains_key(key) implies self@[key]
                    == before@.insert(term@, before.positions_of(term@).push(position))[key] by {
                    let i = keys.index_of(key);
                    if key == term@ {
                    } else {
                        assert(i != at);
                    }
                }
                assert(self@ =~= before@.insert(
                    term@,
                    before.positions_of(term@).push(position),
                ));
            }
        } else {
            let mut list: Vec<u32> = Vec::new();
            list.push(position);
            let key = slice_to_vec(term);
            self.entries.insert_at(at, key, list);
            proof {
                lemma_insert_places(before.entries.keys(), term@);
                assert(Seq::<u32>::empty().push(position) =~= list@);
                assert(self@ =~= before@.insert(term@, list@));
            }
        }
    }

    /// The number of terms.
    pub fn len(&self) -> (n: usize)
        ensures
            n == self.terms().len(),
    {
        self.entries.len()
    }

    /// The term at place `i` in ascending order.
    pub fn term_at(&self, i: usize) -> (term: &Vec<u8>)
        requires
            i < self.terms().len(),
        ensures
            term@ == self.terms()[i as int],
    {
        self.entries.key_at(i)
    }

    /// The positions of the term at place `i`.
    pub fn positions_at(&self, i: usize) -> (positions: &Vec<u32>)
        requires
            self.wf(),
            i < self.terms().len(),
        ensures
            positions@ == self.positions()[i as int],
    {
        self.entries.value_at(i)
    }
}

/// An indexable document: the terms of each of its fields. Field names are
/// unique, and held in ascending byte order.
pub struct Document {
    fields: SortedMap<Terms>,
}

impl View for Document {
    type V = Map<Seq<u8>, Map<Seq<u8>, Seq<u32>>>;

    /// From each field name to the terms of the field.
    closed spec fn view(&self) -> Map<Seq<u8>, Map<Seq<u8>, Seq<u32>>> {
        Map::new(
            |name: Seq<u8>| self.fields.keys().contains(name),
            |name: Seq<u8>| self.fields.values()[self.fields.keys().index_of(name)]@,
        )
    }
}

impl Document {
    /// The field names, in ascending byte order.
    pub closed spec fn names(self) -> Seq<Seq<u8>> {
        self.fields.keys()
    }

    /// The terms of the fields; `fields()[i]` belongs to `names()[i]`.
    pub closed spec fn fields(self) -> Seq<Terms> {
        self.fields.values()
    }

    /// The field names ascend strictly and the terms of every field are well
    /// formed.
    pub closed spec fn wf(self) -> bool {
        &&& self.fields.wf()
        &&& forall|i: int| 0 <= i < self.fields.values().len() ==> (#[trigger] self.fields.values()[i]).wf()
    }

    /// What well-formedness says of the two lists and of the view.
    pub proof fn lemma_wf(self)
        requires
            self.wf(),
        ensures
            self.names().len() == self.fields().len(),
            crate::order::strictly_ascending(self.names()),
            forall|i: int| 0 <= i < self.names().len() ==> (#[trigger] self.fields()[i]).wf(),
            forall|i: int|
                0 <= i < self.names().len() ==> self@.contains_key(#[trigger] self.names()[i])
                    && self@[self.names()[i]] == self.fields()[i]@,
            forall|name: Seq<u8>| self@.contains_key(name) <==> self.names().contains(name),
    {
        assert forall|i: int| 0 <= i < self.names().len() implies self@.contains_key(
            #[trigger] self.names()[i],
        ) && self@[self.names()[i]] == self.fields()[i]@ by {
            lemma_index_unique(self.fields.keys(), i);
        }
    }

    /// A document without fields.
    pub fn new() -> (document: Document)
        ensures
            document.wf(),
            document@ == Map::<Seq<u8>, Map<Seq<u8>, Seq<u32>>>::empty(),
    {
        let document = Document { fields: SortedMap::new() };
        assert(document@ =~= Map::<Seq<u8>, Map<Seq<u8>, Seq<u32>>>::empty());
        document
    }

    /// The terms of the field `field_name`, to be added to; a field that the
    /// document does not have yet is created without terms.
    pub fn field(&mut self, field_name: &str) -> (terms: &mut Terms)
        requires
            old(self).wf(),
        ensures
            terms.wf(),
            terms@ == if old(self)@.contains_key(field_name.spec_bytes()) {
                old(self)@[field_name.spec_bytes()]
            } else {
                Map::<Seq<u8>, Seq<u32>>::empty()
            },
            final(self)@ == old(self)@.insert(field_name.spec_bytes(), final(terms)@),
            final(terms).wf() ==> final(self).wf(),
    {
        let ghost before = *self;
        let name = field_name.as_bytes();
        let (at, found) = self.fields.search(name);
        if !found {
            self.fields.insert_at(at, slice_to_vec(name), Terms::new());
            proof {
                lemma_insert_places(before.fields.keys(), name@);
            }
        } else {
            proof {
                lemma_index_unique(before.fields.keys(), at as int);
            }
        }
        proof {
            let grown = *self;
            let keys = grown.fields.keys();
            let values = grown.fields.values();
            lemma_index_unique(keys, at as int);
            assert forall|after: Document|
                after.fields.keys() == keys && after.fields.values().len() == values.len() && (
                forall|j: int|
                    0 <= j < values.len() && j != at ==> after.fields.values()[j]
                        == values[j]) implies #[trigger] after@ == before@.insert(
                name@,
                after.fields.values()[at as int]@,
            ) by {
                assert forall|key: Seq<u8>| #[trigger] after@.contains_key(key) implies after@[key]
                    == before@.insert(name@, after.fields.values()[at as int]@)[key] by {
                    let i = keys.index_of(key);
                    if key != name@ {
                        assert(i != at);
                        assert(before.fields.keys().contains(key));
                        assert(values[i] == before.fields.values()[before.fields.keys().index_of(
                            key,
                        )]);
                    }
                }
                assert(after@ =~= before@.insert(name@, after.fields.values()[at as int]@));
            }
            assert forall|after: Document|
                after.fields.keys() == keys && after.fields.values().len() == values.len() && (
                forall|j: int|
                    0 <= j < values.len() && j != at ==> after.fields.values()[j] == values[j])
                    && after.fields.values()[at as int].wf() implies #[trigger] after.wf() by {
                assert forall|i: int| 0 <= i < after.fields.values().len() implies (
                #[trigger] after.fields.values()[i]).wf() by {
                    if i != at {
                        assert(values[i].wf());
                    }
                }
            }
        }
        self.fields.value_at_mut(at)
    }

    /// The number of fields.
    pub fn len(&self) -> (n: usize)
        ensures
            n == self.names().len(),
    {
        self.fields.len()
    }

    /// The name of the field at place `i` in ascending order.
    pub fn name_at(&self, i: usize) -> (name: &Vec<u8>)
        requires
            i < self.names().len(),
        ensures
            name@ == self.names()[i as int],
    {
        self.fields.key_at(i)
    }

    /// The terms of the field at place `i`.
    pub fn terms_at(&self, i: usize) -> (terms: &Terms)
        requires
            self.wf(),
            i < self.names().len(),
        ensures
            *terms == self.fields()[i as int],
    {
        self.fields.value_at(i)
    }
}

} // verus!
