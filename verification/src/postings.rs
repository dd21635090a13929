//! What a batch of documents says of each term: the documents that hold it
//! and, for each of them, the positions of the term.

use vstd::prelude::*;
use vstd::slice::slice_to_vec;
use crate::bitmap::{bitmap_image, bitmap_insert, bitmap_members, bitmap_new};
use crate::document::{Document, Terms};
use crate::order::strictly_ascending;
use crate::sorted::{
    lemma_lookup_at, lemma_lookup_insert, lemma_lookup_update, lemma_not_among_earlier,
    lemma_take_next, lookup, SortedMap,
};

verus! {

/// For one term of one field: the ids of the documents that hold the term,
/// ascending, and the positions of the term in each of them.
pub struct TermInfos {
    doc_ids: roaring::RoaringBitmap,
    positions: Vec<Vec<u32>>,
    docs: Ghost<Seq<u32>>,
}

impl View for TermInfos {
    type V = Seq<(u32, Seq<u32>)>;

    /// The postings: each document id with the positions of the term in that
    /// document, in ascending order of the ids.
    closed spec fn view(&self) -> Seq<(u32, Seq<u32>)> {
        Seq::new(self.positions.len() as nat, |i: int| (self.docs@[i], self.positions[i]@))
    }
}

impl TermInfos {
    /// The set of document ids that the bitmap holds.
    pub closed spec fn doc_set(self) -> Set<u32> {
        bitmap_members(self.doc_ids)
    }

    /// The bytes that serialising the bitmap gives; `None` where it cannot
    /// be serialised.
    pub closed spec fn image(self) -> Option<Seq<u8>> {
        bitmap_image(self.doc_ids)
    }

    /// The bitmap holds the ids of the postings and no others, and the ids
    /// ascend strictly.
    pub closed spec fn wf(self) -> bool {
        &&& self.docs@.len() == self.positions.len()
        &&& forall|i: int, j: int| 0 <= i < j < self.docs@.len() ==> self.docs@[i] < self.docs@[j]
        &&& bitmap_members(self.doc_ids) == self.docs@.to_set()
    }

    /// What well-formedness says of the postings: the ids ascend, the bitmap
    /// holds exactly the ids of the postings, and so there are as many
    /// position lists as the bitmap has ids.
    pub proof fn lemma_wf(self)
        requires
            self.wf(),
        ensures
            forall|i: int, j: int| 0 <= i < j < self@.len() ==> self@[i].0 < self@[j].0,
            forall|id: u32|
                self.doc_set().contains(id) <==> exists|i: int|
                    0 <= i < self@.len() && #[trigger] self@[i].0 == id,
            self.doc_set().finite(),
            self.doc_set().len() == self@.len(),
    {
        assert(self.docs@.no_duplicates());
        self.docs@.unique_seq_to_set();
        vstd::seq_lib::seq_to_set_is_finite(self.docs@);
        assert forall|id: u32| self.doc_set().contains(id) <==> exists|i: int|
            0 <= i < self@.len() && #[trigger] self@[i].0 == id by {
            if self.doc_set().contains(id) {
                assert(self.docs@.contains(id));
                let i = self.docs@.index_of(id);
                assert(self@[i].0 == id);
            }
            if exists|i: int| 0 <= i < self@.len() && #[trigger] self@[i].0 == id {
                let i = choose|i: int| 0 <= i < self@.len() && #[trigger] self@[i].0 == id;
                assert(self.docs@[i] == id);
            }
        }
    }

    /// No postings.
    pub fn new() -> (infos: TermInfos)
        ensures
            infos.wf(),
            infos@ == Seq::<(u32, Seq<u32>)>::empty(),
    {
        let infos = TermInfos { doc_ids: bitmap_new(), positions: Vec::new(), docs: Ghost(Seq::empty()) };
        assert(infos@ =~= Seq::<(u32, Seq<u32>)>::empty());
        assert(infos.docs@.to_set() =~= Set::<u32>::empty());
        infos
    }

    /// Records that document `doc` holds the term at `positions`. The
    /// document comes after all those recorded before.
    pub fn record(&mut self, doc: u32, positions: &Vec<u32>)
        requires
            old(self).wf(),
            forall|i: int| 0 <= i < old(self)@.len() ==> (#[trigger] old(self)@[i]).0 < doc,
        ensures
            final(self).wf(),
            final(self)@ == old(self)@.push((doc, positions@)),
    {
        let ghost before = *self;
        let _ = bitmap_insert(&mut self.doc_ids, doc);
        let copy = positions.clone();
        assert(copy@ =~= positions@);
        self.positions.push(copy);
        proof {
            self.docs@ = before.docs@.push(doc);
            assert(self@ =~= before@.push((doc, positions@)));
            assert forall|i: int, j: int| 0 <= i < j < self.docs@.len() implies self.docs@[i]
                < self.docs@[j] by {
                if j == before.docs@.len() {
                    assert(before@[i].0 < doc);
                }
            }
            assert(self.docs@.to_set() =~= before.docs@.to_set().insert(doc)) by {
                assert forall|id: u32| self.docs@.to_set().contains(id) <==> before.docs@.to_set().insert(
                    doc,
                ).contains(id) by {
                    if self.docs@.contains(id) {
                        let i = self.docs@.index_of(id);
                        if i < before.docs@.len() {
                            assert(before.docs@[i] == id);
                        }
                    }
                    if before.docs@.contains(id) {
                        let i = before.docs@.index_of(id);
                        assert(self.docs@[i] == id);
                    }
                    if id == doc {
                        assert(self.docs@[before.docs@.len() as int] == id);
                    }
                }
            }
        }
    }

    /// The number of postings.
    pub fn len(&self) -> (n: usize)
        ensures
            n == self@.len(),
    {
        self.positions.len()
    }

    /// The positions of the term in the document of posting `i`.
    pub fn positions_at(&self, i: usize) -> (positions: &Vec<u32>)
        requires
            i < self@.len(),
        ensures
            positions@ == self@[i as int].1,
    {
        &self.positions[i]
    }

    /// The bitmap of the document ids.
    pub fn doc_ids(&self) -> (bitmap: &roaring::RoaringBitmap)
        ensures
            bitmap_members(*bitmap) == self.doc_set(),
            bitmap_image(*bitmap) == self.image(),
    {
        &self.doc_ids
    }
}

/// The posting of document `doc` for a term that the document holds at
/// `positions`, or nothing for a term that it does not hold.
pub open spec fn posting_if(held: bool, doc: u32, positions: Seq<u32>) -> Seq<(u32, Seq<u32>)> {
    if held {
        seq![(doc, positions)]
    } else {
        Seq::empty()
    }
}

/// The terms of one field with their postings, in ascending byte order of
/// the terms.
pub struct TermMap {
    terms: SortedMap<TermInfos>,
}

impl TermMap {
    /// The terms, in the order in which a segment stores them.
    pub closed spec fn terms(self) -> Seq<Seq<u8>> {
        self.terms.keys()
    }

    /// What is known of each term; `infos()[i]` belongs to `terms()[i]`.
    pub closed spec fn infos(self) -> Seq<TermInfos> {
        self.terms.values()
    }

    /// The terms ascend strictly, and every term has well-formed postings, at
    /// least one.
    pub closed spec fn wf(self) -> bool {
        &&& self.terms.wf()
        &&& forall|i: int|
            0 <= i < self.terms.values().len() ==> (#[trigger] self.terms.values()[i]).wf()
                && self.terms.values()[i]@.len() > 0
    }

    /// The postings of `term`, none for a term that the map does not hold.
    pub closed spec fn postings_of(self, term: Seq<u8>) -> Seq<(u32, Seq<u32>)> {
        match lookup(self.terms.keys(), self.terms.values(), term) {
            Some(infos) => infos@,
            None => Seq::empty(),
        }
    }

    /// Every document id in the map is below `limit`.
    pub open spec fn docs_below(self, limit: int) -> bool {
        forall|term: Seq<u8>, k: int|
            0 <= k < self.postings_of(term).len() ==> (#[trigger] self.postings_of(term)[k]).0
                < limit
    }

    /// What well-formedness says of the two lists and of the postings.
    pub proof fn lemma_wf(self)
        requires
            self.wf(),
        ensures
            self.terms().len() == self.infos().len(),
            strictly_ascending(self.terms()),
            forall|i: int|
                0 <= i < self.terms().len() ==> (#[trigger] self.infos()[i]).wf()
                    && self.infos()[i]@.len() > 0 && self.postings_of(self.terms()[i])
                    == self.infos()[i]@,
            forall|term: Seq<u8>|
                self.terms().contains(term) <==> (#[trigger] self.postings_of(term)).len() > 0,
    {
        assert forall|i: int| 0 <= i < self.terms().len() implies (#[trigger] self.infos()[i]).wf()
            && self.infos()[i]@.len() > 0 && self.postings_of(self.terms()[i])
            == self.infos()[i]@ by {
            lemma_lookup_at(self.terms.keys(), self.terms.values(), i);
        }
        assert forall|term: Seq<u8>|
            self.terms().contains(term) <==> (#[trigger] self.postings_of(term)).len() > 0 by {
            if self.terms().contains(term) {
                let i = self.terms().index_of(term);
                lemma_lookup_at(self.terms.keys(), self.terms.values(), i);
            }
        }
    }

    /// A map without terms.
    pub fn new() -> (map: TermMap)
        ensures
            map.wf(),
            map.terms() == Seq::<Seq<u8>>::empty(),
            forall|term: Seq<u8>| #[trigger] map.postings_of(term) == Seq::<(u32, Seq<u32>)>::empty(),
    {
        TermMap { terms: SortedMap::new() }
    }

    /// Records that document `doc` holds `term` at `positions`. The document
    /// comes after all those recorded for the term before.
    pub fn record(&mut self, term: &[u8], doc: u32, positions: &Vec<u32>)
        requires
            old(self).wf(),
            forall|k: int|
                0 <= k < old(self).postings_of(term@).len() ==> (#[trigger] old(self).postings_of(
                    term@,
                )[k]).0 < doc,
        ensures
            final(self).wf(),
            forall|other: Seq<u8>| #[trigger]
                final(self).postings_of(other) == if other == term@ {
                    old(self).postings_of(term@).push((doc, positions@))
                } else {
                    old(self).postings_of(other)
                },
    {
        let ghost before = *self;
        let ghost keys = before.terms.keys();
        let ghost values = before.terms.values();
        let (at, found) = self.terms.search(term);
        if !found {
            let mut infos = TermInfos::new();
            infos.record(doc, positions);
            proof {
                lemma_lookup_insert(keys, values, term@, infos);
                assert(Seq::<(u32, Seq<u32>)>::empty().push((doc, positions@)) =~= infos@);
            }
            self.terms.insert_at(at, slice_to_vec(term), infos);
            proof {
                let grown = self.terms.values();
                assert forall|i: int| 0 <= i < grown.len() implies (#[trigger] grown[i]).wf()
                    && grown[i]@.len() > 0 by {
                    if i < at {
                        assert(grown[i] == values[i]);
                    } else if i > at {
                        assert(grown[i] == values[i - 1]);
                    }
                }
            }
        } else {
            proof {
                lemma_lookup_at(keys, values, at as int);
                assert(before.postings_of(term@) == values[at as int]@);
            }
            let infos = self.terms.value_at_mut(at);
            infos.record(doc, positions);
            proof {
                let changed = self.terms.values();
                lemma_lookup_update(keys, values, at as int, changed[at as int]);
                assert forall|i: int| 0 <= i < changed.len() implies (#[trigger] changed[i]).wf()
                    && changed[i]@.len() > 0 by {
                    if i != at {
                        assert(changed[i] == values[i]);
                    }
                }
            }
        }
    }

    /// Adds, for every term of `terms`, the posting of document `doc`. The
    /// document comes after all those in the map.
    pub fn add_terms(&mut self, terms: &Terms, doc: u32)
        requires
            old(self).wf(),
            terms.wf(),
            old(self).docs_below(doc as int),
        ensures
            final(self).wf(),
            final(self).docs_below(doc + 1),
            forall|term: Seq<u8>| #[trigger]
                final(self).postings_of(term) == old(self).postings_of(term) + posting_if(
                    terms@.contains_key(term),
                    doc,
                    terms@[term],
                ),
    {
        let ghost before = *self;
        proof {
            terms.lemma_wf();
        }
        let count = terms.len();
        let mut j: usize = 0;
        while j < count
            invariant
                0 <= j <= count == terms.terms().len(),
                terms.wf(),
                self.wf(),
                before.docs_below(doc as int),
                forall|term: Seq<u8>| #[trigger]
                    self.postings_of(term) == before.postings_of(term) + posting_if(
                        terms.terms().take(j as int).contains(term),
                        doc,
                        terms@[term],
                    ),
            decreases count - j,
        {
            proof {
                terms.lemma_wf();
            }
            let term = terms.term_at(j);
            let ghost current = *self;
            proof {
                lemma_not_among_earlier(terms.terms(), j as int);
                lemma_take_next(terms.terms(), j as int);
                assert(current.postings_of(term@) =~= before.postings_of(term@));
            }
            self.record(term.as_slice(), doc, terms.positions_at(j));
            proof {
                assert(before.postings_of(term@).push((doc, terms@[term@])) =~= before.postings_of(
                    term@,
                ) + seq![(doc, terms@[term@])]);
            }
            j += 1;
        }
        proof {
            assert(terms.terms().take(count as int) =~= terms.terms());
            assert forall|term: Seq<u8>, k: int| 0 <= k < self.postings_of(term).len() implies (
            #[trigger] self.postings_of(term)[k]).0 < doc + 1 by {
                if k < before.postings_of(term).len() {
                    assert(before.postings_of(term)[k].0 < doc);
                }
            }
        }
    }

    /// The number of terms.
    pub fn len(&self) -> (n: usize)
        ensures
            n == self.terms().len(),
    {
        self.terms.len()
    }

    /// The term at place `i` in ascending order.
    pub fn term_at(&self, i: usize) -> (term: &Vec<u8>)
        requires
            i < self.terms().len(),
        ensures
            term@ == self.terms()[i as int],
    {
        self.terms.key_at(i)
    }

    /// What is known of the term at place `i`.
    pub fn infos_at(&self, i: usize) -> (infos: &TermInfos)
        requires
            self.wf(),
            i < self.terms().len(),
        ensures
            *infos == self.infos()[i as int],
    {
        self.terms.value_at(i)
    }
}

/// The term maps of a batch, one for each field, in ascending byte order of
/// the field names.
pub struct FieldMaps {
    fields: SortedMap<TermMap>,
}

impl FieldMaps {
    /// The field names, in ascending byte order.
    pub closed spec fn names(self) -> Seq<Seq<u8>> {
        self.fields.keys()
    }

    /// The term maps; `maps()[i]` belongs to `names()[i]`.
    pub closed spec fn maps(self) -> Seq<TermMap> {
        self.fields.values()
    }

    /// The field names ascend strictly and every term map is well formed.
    pub closed spec fn wf(self) -> bool {
        &&& self.fields.wf()
        &&& forall|i: int| 0 <= i < self.fields.values().len() ==> (#[trigger] self.fields.values()[i]).wf()
    }

    /// Whether some document of the batch had the field `name`.
    pub closed spec fn has_field(self, name: Seq<u8>) -> bool {
        self.fields.keys().contains(name)
    }

    /// The postings of `term` in the field `name`, none where the batch does
    /// not hold the term in that field.
    pub closed spec fn postings_of(self, name: Seq<u8>, term: Seq<u8>) -> Seq<(u32, Seq<u32>)> {
        match lookup(self.fields.keys(), self.fields.values(), name) {
            Some(map) => map.postings_of(term),
            None => Seq::empty(),
        }
    }

    /// Every document id in the maps is below `limit`.
    pub open spec fn docs_below(self, limit: int) -> bool {
        forall|name: Seq<u8>, term: Seq<u8>, k: int|
            0 <= k < self.postings_of(name, term).len() ==> (#[trigger] self.postings_of(
                name,
                term,
            )[k]).0 < limit
    }

    /// What well-formedness says of the two lists and of the postings.
    pub proof fn lemma_wf(self)
        requires
            self.wf(),
        ensures
            self.names().len() == self.maps().len(),
            strictly_ascending(self.names()),
            forall|name: Seq<u8>| self.has_field(name) <==> self.names().contains(name),
            forall|i: int| 0 <= i < self.names().len() ==> (#[trigger] self.maps()[i]).wf(),
            forall|i: int, term: Seq<u8>|
                0 <= i < self.names().len() ==> #[trigger] self.maps()[i].postings_of(term)
                    == self.postings_of(self.names()[i], term),
    {
        assert forall|i: int, term: Seq<u8>| 0 <= i < self.names().len() implies #[trigger] self.maps()[i].postings_of(
            term,
        ) == self.postings_of(self.names()[i], term) by {
            lemma_lookup_at(self.fields.keys(), self.fields.values(), i);
        }
    }

    /// No fields.
    pub fn new() -> (maps: FieldMaps)
        ensures
            maps.wf(),
            maps.names() == Seq::<Seq<u8>>::empty(),
            forall|name: Seq<u8>| !#[trigger] maps.has_field(name),
            forall|name: Seq<u8>, term: Seq<u8>| #[trigger]
                maps.postings_of(name, term) == Seq::<(u32, Seq<u32>)>::empty(),
    {
        FieldMaps { fields: SortedMap::new() }
    }

    /// Adds the terms of the field `name` of document `doc`; a field that
    /// the maps do not have yet is created. The document comes after all
    /// those recorded for the field.
    pub fn add_field(&mut self, name: &[u8], terms: &Terms, doc: u32)
        requires
            old(self).wf(),
            terms.wf(),
            forall|term: Seq<u8>, k: int|
                0 <= k < old(self).postings_of(name@, term).len() ==> (#[trigger] old(
                    self,
                ).postings_of(name@, term)[k]).0 < doc,
        ensures
            final(self).wf(),
            forall|other: Seq<u8>| #[trigger]
                final(self).has_field(other) <==> other == name@ || old(self).has_field(other),
            forall|other: Seq<u8>, term: Seq<u8>| #[trigger]
                final(self).postings_of(other, term) == old(self).postings_of(other, term)
                    + posting_if(other == name@ && terms@.contains_key(term), doc, terms@[term]),
    {
        let ghost before = *self;
        let ghost keys = before.fields.keys();
        let ghost values = before.fields.values();
        let (at, found) = self.fields.search(name);
        if !found {
            let fresh = TermMap::new();
            proof {
                lemma_lookup_insert(keys, values, name@, fresh);
                crate::sorted::lemma_insert_places(keys, name@);
            }
            self.fields.insert_at(at, slice_to_vec(name), fresh);
            proof {
                let grown = self.fields.values();
                assert forall|i: int| 0 <= i < grown.len() implies (#[trigger] grown[i]).wf() by {
                    if i < at {
                        assert(grown[i] == values[i]);
                    } else if i > at {
                        assert(grown[i] == values[i - 1]);
                    }
                }
                assert forall|other: Seq<u8>, term: Seq<u8>| #[trigger]
                    self.postings_of(other, term) == before.postings_of(other, term) by {
                }
            }
        }
        let ghost grown = *self;
        let ghost grown_keys = grown.fields.keys();
        let ghost grown_values = grown.fields.values();
        proof {
            lemma_lookup_at(grown_keys, grown_values, at as int);
            assert forall|term: Seq<u8>, k: int|
                0 <= k < grown_values[at as int].postings_of(term).len() implies (
            #[trigger] grown_values[at as int].postings_of(term)[k]).0 < doc by {
                assert(grown.postings_of(name@, term) == grown_values[at as int].postings_of(term));
                assert(before.postings_of(name@, term)[k].0 < doc);
            }
        }
        let map = self.fields.value_at_mut(at);
        map.add_terms(terms, doc);
        proof {
            let changed = self.fields.values();
            lemma_lookup_update(grown_keys, grown_values, at as int, changed[at as int]);
            assert forall|i: int| 0 <= i < changed.len() implies (#[trigger] changed[i]).wf() by {
                if i != at {
                    assert(changed[i] == grown_values[i]);
                }
            }
            assert forall|other: Seq<u8>, term: Seq<u8>| #[trigger]
                self.postings_of(other, term) == before.postings_of(other, term) + posting_if(
                    other == name@ && terms@.contains_key(term),
                    doc,
                    terms@[term],
                ) by {
                assert(grown.postings_of(other, term) == before.postings_of(other, term));
                if other == name@ {
                    assert(self.postings_of(other, term) == changed[at as int].postings_of(term));
                    assert(grown.postings_of(other, term) == grown_values[at as int].postings_of(
                        term,
                    ));
                } else {
                    assert(self.postings_of(other, term) == grown.postings_of(other, term));
                    assert(before.postings_of(other, term) + Seq::<(u32, Seq<u32>)>::empty()
                        =~= before.postings_of(other, term));
                }
            }
        }
    }

    /// Adds the terms of every field of document `doc`. The document comes
    /// after all those in the maps.
    pub fn add_document(&mut self, document: &Document, doc: u32)
        requires
            old(self).wf(),
            document.wf(),
            old(self).docs_below(doc as int),
        ensures
            final(self).wf(),
            final(self).docs_below(doc + 1),
            forall|name: Seq<u8>| #[trigger]
                final(self).has_field(name) <==> old(self).has_field(name)
                    || document@.contains_key(name),
            forall|name: Seq<u8>, term: Seq<u8>| #[trigger]
                final(self).postings_of(name, term) == old(self).postings_of(name, term)
                    + posting_if(
                    document@.contains_key(name) && document@[name].contains_key(term),
                    doc,
                    document@[name][term],
                ),
    {
        let ghost before = *self;
        proof {
            document.lemma_wf();
        }
        let count = document.len();
        let mut i: usize = 0;
        while i < count
            invariant
                0 <= i <= count == document.names().len(),
                document.wf(),
                self.wf(),
                before.docs_below(doc as int),
                forall|name: Seq<u8>| #[trigger]
                    self.has_field(name) <==> before.has_field(name) || document.names().take(
                        i as int,
                    ).contains(name),
                forall|name: Seq<u8>, term: Seq<u8>| #[trigger]
                    self.postings_of(name, term) == before.postings_of(name, term) + posting_if(
                        document.names().take(i as int).contains(name)
                            && document@[name].contains_key(term),
                        doc,
                        document@[name][term],
                    ),
            decreases count - i,
        {
            proof {
                document.lemma_wf();
            }
            let name = document.name_at(i);
            let terms = document.terms_at(i);
            let ghost current = *self;
            let ghost next = document.names().take(i + 1);
            proof {
                lemma_not_among_earlier(document.names(), i as int);
                lemma_take_next(document.names(), i as int);
                assert forall|term: Seq<u8>, k: int|
                    0 <= k < current.postings_of(name@, term).len() implies (
                #[trigger] current.postings_of(name@, term)[k]).0 < doc by {
                    assert(current.postings_of(name@, term) =~= before.postings_of(name@, term));
                    assert(before.postings_of(name@, term)[k].0 < doc);
                }
            }
            self.add_field(name.as_slice(), terms, doc);
            proof {
                assert forall|other: Seq<u8>, term: Seq<u8>| #[trigger]
                    self.postings_of(other, term) == before.postings_of(other, term) + posting_if(
                        next.contains(other) && document@[other].contains_key(term),
                        doc,
                        document@[other][term],
                    ) by {
                    if other == name@ {
                        assert(current.postings_of(other, term) =~= before.postings_of(other, term));
                    } else {
                        assert(current.postings_of(other, term) + Seq::<(u32, Seq<u32>)>::empty()
                            =~= current.postings_of(other, term));
                    }
                }
            }
            i += 1;
        }
        proof {
            assert(document.names().take(count as int) =~= document.names());
            assert forall|name: Seq<u8>, term: Seq<u8>, k: int|
                0 <= k < self.postings_of(name, term).len() implies (#[trigger] self.postings_of(
                name,
                term,
            )[k]).0 < doc + 1 by {
                if k < before.postings_of(name, term).len() {
                    assert(before.postings_of(name, term)[k].0 < doc);
                }
            }
        }
    }

    /// The number of fields.
    pub fn len(&self) -> (n: usize)
        ensures
            n == self.names().len(),
    {
        self.fields.len()
    }

    /// The name of the field at place `i` in ascending order.
    pub fn name_at(&self, i: usize) -> (name: &Vec<u8>)
        requires
            i < self.names().len(),
        ensures
            name@ == self.names()[i as int],
    {
        self.fields.key_at(i)
    }

    /// The term map of the field at place `i`.
    pub fn map_at(&self, i: usize) -> (map: &TermMap)
        requires
            self.wf(),
            i < self.names().len(),
        ensures
            *map == self.maps()[i as int],
    {
        self.fields.value_at(i)
    }
}

} // verus!
