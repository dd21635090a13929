//! The index: the readers of all fields, and the number of records, which is
//! the global id that the first document of the next batch gets.

use vstd::prelude::*;
use vstd::slice::slice_to_vec;
use crate::document::Document;
use crate::error::IndexError;
use crate::field::{
    extends, has_segment, is_pending, lemma_max_end_push, lemma_reload_adds_named_segments,
    lemma_reload_of_loaded,
    load_outcome, max_end, reload_outcome, reload_reached, FieldReader, SegmentData, SegmentEntry,
};
use crate::naming::segment_name_value;
use crate::reader::open_outcome;
use crate::roundtrip::lemma_bitmaps_come_back;
use crate::ident::uuid_from_time;
use crate::naming::SegmentName;
use crate::query::Query;
use crate::sorted::{
    lemma_lookup_at, lemma_lookup_insert, lemma_lookup_update, lookup, SortedMap,
};
use crate::writer::{
    batch_segments, describes, document_views, encoded, field_written, FieldSegment, SegmentWriter,
};

verus! {

/// A directory of the index as the index is handed it: the name of the
/// field, and those of the directories of its segments that were read.
pub struct FieldData {
    pub name: Vec<u8>,
    pub segments: Vec<SegmentData>,
}

/// The segments that `model` holds for the field `name`, none for a field
/// that it does not know.
pub open spec fn segments_of(model: Map<Seq<u8>, Seq<SegmentEntry>>, name: Seq<u8>) -> Seq<
    SegmentEntry,
> {
    if model.contains_key(name) {
        model[name]
    } else {
        Seq::empty()
    }
}

/// What the index holds after it was handed the field directories
/// `snapshot`, one after the other: every field of the snapshot is known,
/// and its reader has reloaded from the directories given for it. The first
/// error ends the reload.
pub open spec fn fields_outcome(
    model: Map<Seq<u8>, Seq<SegmentEntry>>,
    snapshot: Seq<FieldData>,
) -> Result<Map<Seq<u8>, Seq<SegmentEntry>>, IndexError>
    decreases snapshot.len(),
{
    if snapshot.len() == 0 {
        Ok(model)
    } else {
        let field = snapshot.first();
        match reload_outcome(segments_of(model, field.name@), field.segments@) {
            Ok(segments) => fields_outcome(model.insert(field.name@, segments), snapshot.drop_first()),
            Err(error) => Err(error),
        }
    }
}

/// What the index holds when a reload ends: what the field directories gave
/// up to the first segment that did not open, or all of them.
pub open spec fn fields_reached(
    model: Map<Seq<u8>, Seq<SegmentEntry>>,
    snapshot: Seq<FieldData>,
) -> Map<Seq<u8>, Seq<SegmentEntry>>
    decreases snapshot.len(),
{
    if snapshot.len() == 0 {
        model
    } else {
        let field = snapshot.first();
        let segments = segments_of(model, field.name@);
        let next = model.insert(field.name@, reload_reached(segments, field.segments@));
        if reload_outcome(segments, field.segments@) is Ok {
            fields_reached(next, snapshot.drop_first())
        } else {
            next
        }
    }
}

/// The largest number of records of a reader among `readers`, 0 without
/// readers.
pub open spec fn max_records(readers: Seq<FieldReader>) -> nat
    decreases readers.len(),
{
    if readers.len() == 0 {
        0
    } else {
        let rest = max_records(readers.drop_last());
        let last = max_end(readers.last()@);
        if last > rest {
            last
        } else {
            rest
        }
    }
}

/// `count` is the number of records of an index that holds `model`: no
/// field has more records, and unless it is 0 some field has as many.
pub open spec fn is_record_count(model: Map<Seq<u8>, Seq<SegmentEntry>>, count: nat) -> bool {
    &&& forall|name: Seq<u8>| model.contains_key(name) ==> max_end(#[trigger] model[name]) <= count
    &&& count > 0 ==> exists|name: Seq<u8>|
        model.contains_key(name) && max_end(#[trigger] model[name]) == count
}

/// No reader has more records than the largest number, and unless that is 0
/// some reader has as many.
pub proof fn lemma_max_records(readers: Seq<FieldReader>)
    ensures
        forall|i: int| 0 <= i < readers.len() ==> max_end((#[trigger] readers[i])@) <= max_records(readers),
        max_records(readers) > 0 ==> exists|i: int|
            0 <= i < readers.len() && max_end((#[trigger] readers[i])@) == max_records(readers),
    decreases readers.len(),
{
    if readers.len() > 0 {
        let rest = readers.drop_last();
        lemma_max_records(rest);
        assert forall|i: int| 0 <= i < readers.len() implies max_end((#[trigger] readers[i])@)
            <= max_records(readers) by {
            if i < rest.len() {
                assert(rest[i] == readers[i]);
            }
        }
        if max_records(readers) > 0 {
            if max_end(readers.last()@) > max_records(rest) {
                assert(max_end(readers[readers.len() - 1]@) == max_records(readers));
            } else {
                let i = choose|i: int|
                    0 <= i < rest.len() && max_end((#[trigger] rest[i])@) == max_records(rest);
                assert(rest[i] == readers[i]);
            }
        }
    }
}

/// The index over the fields of one directory.
pub struct Index {
    path: String,
    fields: SortedMap<FieldReader>,
    record_count: u64,
}

impl View for Index {
    type V = Map<Seq<u8>, Seq<SegmentEntry>>;

    /// From the name of each field to its segments.
    closed spec fn view(&self) -> Map<Seq<u8>, Seq<SegmentEntry>> {
        Map::new(
            |name: Seq<u8>| lookup(self.fields.keys(), self.fields.values(), name) is Some,
            |name: Seq<u8>| lookup(self.fields.keys(), self.fields.values(), name)->0@,
        )
    }
}

impl Index {
    /// The path of the index directory, as it was given when the index was
    /// opened.
    pub closed spec fn path_text(self) -> Seq<char> {
        self.path@
    }

    /// The field names, in ascending byte order.
    pub closed spec fn names(self) -> Seq<Seq<u8>> {
        self.fields.keys()
    }

    /// The readers of the fields; `readers()[i]` belongs to `names()[i]`.
    pub closed spec fn readers(self) -> Seq<FieldReader> {
        self.fields.values()
    }

    /// The number of records: the largest number of records of a field.
    pub closed spec fn records(self) -> nat {
        max_records(self.fields.values())
    }

    /// Every reader is well formed and the number of records is the largest
    /// among the fields.
    pub closed spec fn wf(self) -> bool {
        &&& self.fields.wf()
        &&& forall|i: int| 0 <= i < self.fields.values().len() ==> (#[trigger] self.fields.values()[i]).wf()
        &&& self.record_count == max_records(self.fields.values())
    }

    /// What well-formedness says of the fields.
    pub proof fn lemma_wf(self)
        requires
            self.wf(),
        ensures
            self.names().len() == self.readers().len(),
            crate::order::strictly_ascending(self.names()),
            forall|i: int|
                0 <= i < self.names().len() ==> (#[trigger] self.readers()[i]).wf()
                    && self@.contains_key(self.names()[i]) && self@[self.names()[i]]
                    == self.readers()[i]@,
            forall|name: Seq<u8>| self@.contains_key(name) <==> self.names().contains(name),
            self.records() == max_records(self.readers()),
            is_record_count(self@, self.records()),
    {
        lemma_max_records(self.fields.values());
        assert forall|name: Seq<u8>| self@.contains_key(name) implies max_end(
            #[trigger] self@[name],
        ) <= self.records() by {
            let i = self.fields.keys().index_of(name);
            lemma_lookup_at(self.fields.keys(), self.fields.values(), i);
        }
        if self.records() > 0 {
            let i = choose|i: int|
                0 <= i < self.fields.values().len() && max_end((#[trigger] self.fields.values()[i])@)
                    == max_records(self.fields.values());
            lemma_lookup_at(self.fields.keys(), self.fields.values(), i);
            assert(self@.contains_key(self.fields.keys()[i]));
            assert(max_end(self@[self.fields.keys()[i]]) == self.records());
        }
        assert forall|i: int| 0 <= i < self.names().len() implies (#[trigger] self.readers()[i]).wf()
            && self@.contains_key(self.names()[i]) && self@[self.names()[i]]
            == self.readers()[i]@ by {
            lemma_lookup_at(self.fields.keys(), self.fields.values(), i);
        }
    }

    /// Sets the number of records to the largest among the fields.
    fn refresh(&mut self)
        requires
            old(self).fields.wf(),
            forall|i: int|
                0 <= i < old(self).fields.values().len() ==> (#[trigger] old(self).fields.values()[i]).wf(),
        ensures
            final(self).wf(),
            final(self).fields == old(self).fields,
            final(self).path == old(self).path,
    {
        let mut record_count: u64 = 0;
        let count = self.fields.len();
        let mut i: usize = 0;
        assert(self.fields.values().take(0) =~= Seq::<FieldReader>::empty());
        while i < count
            invariant
                0 <= i <= count == self.fields.keys().len(),
                self.fields.wf(),
                self.fields == old(self).fields,
                self.path == old(self).path,
                forall|j: int|
                    0 <= j < self.fields.values().len() ==> (#[trigger] self.fields.values()[j]).wf(),
                record_count == max_records(self.fields.values().take(i as int)),
            decreases count - i,
        {
            let field_reader = self.fields.value_at(i);
            proof {
                assert(self.fields.values().take(i + 1).drop_last() =~= self.fields.values().take(
                    i as int,
                ));
            }
            let records = field_reader.record_count();
            if records > record_count {
                record_count = records;
            }
            i += 1;
        }
        assert(self.fields.values().take(count as int) =~= self.fields.values());
        self.record_count = record_count;
    }

    /// Opens the index at `index_path` on the field directories that were
    /// found in it.
    pub fn open(index_path: &str, snapshot: &Vec<FieldData>) -> (opened: Result<Index, IndexError>)
        ensures
            match opened {
                Ok(index) => index.wf() && index.path_text() == index_path@ && fields_outcome(
                    Map::empty(),
                    snapshot@,
                ) == Ok::<Map<Seq<u8>, Seq<SegmentEntry>>, IndexError>(index@),
                Err(error) => fields_outcome(Map::empty(), snapshot@) == Err::<
                    Map<Seq<u8>, Seq<SegmentEntry>>,
                    IndexError,
                >(error),
            },
    {
        let mut index = Index {
            path: index_path.to_owned(),
            fields: SortedMap::new(),
            record_count: 0,
        };
        assert(index@ =~= Map::<Seq<u8>, Seq<SegmentEntry>>::empty());
        match index.reload(snapshot) {
            Ok(()) => Ok(index),
            Err(error) => Err(error),
        }
    }

    /// Takes the field directories of the index, one after the other: a
    /// field that is not known yet gets a reader, and the reader of every
    /// field reloads from the directories given for it. Then the number of
    /// records is the largest among the fields. The first segment that does
    /// not open ends the reload with its error; what was loaded before it
    /// stays.
    pub fn reload(&mut self, snapshot: &Vec<FieldData>) -> (done: Result<(), IndexError>)
        requires
            old(self).wf(),
        ensures
            final(self).wf(),
            final(self).path_text() == old(self).path_text(),
            final(self)@ == fields_reached(old(self)@, snapshot@),
            match done {
                Ok(()) => fields_outcome(old(self)@, snapshot@) == Ok::<
                    Map<Seq<u8>, Seq<SegmentEntry>>,
                    IndexError,
                >(final(self)@),
                Err(error) => fields_outcome(old(self)@, snapshot@) == Err::<
                    Map<Seq<u8>, Seq<SegmentEntry>>,
                    IndexError,
                >(error),
            },
    {
        let count = snapshot.len();
        let mut i: usize = 0;
        assert(snapshot@.skip(0) =~= snapshot@);
        while i < count
            invariant
                0 <= i <= count == snapshot@.len(),
                self.fields.wf(),
                self.path == old(self).path,
                forall|j: int|
                    0 <= j < self.fields.values().len() ==> (#[trigger] self.fields.values()[j]).wf(),
                fields_outcome(old(self)@, snapshot@) == fields_outcome(self@, snapshot@.skip(i as int)),
                fields_reached(old(self)@, snapshot@) == fields_reached(self@, snapshot@.skip(i as int)),
            decreases count - i,
        {
            let ghost before = *self;
            let ghost keys = before.fields.keys();
            let ghost values = before.fields.values();
            let field = &snapshot[i];
            proof {
                assert(snapshot@.skip(i as int).first() == snapshot@[i as int]);
                assert(snapshot@.skip(i as int).drop_first() =~= snapshot@.skip(i + 1));
            }
            let (at, found) = self.fields.search(field.name.as_slice());
            if !found {
                let fresh = FieldReader::open();
                proof {
                    lemma_lookup_insert(keys, values, field.name@, fresh);
                }
                self.fields.insert_at(at, slice_to_vec(field.name.as_slice()), fresh);
                proof {
                    let grown = self.fields.values();
                    assert forall|j: int| 0 <= j < grown.len() implies (#[trigger] grown[j]).wf() by {
                        if j < at {
                            assert(grown[j] == values[j]);
                        } else if j > at {
                            assert(grown[j] == values[j - 1]);
                        }
                    }
                }
            }
            let ghost grown = *self;
            let ghost grown_keys = grown.fields.keys();
            let ghost grown_values = grown.fields.values();
            proof {
                lemma_lookup_at(grown_keys, grown_values, at as int);
                assert(grown_values[at as int]@ == segments_of(before@, field.name@));
            }
            let field_reader = self.fields.value_at_mut(at);
            let loaded = field_reader.reload(&field.segments);
            proof {
                let changed = self.fields.values();
                lemma_lookup_update(grown_keys, grown_values, at as int, changed[at as int]);
                assert forall|j: int| 0 <= j < changed.len() implies (#[trigger] changed[j]).wf() by {
                    if j != at {
                        assert(changed[j] == grown_values[j]);
                    }
                }
                assert(self@ =~= before@.insert(field.name@, changed[at as int]@));
            }
            match loaded {
                Ok(()) => {},
                Err(error) => {
                    self.refresh();
                    return Err(error);
                },
            }
            i += 1;
        }
        self.refresh();
        Ok(())
    }

    /// The path of the index directory.
    pub fn path(&self) -> (path: &str)
        ensures
            path@ == self.path_text(),
    {
        self.path.as_str()
    }

    /// The number of records: the global id that the first document of the
    /// next batch gets.
    pub fn record_count(&self) -> (count: u64)
        requires
            self.wf(),
        ensures
            count == self.records(),
            is_record_count(self@, count as nat),
    {
        proof {
            self.lemma_wf();
        }
        self.record_count
    }

    /// The number of fields.
    pub fn len(&self) -> (count: usize)
        ensures
            count == self.names().len(),
    {
        self.fields.len()
    }

    /// The name of the field at place `at` in ascending order.
    pub fn name_at(&self, at: usize) -> (name: &Vec<u8>)
        requires
            at < self.names().len(),
        ensures
            name@ == self.names()[at as int],
    {
        self.fields.key_at(at)
    }

    /// The reader of the field `name`, if the index knows the field.
    pub fn field(&self, name: &[u8]) -> (reader: Option<&FieldReader>)
        requires
            self.wf(),
        ensures
            match reader {
                Some(r) => r.wf() && self@.contains_key(name@) && self@[name@] == r@,
                None => !self@.contains_key(name@),
            },
    {
        let (at, found) = self.fields.search(name);
        if found {
            proof {
                lemma_lookup_at(self.fields.keys(), self.fields.values(), at as int);
            }
            Some(self.fields.value_at(at))
        } else {
            None
        }
    }

    /// The places of a listing of the directories of the field `name` at
    /// which a directory is to be read before the next reload.
    pub fn pending(&self, name: &[u8], listing: &Vec<Vec<u8>>) -> (places: Vec<usize>)
        requires
            self.wf(),
        ensures
            forall|i: int, j: int| 0 <= i < j < places@.len() ==> places@[i] < places@[j],
            forall|i: int|
                0 <= i < places@.len() ==> is_pending(
                    segments_of(self@, name@),
                    listing@,
                    (#[trigger] places@[i]) as int,
                ),
            forall|at: int|
                is_pending(segments_of(self@, name@), listing@, at) ==> #[trigger] places@.contains(
                    at as usize,
                ),
    {
        match self.field(name) {
            Some(reader) => reader.pending(listing),
            None => FieldReader::open().pending(listing),
        }
    }

    /// Runs a query against the fields of the index. Queries are not
    /// evaluated yet, so nothing comes of it.
    pub fn find(&self, query: &Query) -> (done: Result<(), IndexError>)
        ensures
            done is Ok,
    {
        let _ = query.execute(self);
        Ok(())
    }

    /// Makes of a batch of documents the segments that are to be written:
    /// one entry for each field of the batch, with the segment of the field
    /// or the reason for which it could not be made. Their offset is the
    /// number of records of the index. Only a batch whose document ids do
    /// not fit the format is refused as a whole. The index itself learns of
    /// the documents when it reloads after the segments were committed.
    pub fn put(&self, documents: &Vec<Document>, seconds: u64, nanos: u32) -> (done: Result<
        Vec<FieldSegment>,
        IndexError,
    >)
        requires
            self.wf(),
            forall|d: int| 0 <= d < documents@.len() ==> (#[trigger] documents@[d]).wf(),
        ensures
            done is Ok <==> documents@.len() <= u32::MAX && self.records() + documents@.len()
                <= u64::MAX,
            match done {
                Ok(entries) => batch_segments(
                    entries@,
                    document_views(documents@),
                    SegmentName {
                        uuid: uuid_from_time(42, seconds, nanos, seq![1u8, 2u8, 3u8, 4u8, 5u8, 6u8]),
                        offset: self.records() as u64,
                        count: documents@.len() as u32,
                    },
                ),
                Err(error) => error == IndexError::TooLarge,
            },
    {
        SegmentWriter::index(self.record_count, documents, seconds, nanos)
    }
}

/// Every directory of the snapshot that has the name of a committed segment
/// is loaded in `model`, under a field that `model` knows.
pub open spec fn holds_snapshot(model: Map<Seq<u8>, Seq<SegmentEntry>>, snapshot: Seq<FieldData>) -> bool {
    forall|i: int|
        0 <= i < snapshot.len() ==> model.contains_key((#[trigger] snapshot[i]).name@) && forall|
            k: int,
        |
            0 <= k < snapshot[i].segments@.len() && segment_name_value(
                (#[trigger] snapshot[i].segments@[k]).name@,
            ) is Some ==> has_segment(
                model[snapshot[i].name@],
                segment_name_value(snapshot[i].segments@[k].name@)->0.uuid,
            )
}

/// A segment that is among some segments is among every longer list of
/// them.
pub proof fn lemma_has_segment_extends(
    longer: Seq<SegmentEntry>,
    model: Seq<SegmentEntry>,
    uuid: u128,
)
    requires
        extends(longer, model),
        has_segment(model, uuid),
    ensures
        has_segment(longer, uuid),
{
    let i = choose|i: int| 0 <= i < model.len() && (#[trigger] model[i]).name.uuid == uuid;
    assert(longer[i].name.uuid == uuid);
}

/// A reload of the index only adds: every field keeps its segments, in
/// their order. After it, every directory of the snapshot that has the name
/// of a committed segment is loaded.
pub proof fn lemma_index_reload_adds(
    model: Map<Seq<u8>, Seq<SegmentEntry>>,
    snapshot: Seq<FieldData>,
    after: Map<Seq<u8>, Seq<SegmentEntry>>,
)
    requires
        fields_outcome(model, snapshot) == Ok::<Map<Seq<u8>, Seq<SegmentEntry>>, IndexError>(after),
    ensures
        forall|name: Seq<u8>| model.contains_key(name) ==> after.contains_key(name),
        forall|name: Seq<u8>| #[trigger] extends(segments_of(after, name), segments_of(model, name)),
        holds_snapshot(after, snapshot),
    decreases snapshot.len(),
{
    if snapshot.len() > 0 {
        let field = snapshot.first();
        let rest = snapshot.drop_first();
        let segments = reload_outcome(segments_of(model, field.name@), field.segments@)->Ok_0;
        let next = model.insert(field.name@, segments);
        lemma_reload_adds_named_segments(segments_of(model, field.name@), field.segments@, segments);
        lemma_index_reload_adds(next, rest, after);
        assert forall|name: Seq<u8>| #[trigger]
            extends(segments_of(after, name), segments_of(model, name)) by {
            assert(extends(segments_of(after, name), segments_of(next, name)));
            assert(extends(segments_of(next, name), segments_of(model, name)));
        }
        assert forall|i: int| 0 <= i < snapshot.len() implies after.contains_key(
            (#[trigger] snapshot[i]).name@,
        ) && forall|k: int|
            0 <= k < snapshot[i].segments@.len() && segment_name_value(
                (#[trigger] snapshot[i].segments@[k]).name@,
            ) is Some ==> has_segment(
                after[snapshot[i].name@],
                segment_name_value(snapshot[i].segments@[k].name@)->0.uuid,
            ) by {
            if i == 0 {
                assert(next.contains_key(field.name@));
                assert(extends(segments_of(after, field.name@), segments_of(next, field.name@)));
                assert forall|k: int|
                    0 <= k < field.segments@.len() && segment_name_value(
                        (#[trigger] field.segments@[k]).name@,
                    ) is Some implies has_segment(
                    after[field.name@],
                    segment_name_value(field.segments@[k].name@)->0.uuid,
                ) by {
                    lemma_has_segment_extends(
                        after[field.name@],
                        segments,
                        segment_name_value(field.segments@[k].name@)->0.uuid,
                    );
                }
            } else {
                assert(snapshot[i] == rest[i - 1]);
            }
        }
    }
}

/// Reloading the index changes nothing where every directory of the
/// snapshot that has the name of a committed segment is loaded already.
pub proof fn lemma_index_reload_of_loaded(
    model: Map<Seq<u8>, Seq<SegmentEntry>>,
    snapshot: Seq<FieldData>,
)
    requires
        holds_snapshot(model, snapshot),
    ensures
        fields_outcome(model, snapshot) == Ok::<Map<Seq<u8>, Seq<SegmentEntry>>, IndexError>(model),
    decreases snapshot.len(),
{
    if snapshot.len() > 0 {
        let field = snapshot.first();
        let rest = snapshot.drop_first();
        assert(snapshot[0] == field);
        lemma_reload_of_loaded(model[field.name@], field.segments@);
        assert(model.insert(field.name@, model[field.name@]) =~= model);
        assert forall|i: int| 0 <= i < rest.len() implies model.contains_key(
            (#[trigger] rest[i]).name@,
        ) && forall|k: int|
            0 <= k < rest[i].segments@.len() && segment_name_value(
                (#[trigger] rest[i].segments@[k]).name@,
            ) is Some ==> has_segment(
                model[rest[i].name@],
                segment_name_value(rest[i].segments@[k].name@)->0.uuid,
            ) by {
            assert(snapshot[i + 1] == rest[i]);
        }
        lemma_index_reload_of_loaded(model, rest);
    }
}

/// A second reload of the index from the same directories leaves the
/// segments of every field as the first reload left them; the number of
/// records, which is computed from them, stays with them.
pub proof fn lemma_index_reload_twice(
    model: Map<Seq<u8>, Seq<SegmentEntry>>,
    snapshot: Seq<FieldData>,
    after: Map<Seq<u8>, Seq<SegmentEntry>>,
)
    requires
        fields_outcome(model, snapshot) == Ok::<Map<Seq<u8>, Seq<SegmentEntry>>, IndexError>(after),
    ensures
        fields_outcome(after, snapshot) == Ok::<Map<Seq<u8>, Seq<SegmentEntry>>, IndexError>(after),
{
    lemma_index_reload_adds(model, snapshot, after);
    lemma_index_reload_of_loaded(after, snapshot);
}

/// `after` is what an index holds once a batch was committed under the name
/// `name` and loaded: every field holds what it held in `model`, and one
/// field or more hold the segment `name` after that.
pub open spec fn committed(
    model: Map<Seq<u8>, Seq<SegmentEntry>>,
    after: Map<Seq<u8>, Seq<SegmentEntry>>,
    name: SegmentName,
) -> bool {
    &&& forall|field: Seq<u8>| model.contains_key(field) ==> after.contains_key(field)
    &&& forall|field: Seq<u8>| #[trigger]
        after.contains_key(field) ==> after[field] == segments_of(model, field) || (
        after[field].len() > 0 && after[field].drop_last() == segments_of(model, field)
            && after[field].last().name == name)
    &&& exists|field: Seq<u8>| #[trigger]
        after.contains_key(field) && after[field].len() > 0 && after[field].drop_last()
            == segments_of(model, field) && after[field].last().name == name
}

/// The global ids go on from batch to batch: a batch is written at the
/// number of records of the index, and once it is committed and loaded the
/// number of records is larger by the number of its documents.
pub proof fn lemma_commit_raises_record_count(
    model: Map<Seq<u8>, Seq<SegmentEntry>>,
    after: Map<Seq<u8>, Seq<SegmentEntry>>,
    name: SegmentName,
)
    requires
        is_record_count(model, name.offset as nat),
        committed(model, after, name),
    ensures
        is_record_count(after, (name.offset + name.count) as nat),
{
    let grown = (name.offset + name.count) as nat;
    assert forall|field: Seq<u8>| after.contains_key(field) implies max_end(
        #[trigger] after[field],
    ) <= grown by {
        let held = segments_of(model, field);
        if !model.contains_key(field) {
            assert(max_end(held) == 0);
        }
        if after[field] != held {
            assert(after[field] =~= held.push(after[field].last()));
            lemma_max_end_push(held, after[field].last());
        }
    }
    let field = choose|field: Seq<u8>| #[trigger]
        after.contains_key(field) && after[field].len() > 0 && after[field].drop_last()
            == segments_of(model, field) && after[field].last().name == name;
    let held = segments_of(model, field);
    if !model.contains_key(field) {
        assert(max_end(held) == 0);
    }
    assert(after[field] =~= held.push(after[field].last()));
    lemma_max_end_push(held, after[field].last());
    assert(max_end(after[field]) == grown);
}

/// The field directory holds one directory, whose name says `name` and
/// whose files open as a segment.
pub open spec fn holds_commit(data: FieldData, name: SegmentName) -> bool {
    &&& data.segments@.len() == 1
    &&& segment_name_value(data.segments@[0].name@) == Some(name)
    &&& open_outcome(data.segments@[0].fst@, data.segments@[0].dox@, data.segments@[0].docs@) is Ok
}

/// The segment that a reader holds after it loaded the one directory of a
/// field directory.
pub open spec fn commit_entry(data: FieldData, name: SegmentName) -> SegmentEntry {
    SegmentEntry {
        name,
        docs: open_outcome(
            data.segments@[0].fst@,
            data.segments@[0].dox@,
            data.segments@[0].docs@,
        )->Ok_0,
    }
}

/// The field directory is what committing the entry of a batch leaves: it
/// has the name of the entry's field and one directory, whose name says
/// `name` and whose files are those of the entry.
pub open spec fn commits(data: FieldData, entry: FieldSegment, name: SegmentName) -> bool {
    &&& entry.outcome is Ok
    &&& data.name@ == entry.field@
    &&& data.segments@.len() == 1
    &&& segment_name_value(data.segments@[0].name@) == Some(name)
    &&& data.segments@[0].fst@ == entry.outcome->Ok_0.fst@
    &&& data.segments@[0].dox@ == entry.outcome->Ok_0.dox@
    &&& data.segments@[0].docs@ == entry.outcome->Ok_0.docs@
}

/// Whether one of the field directories is that of the field `field`.
pub open spec fn lists_field(snapshot: Seq<FieldData>, field: Seq<u8>) -> bool {
    exists|i: int| 0 <= i < snapshot.len() && (#[trigger] snapshot[i]).name@ == field
}

/// Reloading from field directories that hold one new segment each, all
/// under the name `name`, adds that segment to each of their fields and
/// leaves every other field as it was.
pub proof fn lemma_reload_of_commit(
    model: Map<Seq<u8>, Seq<SegmentEntry>>,
    snapshot: Seq<FieldData>,
    name: SegmentName,
)
    requires
        forall|i: int| 0 <= i < snapshot.len() ==> holds_commit(#[trigger] snapshot[i], name),
        forall|i: int, j: int|
            0 <= i < j < snapshot.len() ==> (#[trigger] snapshot[i]).name@ != (
            #[trigger] snapshot[j]).name@,
        forall|i: int|
            0 <= i < snapshot.len() ==> !has_segment(
                segments_of(model, (#[trigger] snapshot[i]).name@),
                name.uuid,
            ),
    ensures
        fields_outcome(model, snapshot) is Ok,
        forall|field: Seq<u8>|
            model.contains_key(field) ==> fields_outcome(model, snapshot)->Ok_0.contains_key(field),
        forall|i: int|
            0 <= i < snapshot.len() ==> fields_outcome(model, snapshot)->Ok_0.contains_key(
                (#[trigger] snapshot[i]).name@,
            ) && fields_outcome(model, snapshot)->Ok_0[snapshot[i].name@] == segments_of(
                model,
                snapshot[i].name@,
            ).push(commit_entry(snapshot[i], name)),
        forall|field: Seq<u8>|
            #[trigger] fields_outcome(model, snapshot)->Ok_0.contains_key(field) && !lists_field(
                snapshot,
                field,
            ) ==> model.contains_key(field) && fields_outcome(model, snapshot)->Ok_0[field]
                == model[field],
    decreases snapshot.len(),
{
    if snapshot.len() > 0 {
        let first = snapshot.first();
        let rest = snapshot.drop_first();
        let held = segments_of(model, first.name@);
        let entry = first.segments@[0];
        assert(holds_commit(snapshot[0], name));
        assert(first.segments@.first() == entry);
        assert(first.segments@.drop_first().len() == 0);
        let grown = held.push(commit_entry(first, name));
        assert(load_outcome(held, entry) == Ok::<Seq<SegmentEntry>, IndexError>(grown));
        assert(reload_outcome(grown, first.segments@.drop_first()) == Ok::<
            Seq<SegmentEntry>,
            IndexError,
        >(grown));
        assert(reload_outcome(held, first.segments@) == Ok::<Seq<SegmentEntry>, IndexError>(grown));
        let next = model.insert(first.name@, grown);
        assert forall|i: int| 0 <= i < rest.len() implies holds_commit(#[trigger] rest[i], name) by {
            assert(rest[i] == snapshot[i + 1]);
        }
        assert forall|i: int, j: int| 0 <= i < j < rest.len() implies (#[trigger] rest[i]).name@ != (
        #[trigger] rest[j]).name@ by {
            assert(rest[i] == snapshot[i + 1] && rest[j] == snapshot[j + 1]);
        }
        assert forall|i: int| 0 <= i < rest.len() implies !has_segment(
            segments_of(next, (#[trigger] rest[i]).name@),
            name.uuid,
        ) by {
            assert(rest[i] == snapshot[i + 1]);
            assert(snapshot[0].name@ != snapshot[i + 1].name@);
        }
        lemma_reload_of_commit(next, rest, name);
        let after = fields_outcome(next, rest)->Ok_0;
        assert(fields_outcome(model, snapshot) == fields_outcome(next, rest));
        assert forall|i: int| 0 <= i < snapshot.len() implies after.contains_key(
            (#[trigger] snapshot[i]).name@,
        ) && after[snapshot[i].name@] == segments_of(model, snapshot[i].name@).push(
            commit_entry(snapshot[i], name),
        ) by {
            if i == 0 {
                assert(next.contains_key(first.name@));
                if lists_field(rest, first.name@) {
                    let k = choose|k: int| 0 <= k < rest.len() && (#[trigger] rest[k]).name@ == first.name@;
                    assert(rest[k] == snapshot[k + 1]);
                    assert(snapshot[0].name@ != snapshot[k + 1].name@);
                }
                assert(after.contains_key(first.name@));
            } else {
                assert(rest[i - 1] == snapshot[i]);
                assert(snapshot[0].name@ != snapshot[i].name@);
            }
        }
        assert forall|field: Seq<u8>|
            #[trigger] after.contains_key(field) && !lists_field(snapshot, field) implies model.contains_key(
            field,
        ) && after[field] == model[field] by {
            assert(snapshot[0].name@ != field);
            if lists_field(rest, field) {
                let k = choose|k: int| 0 <= k < rest.len() && (#[trigger] rest[k]).name@ == field;
                assert(rest[k] == snapshot[k + 1]);
                assert(snapshot[k + 1].name@ == field);
            }
            assert(next.contains_key(field) && after[field] == next[field]);
        }
        assert forall|field: Seq<u8>| model.contains_key(field) implies after.contains_key(field) by {
            assert(next.contains_key(field));
        }
    }
}

/// The global ids go on from put to put. An index holds `model` and counts
/// `name.offset` records; a batch with at least one field is put, every
/// field gets its segment, and each segment is committed as one directory
/// whose name says `name`, a segment that no field of the batch holds yet.
/// Then the reload succeeds on a 64-bit target, and after it the index
/// counts the records it counted before and the documents of the batch.
pub proof fn lemma_put_then_reload(
    model: Map<Seq<u8>, Seq<SegmentEntry>>,
    entries: Seq<FieldSegment>,
    views: Seq<Map<Seq<u8>, Map<Seq<u8>, Seq<u32>>>>,
    name: SegmentName,
    snapshot: Seq<FieldData>,
)
    requires
        usize::BITS == 64,
        is_record_count(model, name.offset as nat),
        batch_segments(entries, views, name),
        entries.len() > 0,
        snapshot.len() == entries.len(),
        forall|i: int| 0 <= i < entries.len() ==> commits(#[trigger] snapshot[i], entries[i], name),
        forall|i: int|
            0 <= i < entries.len() ==> !has_segment(
                segments_of(model, (#[trigger] entries[i]).field@),
                name.uuid,
            ),
    ensures
        fields_outcome(model, snapshot) is Ok,
        committed(model, fields_outcome(model, snapshot)->Ok_0, name),
        is_record_count(fields_outcome(model, snapshot)->Ok_0, (name.offset + name.count) as nat),
{
    assert forall|i: int| 0 <= i < snapshot.len() implies holds_commit(#[trigger] snapshot[i], name) by {
        assert(commits(snapshot[i], entries[i], name));
        assert(field_written(entries[i], views, name));
        let map = choose|map: crate::postings::TermMap|
            describes(map, views, entries[i].field@) && #[trigger] encoded(
                entries[i].outcome,
                entries[i].field@,
                name,
                map,
            );
        lemma_bitmaps_come_back(entries[i].outcome->Ok_0@, map);
    }
    assert forall|i: int, j: int| 0 <= i < j < snapshot.len() implies (#[trigger] snapshot[i]).name@
        != (#[trigger] snapshot[j]).name@ by {
        assert(commits(snapshot[i], entries[i], name));
        assert(commits(snapshot[j], entries[j], name));
        crate::order::lemma_lt_asymmetric(entries[i].field@, entries[j].field@);
    }
    assert forall|i: int| 0 <= i < snapshot.len() implies !has_segment(
        segments_of(model, (#[trigger] snapshot[i]).name@),
        name.uuid,
    ) by {
        assert(commits(snapshot[i], entries[i], name));
        assert(!has_segment(segments_of(model, entries[i].field@), name.uuid));
    }
    lemma_reload_of_commit(model, snapshot, name);
    let after = fields_outcome(model, snapshot)->Ok_0;
    assert forall|field: Seq<u8>| #[trigger] after.contains_key(field) implies after[field]
        == segments_of(model, field) || (after[field].len() > 0 && after[field].drop_last()
        == segments_of(model, field) && after[field].last().name == name) by {
        if lists_field(snapshot, field) {
            let i = choose|i: int| 0 <= i < snapshot.len() && (#[trigger] snapshot[i]).name@ == field;
            assert(after[field].drop_last() =~= segments_of(model, field));
        }
    }
    assert(after.contains_key(snapshot[0].name@));
    assert(after[snapshot[0].name@].drop_last() =~= segments_of(model, snapshot[0].name@));
    lemma_commit_raises_record_count(model, after, name);
}

} // verus!
