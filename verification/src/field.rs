//! The segments of one field. A reader learns of segments from the names of
//! the directories of the field: a name that is the name of a committed
//! segment is loaded once, every other name is passed over.

use vstd::prelude::*;
use vstd::slice::slice_to_vec;
use crate::error::IndexError;
use crate::naming::{lemma_temp_is_no_segment, segment_name_value, temp_suffix, SegmentName};
use crate::reader::{open_outcome, SegmentReader};

verus! {

/// A directory of a field as its reader is handed it: the name of the
/// directory and the contents of the files `fst`, `dox` and `docs` in it.
pub struct SegmentData {
    pub name: Vec<u8>,
    pub fst: Vec<u8>,
    pub dox: Vec<u8>,
    pub docs: Vec<u8>,
}

/// What a reader holds of one segment: what its name says, and the document
/// set of every term.
pub ghost struct SegmentEntry {
    pub name: SegmentName,
    pub docs: Seq<Set<u32>>,
}

/// Whether the segment `uuid` is among `model`.
pub open spec fn has_segment(model: Seq<SegmentEntry>, uuid: u128) -> bool {
    exists|i: int| 0 <= i < model.len() && (#[trigger] model[i]).name.uuid == uuid
}

/// The number of records of a field: the largest global id that follows the
/// last document of one of its segments, 0 without segments.
pub open spec fn max_end(model: Seq<SegmentEntry>) -> nat
    decreases model.len(),
{
    if model.len() == 0 {
        0
    } else {
        let rest = max_end(model.drop_last());
        let end = (model.last().name.offset + model.last().name.count) as nat;
        if end > rest {
            end
        } else {
            rest
        }
    }
}

/// What a reader holds after it was handed one directory: what it held
/// before, where the name is not that of a committed segment or the segment
/// is loaded already; one more segment, where the segment opens; the error,
/// where it does not.
pub open spec fn load_outcome(model: Seq<SegmentEntry>, entry: SegmentData) -> Result<
    Seq<SegmentEntry>,
    IndexError,
> {
    match segment_name_value(entry.name@) {
        None => Ok(model),
        Some(name) => if has_segment(model, name.uuid) {
            Ok(model)
        } else {
            match open_outcome(entry.fst@, entry.dox@, entry.docs@) {
                Ok(docs) => Ok(model.push(SegmentEntry { name, docs })),
                Err(error) => Err(error),
            }
        },
    }
}

/// What a reader holds after it was handed the directories `entries`, one
/// after the other; the first error ends the reload.
pub open spec fn reload_outcome(model: Seq<SegmentEntry>, entries: Seq<SegmentData>) -> Result<
    Seq<SegmentEntry>,
    IndexError,
>
    decreases entries.len(),
{
    if entries.len() == 0 {
        Ok(model)
    } else {
        match load_outcome(model, entries.first()) {
            Ok(next) => reload_outcome(next, entries.drop_first()),
            Err(error) => Err(error),
        }
    }
}

/// What a reader holds when a reload ends: what the directories gave up to
/// the first one that did not open, or all of them.
pub open spec fn reload_reached(model: Seq<SegmentEntry>, entries: Seq<SegmentData>) -> Seq<
    SegmentEntry,
>
    decreases entries.len(),
{
    if entries.len() == 0 {
        model
    } else {
        match load_outcome(model, entries.first()) {
            Ok(next) => reload_reached(next, entries.drop_first()),
            Err(_) => model,
        }
    }
}

/// Whether the directory at place `at` of a listing is to be read: its name
/// is that of a committed segment which is not loaded and which no earlier
/// name of the listing stands for.
pub open spec fn is_pending(model: Seq<SegmentEntry>, listing: Seq<Vec<u8>>, at: int) -> bool {
    &&& 0 <= at < listing.len()
    &&& segment_name_value(listing[at]@) is Some
    &&& !has_segment(model, segment_name_value(listing[at]@)->0.uuid)
    &&& forall|earlier: int|
        0 <= earlier < at ==> !(#[trigger] segment_name_value(listing[earlier]@) is Some
            && segment_name_value(listing[earlier]@)->0.uuid == segment_name_value(
            listing[at]@,
        )->0.uuid)
}

/// One more segment raises the number of records to its end, if that is
/// larger.
pub proof fn lemma_max_end_push(model: Seq<SegmentEntry>, entry: SegmentEntry)
    ensures
        max_end(model.push(entry)) == if entry.name.offset + entry.name.count > max_end(model) {
            (entry.name.offset + entry.name.count) as nat
        } else {
            max_end(model)
        },
{
    assert(model.push(entry).drop_last() =~= model);
}

/// The segments of one field that were loaded, and the number of records
/// that they account for.
pub struct FieldReader {
    names: Vec<SegmentName>,
    segments: Vec<SegmentReader>,
    record_count: u64,
}

impl View for FieldReader {
    type V = Seq<SegmentEntry>;

    /// The segments in the order in which they were loaded.
    closed spec fn view(&self) -> Seq<SegmentEntry> {
        Seq::new(
            self.names@.len(),
            |i: int| SegmentEntry { name: self.names@[i], docs: self.segments@[i].docs() },
        )
    }
}

impl FieldReader {
    /// No segment is there twice, every segment stands under what its name
    /// says, and the number of records is the largest end of a segment.
    pub closed spec fn wf(self) -> bool {
        &&& self.names@.len() == self.segments@.len()
        &&& forall|i: int, j: int|
            0 <= i < j < self.names@.len() ==> (#[trigger] self.names@[i]).uuid != (
            #[trigger] self.names@[j]).uuid
        &&& forall|i: int|
            0 <= i < self.names@.len() ==> {
                &&& (#[trigger] self.segments@[i]).wf()
                &&& self.segments@[i].offset() == self.names@[i].offset
                &&& self.segments@[i].doc_count() == self.names@[i].count
            }
        &&& self.record_count == max_end(self@)
    }

    /// A reader that has loaded nothing.
    pub fn open() -> (reader: FieldReader)
        ensures
            reader.wf(),
            reader@ == Seq::<SegmentEntry>::empty(),
    {
        let reader = FieldReader { names: Vec::new(), segments: Vec::new(), record_count: 0 };
        assert(reader@ =~= Seq::<SegmentEntry>::empty());
        reader
    }

    /// The number of records: the global id that the next document gets.
    pub fn record_count(&self) -> (count: u64)
        requires
            self.wf(),
        ensures
            count == max_end(self@),
    {
        self.record_count
    }

    /// The number of segments.
    pub fn len(&self) -> (count: usize)
        ensures
            count == self@.len(),
    {
        self.names.len()
    }

    /// What the name of the segment at place `at` says.
    pub fn name_at(&self, at: usize) -> (name: SegmentName)
        requires
            at < self@.len(),
        ensures
            name == self@[at as int].name,
    {
        self.names[at]
    }

    /// The segment at place `at`.
    pub fn segment_at(&self, at: usize) -> (segment: &SegmentReader)
        requires
            self.wf(),
            at < self@.len(),
        ensures
            segment.wf(),
            segment.docs() == self@[at as int].docs,
            segment.offset() == self@[at as int].name.offset,
            segment.doc_count() == self@[at as int].name.count,
    {
        &self.segments[at]
    }

    /// Whether the segment `uuid` is loaded.
    pub fn has(&self, uuid: u128) -> (found: bool)
        ensures
            found == has_segment(self@, uuid),
    {
        let count = self.names.len();
        let mut i: usize = 0;
        while i < count
            invariant
                0 <= i <= count == self.names@.len(),
                forall|j: int| 0 <= j < i ==> (#[trigger] self@[j]).name.uuid != uuid,
            decreases count - i,
        {
            if self.names[i].uuid == uuid {
                assert(self@[i as int].name.uuid == uuid);
                return true;
            }
            i += 1;
        }
        false
    }

    /// The places of a listing of the field's directories at which a
    /// directory is to be read, ascending.
    pub fn pending(&self, listing: &Vec<Vec<u8>>) -> (places: Vec<usize>)
        ensures
            forall|i: int, j: int| 0 <= i < j < places@.len() ==> places@[i] < places@[j],
            forall|i: int|
                0 <= i < places@.len() ==> is_pending(self@, listing@, (#[trigger] places@[i]) as int),
            forall|at: int|
                is_pending(self@, listing@, at) ==> #[trigger] places@.contains(at as usize),
    {
        let mut places: Vec<usize> = Vec::new();
        let mut found: Vec<u128> = Vec::new();
        let count = listing.len();
        let mut at: usize = 0;
        while at < count
            invariant
                0 <= at <= count == listing@.len(),
                places@.len() == found@.len(),
                forall|i: int, j: int| 0 <= i < j < places@.len() ==> places@[i] < places@[j],
                forall|i: int| 0 <= i < places@.len() ==> (#[trigger] places@[i]) < at,
                forall|i: int|
                    0 <= i < places@.len() ==> is_pending(self@, listing@, (#[trigger] places@[i]) as int)
                        && segment_name_value(listing@[places@[i] as int]@)->0.uuid == found@[i],
                forall|k: int|
                    0 <= k < at && is_pending(self@, listing@, k) ==> #[trigger] places@.contains(
                        k as usize,
                    ),
            decreases count - at,
        {
            let ghost before = places@;
            let mut take = false;
            match SegmentName::parse(listing[at].as_slice()) {
                Some(name) => {
                    if !self.has(name.uuid) {
                        let mut seen = false;
                        let mut i: usize = 0;
                        while i < found.len()
                            invariant
                                0 <= i <= found@.len(),
                                seen == exists|j: int| 0 <= j < i && #[trigger] found@[j] == name.uuid,
                            decreases found@.len() - i,
                        {
                            if found[i] == name.uuid {
                                seen = true;
                            }
                            i += 1;
                        }
                        proof {
                            if seen {
                                let j = choose|j: int| 0 <= j < found@.len() && #[trigger] found@[j] == name.uuid;
                                let earlier = places@[j] as int;
                                assert(segment_name_value(listing@[earlier]@) is Some);
                                assert(!is_pending(self@, listing@, at as int));
                            } else {
                                assert forall|earlier: int| 0 <= earlier < at implies !(
                                #[trigger] segment_name_value(listing@[earlier]@) is Some
                                    && segment_name_value(listing@[earlier]@)->0.uuid == name.uuid) by {
                                    if segment_name_value(listing@[earlier]@) is Some
                                        && segment_name_value(listing@[earlier]@)->0.uuid
                                        == name.uuid {
                                        lemma_first_of_uuid(self@, listing@, earlier);
                                        let first = choose|first: int|
                                            0 <= first <= earlier && is_pending(self@, listing@, first)
                                                && segment_name_value(listing@[first]@)->0.uuid
                                                == name.uuid;
                                        assert(places@.contains(first as usize));
                                        let j = places@.index_of(first as usize);
                                        assert(found@[j] == name.uuid);
                                    }
                                }
                                assert(is_pending(self@, listing@, at as int));
                            }
                        }
                        take = !seen;
                        if take {
                            found.push(name.uuid);
                        }
                    }
                },
                None => {},
            }
            if take {
                places.push(at);
                proof {
                    assert forall|k: int| 0 <= k < at + 1 && is_pending(self@, listing@, k) implies #[trigger] places@.contains(
                        k as usize,
                    ) by {
                        if k < at {
                            assert(before.contains(k as usize));
                            let j = before.index_of(k as usize);
                            assert(places@[j] == k as usize);
                        } else {
                            assert(places@[before.len() as int] == at);
                        }
                    }
                }
            }
            at += 1;
        }
        places
    }

    /// Takes one directory of the field: a committed segment that is not
    /// loaded yet is opened and added, and the number of records follows;
    /// any other directory is passed over. Says whether a segment was added.
    pub fn load(&mut self, entry: &SegmentData) -> (added: Result<bool, IndexError>)
        requires
            old(self).wf(),
        ensures
            final(self).wf(),
            match added {
                Ok(grown) => load_outcome(old(self)@, *entry) == Ok::<Seq<SegmentEntry>, IndexError>(
                    final(self)@,
                ) && grown == (final(self)@.len() == old(self)@.len() + 1),
                Err(error) => load_outcome(old(self)@, *entry) == Err::<
                    Seq<SegmentEntry>,
                    IndexError,
                >(error) && final(self)@ == old(self)@,
            },
    {
        let name = match SegmentName::parse(entry.name.as_slice()) {
            Some(name) => name,
            None => {
                return Ok(false);
            },
        };
        if self.has(name.uuid) {
            return Ok(false);
        }
        let segment = match SegmentReader::open(
            slice_to_vec(entry.fst.as_slice()),
            entry.dox.as_slice(),
            entry.docs.as_slice(),
            name.offset,
            name.count,
        ) {
            Ok(segment) => segment,
            Err(error) => {
                return Err(error);
            },
        };
        let ghost before = self@;
        let ghost added = SegmentEntry { name, docs: segment.docs() };
        proof {
            lemma_max_end_push(before, added);
        }
        let end = name.end();
        self.names.push(name);
        self.segments.push(segment);
        if end > self.record_count {
            self.record_count = end;
        }
        proof {
            assert(self@ =~= before.push(added));
            assert forall|i: int, j: int| 0 <= i < j < self.names@.len() implies (
            #[trigger] self.names@[i]).uuid != (#[trigger] self.names@[j]).uuid by {
                if j == before.len() {
                    assert(before[i].name.uuid == self.names@[i].uuid);
                }
            }
        }
        Ok(true)
    }

    /// Takes the directories of the field, one after the other. Segments
    /// that are loaded already are not opened again; the first segment that
    /// does not open ends the reload with its error, and the segments
    /// loaded before it stay.
    pub fn reload(&mut self, entries: &Vec<SegmentData>) -> (done: Result<(), IndexError>)
        requires
            old(self).wf(),
        ensures
            final(self).wf(),
            final(self)@ == reload_reached(old(self)@, entries@),
            match done {
                Ok(()) => reload_outcome(old(self)@, entries@) == Ok::<Seq<SegmentEntry>, IndexError>(
                    final(self)@,
                ),
                Err(error) => reload_outcome(old(self)@, entries@) == Err::<
                    Seq<SegmentEntry>,
                    IndexError,
                >(error),
            },
    {
        let count = entries.len();
        let mut i: usize = 0;
        assert(entries@.skip(0) =~= entries@);
        while i < count
            invariant
                0 <= i <= count == entries@.len(),
                self.wf(),
                reload_outcome(old(self)@, entries@) == reload_outcome(self@, entries@.skip(i as int)),
                reload_reached(old(self)@, entries@) == reload_reached(self@, entries@.skip(i as int)),
            decreases count - i,
        {
            proof {
                assert(entries@.skip(i as int).first() == entries@[i as int]);
                assert(entries@.skip(i as int).drop_first() =~= entries@.skip(i + 1));
            }
            match self.load(&entries[i]) {
                Ok(_) => {},
                Err(error) => {
                    return Err(error);
                },
            }
            i += 1;
        }
        Ok(())
    }
}

/// Of the names of a listing that stand for one segment which is not
/// loaded, the first is to be read.
pub proof fn lemma_first_of_uuid(model: Seq<SegmentEntry>, listing: Seq<Vec<u8>>, at: int)
    requires
        0 <= at < listing.len(),
        segment_name_value(listing[at]@) is Some,
        !has_segment(model, segment_name_value(listing[at]@)->0.uuid),
    ensures
        exists|first: int|
            0 <= first <= at && is_pending(model, listing, first) && segment_name_value(
                listing[first]@,
            )->0.uuid == segment_name_value(listing[at]@)->0.uuid,
    decreases at,
{
    let uuid = segment_name_value(listing[at]@)->0.uuid;
    if is_pending(model, listing, at) {
    } else {
        let earlier = choose|earlier: int|
            0 <= earlier < at && #[trigger] segment_name_value(listing[earlier]@) is Some
                && segment_name_value(listing[earlier]@)->0.uuid == uuid;
        lemma_first_of_uuid(model, listing, earlier);
    }
}

/// `longer` holds the segments of `model`, in their order, and maybe more
/// after them.
pub open spec fn extends(longer: Seq<SegmentEntry>, model: Seq<SegmentEntry>) -> bool {
    &&& model.len() <= longer.len()
    &&& forall|i: int| 0 <= i < model.len() ==> longer[i] == model[i]
}

/// The name of some directory among `entries` says `name`.
pub open spec fn named_by(entries: Seq<SegmentData>, name: SegmentName) -> bool {
    exists|i: int| 0 <= i < entries.len() && segment_name_value((#[trigger] entries[i]).name@) == Some(name)
}

/// A directory whose name ends in `.temp` is passed over: the reader holds
/// what it held, and so the number of records stays.
pub proof fn lemma_temp_is_passed_over(model: Seq<SegmentEntry>, entry: SegmentData, stem: Seq<u8>)
    requires
        entry.name@ == stem + temp_suffix(),
    ensures
        load_outcome(model, entry) == Ok::<Seq<SegmentEntry>, IndexError>(model),
{
    lemma_temp_is_no_segment(stem);
}

/// A reload only adds segments, and every segment that it adds stands under
/// what the name of one of the directories says: a name with three parts
/// between dots that can be read. After the reload every directory with such
/// a name is loaded.
pub proof fn lemma_reload_adds_named_segments(
    model: Seq<SegmentEntry>,
    entries: Seq<SegmentData>,
    after: Seq<SegmentEntry>,
)
    requires
        reload_outcome(model, entries) == Ok::<Seq<SegmentEntry>, IndexError>(after),
    ensures
        extends(after, model),
        forall|k: int| model.len() <= k < after.len() ==> named_by(entries, (#[trigger] after[k]).name),
        forall|i: int|
            0 <= i < entries.len() && segment_name_value((#[trigger] entries[i]).name@) is Some
                ==> has_segment(after, segment_name_value(entries[i].name@)->0.uuid),
    decreases entries.len(),
{
    if entries.len() > 0 {
        let first = entries.first();
        let rest = entries.drop_first();
        let next = load_outcome(model, first)->Ok_0;
        lemma_reload_adds_named_segments(next, rest, after);
        assert forall|k: int| model.len() <= k < after.len() implies named_by(
            entries,
            (#[trigger] after[k]).name,
        ) by {
            if k < next.len() {
                assert(after[k] == next[k]);
                assert(segment_name_value(entries[0].name@) == Some(after[k].name));
            } else {
                let i = choose|i: int|
                    0 <= i < rest.len() && segment_name_value((#[trigger] rest[i]).name@) == Some(
                        after[k].name,
                    );
                assert(entries[i + 1] == rest[i]);
            }
        }
        assert forall|i: int|
            0 <= i < entries.len() && segment_name_value(
                (#[trigger] entries[i]).name@,
            ) is Some implies has_segment(after, segment_name_value(entries[i].name@)->0.uuid) by {
            let uuid = segment_name_value(entries[i].name@)->0.uuid;
            if i == 0 {
                assert(has_segment(next, uuid)) by {
                    if !has_segment(model, uuid) {
                        assert(next[model.len() as int].name.uuid == uuid);
                    } else {
                        let j = choose|j: int| 0 <= j < model.len() && (#[trigger] model[j]).name.uuid == uuid;
                        assert(next[j].name.uuid == uuid);
                    }
                }
                let j = choose|j: int| 0 <= j < next.len() && (#[trigger] next[j]).name.uuid == uuid;
                assert(after[j].name.uuid == uuid);
            } else {
                assert(entries[i] == rest[i - 1]);
            }
        }
    }
}

/// Reloading changes nothing where every directory with the name of a
/// committed segment is loaded already.
pub proof fn lemma_reload_of_loaded(model: Seq<SegmentEntry>, entries: Seq<SegmentData>)
    requires
        forall|i: int|
            0 <= i < entries.len() && segment_name_value((#[trigger] entries[i]).name@) is Some
                ==> has_segment(model, segment_name_value(entries[i].name@)->0.uuid),
    ensures
        reload_outcome(model, entries) == Ok::<Seq<SegmentEntry>, IndexError>(model),
    decreases entries.len(),
{
    if entries.len() > 0 {
        let rest = entries.drop_first();
        assert(entries[0] == entries.first());
        assert forall|i: int|
            0 <= i < rest.len() && segment_name_value((#[trigger] rest[i]).name@) is Some implies has_segment(
            model,
            segment_name_value(rest[i].name@)->0.uuid,
        ) by {
            assert(entries[i + 1] == rest[i]);
        }
        lemma_reload_of_loaded(model, rest);
    }
}

/// A second reload from the same directories leaves the segments, and with
/// them the number of records, as the first reload left them.
pub proof fn lemma_reload_twice(
    model: Seq<SegmentEntry>,
    entries: Seq<SegmentData>,
    after: Seq<SegmentEntry>,
)
    requires
        reload_outcome(model, entries) == Ok::<Seq<SegmentEntry>, IndexError>(after),
    ensures
        reload_outcome(after, entries) == Ok::<Seq<SegmentEntry>, IndexError>(after),
{
    lemma_reload_adds_named_segments(model, entries, after);
    lemma_reload_of_loaded(after, entries);
}

/// The number of documents of all segments together.
pub open spec fn total_count(model: Seq<SegmentEntry>) -> nat
    decreases model.len(),
{
    if model.len() == 0 {
        0
    } else {
        total_count(model.drop_last()) + model.last().name.count as nat
    }
}

/// Every segment begins where the segments before it end: its offset is the
/// number of the documents of the segments loaded before it.
pub open spec fn chained(model: Seq<SegmentEntry>) -> bool {
    forall|i: int| 0 <= i < model.len() ==> (#[trigger] model[i]).name.offset == total_count(model.take(i))
}

/// Where every segment of a field begins at the end of the one before it,
/// the number of records of the field, which is the offset of the segment
/// written next, is the number of the documents of all its segments.
pub proof fn lemma_chained_record_count(model: Seq<SegmentEntry>)
    requires
        chained(model),
    ensures
        max_end(model) == total_count(model),
    decreases model.len(),
{
    if model.len() > 0 {
        let rest = model.drop_last();
        assert forall|i: int| 0 <= i < rest.len() implies (#[trigger] rest[i]).name.offset
            == total_count(rest.take(i)) by {
            assert(rest[i] == model[i]);
            assert(rest.take(i) =~= model.take(i));
        }
        lemma_chained_record_count(rest);
        assert(model.take(model.len() - 1) =~= rest);
        assert(model[model.len() - 1].name.offset == total_count(rest));
    }
}

} // verus!
