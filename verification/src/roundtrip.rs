//! What holds of every segment that the writer makes: what was written
//! comes back when the files are read.

use vstd::prelude::*;
use crate::error::IndexError;
use crate::frame::frame_decode;
use crate::layout::{lemma_positions_round_trip, read_positions};
use crate::order::{bytes_lt, strictly_ascending};
use crate::postings::TermMap;
use crate::reader::{open_outcome, term_docs_value};
use crate::writer::{
    describes, holds_map, postings, term_entries, term_lists, term_sets, SegmentImage,
};

verus! {

/// Rows that hold at least one item each hold together at least as many
/// items as there are rows.
pub proof fn lemma_rows_counted<A>(rows: Seq<Seq<A>>)
    requires
        forall|row: int| 0 <= row < rows.len() ==> (#[trigger] rows[row]).len() > 0,
    ensures
        rows.len() <= rows.flatten().len(),
    decreases rows.len(),
{
    if rows.len() > 0 {
        let rest = rows.drop_last();
        assert forall|row: int| 0 <= row < rest.len() implies (#[trigger] rest[row]).len() > 0 by {
            assert(rest[row] == rows[row]);
        }
        lemma_rows_counted(rest);
        assert(rows =~= rest.push(rows.last()));
        rest.lemma_flatten_push(rows.last());
    } else {
        assert(rows.flatten() =~= Seq::<A>::empty());
    }
}

/// The dictionary of a segment is fed the terms in strictly ascending byte
/// order, each with its index: 0 for the first term, then 1, and so on.
pub proof fn lemma_dictionary_entries_ascend(terms: Seq<Seq<u8>>)
    requires
        strictly_ascending(terms),
        terms.len() <= u64::MAX,
    ensures
        term_entries(terms).len() == terms.len(),
        forall|i: int, j: int|
            0 <= i < j < terms.len() ==> bytes_lt(
                (#[trigger] term_entries(terms)[i]).0,
                (#[trigger] term_entries(terms)[j]).0,
            ),
        forall|i: int| 0 <= i < terms.len() ==> (#[trigger] term_entries(terms)[i]).1 == i,
{
    assert forall|i: int, j: int| 0 <= i < j < terms.len() implies bytes_lt(
        (#[trigger] term_entries(terms)[i]).0,
        (#[trigger] term_entries(terms)[j]).0,
    ) by {
        assert(bytes_lt(terms[i], terms[j]));
    }
}

/// Opening a segment that holds a term map succeeds on a 64-bit target, and
/// gives for every term exactly the set of the documents of its postings.
pub proof fn lemma_bitmaps_come_back(image: SegmentImage, map: TermMap)
    requires
        usize::BITS == 64,
        map.wf(),
        holds_map(image, map),
    ensures
        open_outcome(image.fst, image.dox, image.docs) == Ok::<Seq<Set<u32>>, IndexError>(
            term_sets(map),
        ),
        forall|term: int, doc: u32|
            0 <= term < map.terms().len() ==> (#[trigger] term_sets(map)[term].contains(doc)
                <==> exists|k: int|
                0 <= k < map.infos()[term]@.len() && (#[trigger] map.infos()[term]@[k]).0 == doc),
{
    map.lemma_wf();
    let lists = term_lists(map);
    let count = map.terms().len();
    assert forall|term: int| 0 <= term < lists.len() implies (#[trigger] lists[term]).len() > 0 by {
        assert(map.infos()[term]@.len() > 0);
    }
    lemma_rows_counted(lists);
    let lengths = frame_decode(image.dox)->0;
    assert(term_docs_value(lengths, image.docs, count)->0 =~= term_sets(map));
    assert forall|term: int, doc: u32| 0 <= term < map.terms().len() implies (
    #[trigger] term_sets(map)[term].contains(doc) <==> exists|k: int|
        0 <= k < map.infos()[term]@.len() && (#[trigger] map.infos()[term]@[k]).0 == doc) by {
        map.infos()[term].lemma_wf();
    }
}

/// The positions of a term in a document come back from the position files
/// of a segment as they stand in the term map: the same values in the same
/// order.
pub proof fn lemma_positions_come_back(image: SegmentImage, map: TermMap, term: int, rank: int)
    requires
        map.wf(),
        holds_map(image, map),
        0 <= term < map.terms().len(),
        0 <= rank < map.infos()[term]@.len(),
    ensures
        read_positions(
            frame_decode(image.pox)->0,
            frame_decode(image.posx)->0,
            frame_decode(image.posi)->0,
            term,
            rank,
        ) == Some(map.infos()[term]@[rank].1),
{
    map.lemma_wf();
    lemma_positions_round_trip(term_lists(map), term, rank);
}

/// A document that holds a term in a field has a posting for it, with the
/// positions that the document gives, and the posting stands after those of
/// the documents before it.
pub proof fn lemma_posting_of_document(
    views: Seq<Map<Seq<u8>, Map<Seq<u8>, Seq<u32>>>>,
    name: Seq<u8>,
    term: Seq<u8>,
    doc: int,
)
    requires
        0 <= doc < views.len() <= u32::MAX,
        views[doc].contains_key(name),
        views[doc][name].contains_key(term),
    ensures
        postings(views.take(doc), name, term).len() < postings(views, name, term).len(),
        postings(views, name, term)[postings(views.take(doc), name, term).len() as int] == (
            doc as u32,
            views[doc][name][term],
        ),
    decreases views.len(),
{
    let rest = views.drop_last();
    if doc == views.len() - 1 {
        assert(views.take(doc) =~= rest);
    } else {
        lemma_posting_of_document(rest, name, term, doc);
        assert(rest.take(doc) =~= views.take(doc));
    }
}

/// From a batch to the files and back: the positions of a term in a field of
/// a document are read from the segment of the field at the index of the
/// term and at the rank of the document among those that hold the term.
pub proof fn lemma_document_positions_come_back(
    image: SegmentImage,
    map: TermMap,
    views: Seq<Map<Seq<u8>, Map<Seq<u8>, Seq<u32>>>>,
    term: int,
    doc: int,
)
    requires
        describes(map, views, image.field),
        holds_map(image, map),
        0 <= term < map.terms().len(),
        0 <= doc < views.len() <= u32::MAX,
        views[doc].contains_key(image.field),
        views[doc][image.field].contains_key(map.terms()[term]),
    ensures
        read_positions(
            frame_decode(image.pox)->0,
            frame_decode(image.posx)->0,
            frame_decode(image.posi)->0,
            term,
            postings(views.take(doc), image.field, map.terms()[term]).len() as int,
        ) == Some(views[doc][image.field][map.terms()[term]]),
{
    map.lemma_wf();
    let key = map.terms()[term];
    lemma_posting_of_document(views, image.field, key, doc);
    assert(map.postings_of(key) == postings(views, image.field, key));
    let rank = postings(views.take(doc), image.field, key).len() as int;
    lemma_positions_come_back(image, map, term, rank);
}

/// Every posting of a term stands for a document of the batch that holds the
/// term in the field, and carries the positions that the document gives.
pub proof fn lemma_posting_names_document(
    views: Seq<Map<Seq<u8>, Map<Seq<u8>, Seq<u32>>>>,
    name: Seq<u8>,
    term: Seq<u8>,
    rank: int,
)
    requires
        views.len() <= u32::MAX,
        0 <= rank < postings(views, name, term).len(),
    ensures
        ({
            let posting = postings(views, name, term)[rank];
            let doc = posting.0 as int;
            &&& doc < views.len()
            &&& views[doc].contains_key(name)
            &&& views[doc][name].contains_key(term)
            &&& posting.1 == views[doc][name][term]
        }),
    decreases views.len(),
{
    let rest = views.drop_last();
    if rank < postings(rest, name, term).len() {
        lemma_posting_names_document(rest, name, term, rank);
    }
}

/// From a batch to the files and back, on a 64-bit target: the bitmap that
/// is read for a term of a segment holds exactly the documents of the batch
/// that hold the term in the field of the segment.
pub proof fn lemma_document_sets_come_back(
    image: SegmentImage,
    map: TermMap,
    views: Seq<Map<Seq<u8>, Map<Seq<u8>, Seq<u32>>>>,
    term: int,
    doc: u32,
)
    requires
        usize::BITS == 64,
        describes(map, views, image.field),
        holds_map(image, map),
        0 <= term < map.terms().len(),
        views.len() <= u32::MAX,
    ensures
        open_outcome(image.fst, image.dox, image.docs) is Ok,
        open_outcome(image.fst, image.dox, image.docs)->Ok_0[term].contains(doc) <==> doc
            < views.len() && views[doc as int].contains_key(image.field)
            && views[doc as int][image.field].contains_key(map.terms()[term]),
{
    map.lemma_wf();
    lemma_bitmaps_come_back(image, map);
    let key = map.terms()[term];
    let list = postings(views, image.field, key);
    assert(map.postings_of(key) == list);
    assert(map.infos()[term]@ == list);
    if term_sets(map)[term].contains(doc) {
        let rank = choose|k: int| 0 <= k < list.len() && (#[trigger] list[k]).0 == doc;
        lemma_posting_names_document(views, image.field, key, rank);
    }
    if doc < views.len() && views[doc as int].contains_key(image.field)
        && views[doc as int][image.field].contains_key(key) {
        lemma_posting_of_document(views, image.field, key, doc as int);
        let rank = postings(views.take(doc as int), image.field, key).len() as int;
        assert(list[rank].0 == doc);
    }
}

} // verus!
