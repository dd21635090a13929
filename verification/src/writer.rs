//! Writing a segment: the terms of one field of a batch, with their
//! postings, become the contents of the six files of the segment.

use vstd::prelude::*;
use vstd::seq_lib::lemma_flatten_concat;
use vstd::slice::slice_to_vec;
use crate::bitmap::{bitmap_decode, bitmap_to_bytes};
use crate::dictionary::{
    builder_entries, builder_finish, builder_insert, builder_new, dictionary_image,
    dictionary_parse,
};
use crate::document::Document;
use crate::error::IndexError;
use crate::frame::{frame, frame_decode, frame_encode};
use crate::ident::{uuid_from_time, uuid_v1};
use crate::layout::{
    chunks_fit, dox_words, holds_bitmaps, lemma_flatten_row, lemma_flatten_take_grows,
    lemma_holds_bitmaps, lemma_offsets_fit_take, lemma_posx_push, lemma_pox_push, lemma_words_len,
    lemma_words_push, offsets_fit, posi_words, posx_words, pox_words, words_bytes,
};
use crate::le::push_word;
use crate::naming::SegmentName;
use crate::order::bytes_lt;
use crate::postings::{posting_if, FieldMaps, TermInfos, TermMap};

verus! {

/// The position lists of the postings of one term, document after document.
pub open spec fn position_lists(postings: Seq<(u32, Seq<u32>)>) -> Seq<Seq<u32>> {
    Seq::new(postings.len(), |k: int| postings[k].1)
}

/// Counts the positions of a term in all its documents; `None` where there
/// are more than `limit`.
fn positions_total(infos: &TermInfos, limit: u64) -> (total: Option<u64>)
    ensures
        match total {
            Some(n) => n == position_lists(infos@).flatten().len() && n <= limit,
            None => position_lists(infos@).flatten().len() > limit,
        },
{
    let ghost lists = position_lists(infos@);
    let count = infos.len();
    let mut total: u64 = 0;
    let mut k: usize = 0;
    assert(lists.take(0) =~= Seq::<Seq<u32>>::empty());
    while k < count
        invariant
            0 <= k <= count == lists.len(),
            lists == position_lists(infos@),
            total == lists.take(k as int).flatten().len(),
            total <= limit,
        decreases count - k,
    {
        let length = infos.positions_at(k).len();
        proof {
            lemma_flatten_row(lists, k as int);
            lemma_flatten_take_grows(lists, k + 1, lists.len() as int);
            assert(lists.take(lists.len() as int) =~= lists);
        }
        if length as u64 > limit - total {
            return None;
        }
        total = total + length as u64;
        k += 1;
    }
    assert(lists.take(count as int) =~= lists);
    Some(total)
}

/// Writes the records and the positions of one term after those of the
/// position lists `before`, and gives the byte of `posi` that follows them.
fn push_positions(
    posx: &mut Vec<u8>,
    posi: &mut Vec<u8>,
    offset: u32,
    infos: &TermInfos,
    Ghost(before): Ghost<Seq<Seq<u32>>>,
) -> (end: u32)
    requires
        old(posx)@ == words_bytes(posx_words(before)),
        old(posi)@ == words_bytes(before.flatten()),
        offset == 4 * before.flatten().len(),
        4 * (before + position_lists(infos@)).flatten().len() <= u32::MAX,
    ensures
        final(posx)@ == words_bytes(posx_words(before + position_lists(infos@))),
        final(posi)@ == words_bytes((before + position_lists(infos@)).flatten()),
        end == 4 * (before + position_lists(infos@)).flatten().len(),
{
    let ghost lists = position_lists(infos@);
    let ghost all = before + lists;
    let count = infos.len();
    let mut offset = offset;
    let mut k: usize = 0;
    assert(before + lists.take(0) =~= before);
    while k < count
        invariant
            0 <= k <= count == lists.len(),
            lists == position_lists(infos@),
            all == before + lists,
            4 * all.flatten().len() <= u32::MAX,
            posx@ == words_bytes(posx_words(before + lists.take(k as int))),
            posi@ == words_bytes((before + lists.take(k as int)).flatten()),
            offset == 4 * (before + lists.take(k as int)).flatten().len(),
        decreases count - k,
    {
        let positions = infos.positions_at(k);
        let ghost done = before + lists.take(k as int);
        let ghost list = positions@;
        let ghost flat = done.flatten();
        proof {
            assert(list == lists[k as int]);
            assert(before + lists.take(k + 1) =~= done.push(list));
            assert(all.take(before.len() + k + 1) =~= done.push(list));
            assert(all.take(all.len() as int) =~= all);
            lemma_flatten_take_grows(all, before.len() + k + 1, all.len() as int);
            done.lemma_flatten_push(list);
            lemma_posx_push(done, list);
            lemma_words_push(posx_words(done), offset);
            lemma_words_push(posx_words(done).push(offset), list.len() as u32);
        }
        push_word(posx, offset);
        push_word(posx, positions.len() as u32);
        let length = positions.len();
        let mut p: usize = 0;
        assert(flat + list.take(0) =~= flat);
        while p < length
            invariant
                0 <= p <= length == list.len(),
                list == positions@,
                4 * (flat.len() + list.len()) <= u32::MAX,
                posi@ == words_bytes(flat + list.take(p as int)),
                offset == 4 * (flat.len() + p),
            decreases length - p,
        {
            proof {
                lemma_words_push(flat + list.take(p as int), list[p as int]);
                assert((flat + list.take(p as int)).push(list[p as int]) =~= flat + list.take(
                    p + 1,
                ));
            }
            push_word(posi, positions[p]);
            offset = offset + 4;
            p += 1;
        }
        assert(flat + list.take(length as int) =~= flat + list);
        k += 1;
    }
    assert(before + lists.take(count as int) =~= all);
    offset
}

/// The bytes of a buffer that may be missing.
pub open spec fn bytes_of(buffer: Option<Vec<u8>>) -> Option<Seq<u8>> {
    match buffer {
        Some(bytes) => Some(bytes@),
        None => None,
    }
}

/// The position lists of every term of a map, term after term.
pub open spec fn term_lists(map: TermMap) -> Seq<Seq<Seq<u32>>> {
    Seq::new(map.infos().len(), |term: int| position_lists(map.infos()[term]@))
}

/// The document sets of every term of a map, term after term.
pub open spec fn term_sets(map: TermMap) -> Seq<Set<u32>> {
    Seq::new(map.infos().len(), |term: int| map.infos()[term].doc_set())
}

/// The bitmaps of every term of a map as bytes, term after term.
pub open spec fn term_images(map: TermMap) -> Seq<Seq<u8>> {
    Seq::new(map.infos().len(), |term: int| map.infos()[term].image()->0)
}

/// The terms of a map can be written: the bitmap of every term can be
/// serialised, no bitmap is longer than 32 bits can say, and every offset
/// into `posx` and into `posi` fits in 32 bits.
pub open spec fn writable(map: TermMap) -> bool {
    &&& offsets_fit(term_lists(map))
    &&& forall|term: int|
        0 <= term < map.infos().len() ==> (#[trigger] map.infos()[term]).image() is Some
            && map.infos()[term].image()->0.len() <= u32::MAX
}

/// Why the term at place `term` of a map cannot be written after the terms
/// before it, if it cannot: its bitmap cannot be serialised; or the bitmap is
/// longer than 32 bits can say, or an offset up to this term does not fit in
/// 32 bits.
pub open spec fn term_refusal(map: TermMap, term: int) -> Option<IndexError> {
    if map.infos()[term].image() is None {
        Some(IndexError::Io)
    } else if map.infos()[term].image()->0.len() > u32::MAX || !offsets_fit(
        term_lists(map).take(term + 1),
    ) {
        Some(IndexError::TooLarge)
    } else {
        None
    }
}

/// `error` is why the first term of the map that cannot be written cannot.
pub open spec fn first_refusal(map: TermMap, error: IndexError) -> bool {
    exists|term: int|
        0 <= term < map.infos().len() && #[trigger] term_refusal(map, term) == Some(error)
            && forall|earlier: int|
            0 <= earlier < term ==> (#[trigger] term_refusal(map, earlier)) is None
}

/// The entries of the dictionary of a segment: every term with its index.
pub open spec fn term_entries(terms: Seq<Seq<u8>>) -> Seq<(Seq<u8>, u64)> {
    Seq::new(terms.len(), |term: int| (terms[term], term as u64))
}

/// Writes one segment of one field: it takes the terms in ascending order
/// and gathers what goes into the six files.
pub struct SegmentWriter {
    field: Vec<u8>,
    name: SegmentName,
    fst_builder: fst::MapBuilder<Vec<u8>>,
    dox: Vec<u8>,
    pox: Vec<u8>,
    docs: Vec<u8>,
    posx: Vec<u8>,
    posi: Vec<u8>,
    term_idx: u64,
    posx_offset: u32,
    posi_offset: u32,
    lists: Ghost<Seq<Seq<Seq<u32>>>>,
    chunks: Ghost<Seq<Seq<u8>>>,
}

impl SegmentWriter {
    /// The name of the field.
    pub closed spec fn field(self) -> Seq<u8> {
        self.field@
    }

    /// What the name of the committed segment will say.
    pub closed spec fn name(self) -> SegmentName {
        self.name
    }

    /// The terms written so far, each with its index.
    pub closed spec fn entries(self) -> Seq<(Seq<u8>, u64)> {
        builder_entries(self.fst_builder)
    }

    /// The position lists written so far, term after term.
    pub closed spec fn lists(self) -> Seq<Seq<Seq<u32>>> {
        self.lists@
    }

    /// The bitmaps written so far, as bytes, term after term.
    pub closed spec fn chunks(self) -> Seq<Seq<u8>> {
        self.chunks@
    }

    /// The contents of `dox` before compression.
    pub closed spec fn dox(self) -> Seq<u8> {
        self.dox@
    }

    /// The contents of `docs`.
    pub closed spec fn docs(self) -> Seq<u8> {
        self.docs@
    }

    /// The contents of `pox` before compression.
    pub closed spec fn pox(self) -> Seq<u8> {
        self.pox@
    }

    /// The contents of `posx` before compression.
    pub closed spec fn posx(self) -> Seq<u8> {
        self.posx@
    }

    /// The contents of `posi` before compression.
    pub closed spec fn posi(self) -> Seq<u8> {
        self.posi@
    }

    /// The files hold what was written, laid out as the format says, and the
    /// index of every term is its place.
    pub closed spec fn wf(self) -> bool {
        &&& self.entries().len() == self.lists@.len() == self.chunks@.len() == self.term_idx
        &&& forall|term: int| 0 <= term < self.entries().len() ==> (#[trigger] self.entries()[term]).1 == term
        &&& offsets_fit(self.lists@)
        &&& chunks_fit(self.chunks@)
        &&& self.posx_offset == 8 * self.lists@.flatten().len()
        &&& self.posi_offset == 4 * self.lists@.flatten().flatten().len()
        &&& self.pox@ == words_bytes(pox_words(self.lists@))
        &&& self.posx@ == words_bytes(posx_words(self.lists@.flatten()))
        &&& self.posi@ == words_bytes(posi_words(self.lists@.flatten()))
        &&& self.dox@ == words_bytes(dox_words(self.chunks@))
        &&& self.docs@ == self.chunks@.flatten()
    }

    /// What well-formedness says of the files.
    pub proof fn lemma_wf(self)
        requires
            self.wf(),
        ensures
            self.entries().len() == self.lists().len() == self.chunks().len(),
            forall|term: int| 0 <= term < self.entries().len() ==> (#[trigger] self.entries()[term]).1 == term,
            offsets_fit(self.lists()),
            chunks_fit(self.chunks()),
            self.pox() == words_bytes(pox_words(self.lists())),
            self.posx() == words_bytes(posx_words(self.lists().flatten())),
            self.posi() == words_bytes(posi_words(self.lists().flatten())),
            self.dox() == words_bytes(dox_words(self.chunks())),
            self.docs() == self.chunks().flatten(),
    {
    }

    /// The writer stopped at the first term of `map` that cannot be written,
    /// for the reason `error`: it holds the terms before that one.
    pub open spec fn stopped(self, map: TermMap, error: IndexError) -> bool {
        let term = self.entries().len() as int;
        &&& term < map.infos().len()
        &&& term_refusal(map, term) == Some(error)
        &&& forall|earlier: int|
            0 <= earlier < term ==> (#[trigger] term_refusal(map, earlier)) is None
        &&& self.entries() == term_entries(map.terms()).take(term)
        &&& self.lists() == term_lists(map).take(term)
        &&& self.chunks() == term_images(map).take(term)
    }

    /// Why a term cannot be written after what was written, if it cannot:
    /// its bitmap could not be serialised; or an offset or a length would
    /// need more than 32 bits; or the term does not come after the term
    /// written last.
    pub open spec fn refusal(
        self,
        term: Seq<u8>,
        lists: Seq<Seq<u32>>,
        bitmap: Option<Seq<u8>>,
    ) -> Option<IndexError> {
        if bitmap is None {
            Some(IndexError::Io)
        } else if bitmap->0.len() > u32::MAX || !offsets_fit(self.lists().push(lists)) {
            Some(IndexError::TooLarge)
        } else if self.entries().len() > 0 && !bytes_lt(self.entries().last().0, term) {
            Some(IndexError::Format)
        } else {
            None
        }
    }

    /// A writer for the segment `name` of the field `field`, with nothing
    /// written yet.
    pub fn new(field: &[u8], name: SegmentName) -> (writer: SegmentWriter)
        ensures
            writer.wf(),
            writer.field() == field@,
            writer.name() == name,
            writer.entries() == Seq::<(Seq<u8>, u64)>::empty(),
            writer.lists() == Seq::<Seq<Seq<u32>>>::empty(),
            writer.chunks() == Seq::<Seq<u8>>::empty(),
    {
        let writer = SegmentWriter {
            field: slice_to_vec(field),
            name,
            fst_builder: builder_new(),
            dox: Vec::new(),
            pox: Vec::new(),
            docs: Vec::new(),
            posx: Vec::new(),
            posi: Vec::new(),
            term_idx: 0,
            posx_offset: 0,
            posi_offset: 0,
            lists: Ghost(Seq::empty()),
            chunks: Ghost(Seq::empty()),
        };
        proof {
            let lists = Seq::<Seq<Seq<u32>>>::empty();
            let chunks = Seq::<Seq<u8>>::empty();
            assert(lists.flatten() =~= Seq::<Seq<u32>>::empty());
            assert(lists.flatten().flatten() =~= Seq::<u32>::empty());
            assert(chunks.flatten() =~= Seq::<u8>::empty());
            assert(pox_words(lists) =~= Seq::<u32>::empty());
            assert(posx_words(lists.flatten()) =~= Seq::<u32>::empty());
            assert(dox_words(chunks) =~= Seq::<u32>::empty());
        }
        writer
    }

    /// Writes one term: its entry in the dictionary, its bitmap, as the
    /// bytes `bitmap` that serialising it gave, and its positions. A term
    /// that cannot be written leaves the writer as it was.
    pub fn write_term(&mut self, term: &[u8], infos: &TermInfos, bitmap: Option<Vec<u8>>) -> (done:
        Result<(), IndexError>)
        requires
            old(self).wf(),
        ensures
            final(self).wf(),
            final(self).field() == old(self).field(),
            final(self).name() == old(self).name(),
            match done {
                Ok(()) => {
                    &&& old(self).refusal(term@, position_lists(infos@), bytes_of(bitmap)) is None
                    &&& final(self).entries() == old(self).entries().push(
                        (term@, old(self).entries().len() as u64),
                    )
                    &&& final(self).lists() == old(self).lists().push(position_lists(infos@))
                    &&& final(self).chunks() == old(self).chunks().push(bitmap->0@)
                },
                Err(error) => {
                    &&& old(self).refusal(term@, position_lists(infos@), bytes_of(bitmap)) == Some(error)
                    &&& final(self).entries() == old(self).entries()
                    &&& final(self).lists() == old(self).lists()
                    &&& final(self).chunks() == old(self).chunks()
                },
            },
    {
        let ghost lists = self.lists@;
        let ghost chunks = self.chunks@;
        let ghost added = position_lists(infos@);
        let ghost vectors = lists.flatten();
        proof {
            lists.lemma_flatten_push(added);
            vectors.lemma_flatten_push(added.flatten());
            lemma_flatten_concat(vectors, added);
        }
        let bytes = match bitmap {
            Some(bytes) => bytes,
            None => { return Err(IndexError::Io); },
        };
        if bytes.len() > 0xffff_ffff {
            return Err(IndexError::TooLarge);
        }
        let count = infos.len();
        if count as u64 > (0xffff_ffff - self.posx_offset as u64) / 8 {
            return Err(IndexError::TooLarge);
        }
        if positions_total(infos, (0xffff_ffff - self.posi_offset as u64) / 4).is_none() {
            return Err(IndexError::TooLarge);
        }
        proof {
            assert(offsets_fit(lists.push(added)));
            lemma_words_len(pox_words(lists));
            assert(self.pox@.len() == self.pox.len());
        }
        if !builder_insert(&mut self.fst_builder, term, self.term_idx) {
            return Err(IndexError::Format);
        }
        proof {
            lemma_words_push(dox_words(chunks), bytes@.len() as u32);
            assert(dox_words(chunks.push(bytes@)) =~= dox_words(chunks).push(bytes@.len() as u32));
            chunks.lemma_flatten_push(bytes@);
            lemma_pox_push(lists, added);
            lemma_words_push(pox_words(lists), self.posx_offset);
        }
        push_word(&mut self.dox, bytes.len() as u32);
        self.docs.extend_from_slice(bytes.as_slice());
        push_word(&mut self.pox, self.posx_offset);
        let end = push_positions(&mut self.posx, &mut self.posi, self.posi_offset, infos, Ghost(vectors));
        self.posx_offset = self.posx_offset + 8 * count as u32;
        self.posi_offset = end;
        self.term_idx = self.term_idx + 1;
        proof {
            self.lists@ = lists.push(added);
            self.chunks@ = chunks.push(bytes@);
            assert(self.lists@.flatten() =~= vectors + added);
            assert(self.docs@ == self.chunks@.flatten());
        }
        Ok(())
    }

    /// Writes every term of `term_map`, in ascending order, into a writer
    /// that nothing was written to. It succeeds exactly where the terms can
    /// be written; it stops at the first term that cannot, with the reason
    /// for which that term cannot, and then holds the terms before it.
    pub fn index_terms(&mut self, term_map: &TermMap) -> (done: Result<(), IndexError>)
        requires
            old(self).wf(),
            old(self).entries().len() == 0,
            term_map.wf(),
        ensures
            final(self).wf(),
            final(self).field() == old(self).field(),
            final(self).name() == old(self).name(),
            match done {
                Ok(()) => {
                    &&& final(self).entries() == term_entries(term_map.terms())
                    &&& final(self).lists() == term_lists(*term_map)
                    &&& final(self).chunks().len() == term_map.terms().len()
                    &&& final(self).chunks() == term_images(*term_map)
                    &&& forall|term: int|
                        0 <= term < term_map.terms().len() ==> bitmap_decode(
                            #[trigger] final(self).chunks()[term],
                        ) == Some(term_sets(*term_map)[term])
                },
                Err(error) => final(self).stopped(*term_map, error),
            },
            done is Ok <==> writable(*term_map),
    {
        proof {
            term_map.lemma_wf();
            assert(self.lists@ =~= term_lists(*term_map).take(0));
            assert(self.entries() =~= term_entries(term_map.terms()).take(0));
        }
        let count = term_map.len();
        let mut term: usize = 0;
        while term < count
            invariant
                0 <= term <= count == term_map.terms().len(),
                term_map.wf(),
                self.wf(),
                self.field() == old(self).field(),
                self.name() == old(self).name(),
                self.entries() == term_entries(term_map.terms()).take(term as int),
                self.lists() == term_lists(*term_map).take(term as int),
                self.chunks().len() == term,
                forall|t: int|
                    0 <= t < term ==> bitmap_decode(#[trigger] self.chunks()[t]) == Some(
                        term_sets(*term_map)[t],
                    ),
                forall|t: int|
                    0 <= t < term ==> (#[trigger] term_map.infos()[t]).image() == Some(
                        self.chunks()[t],
                    ) && self.chunks()[t].len() <= u32::MAX,
                offsets_fit(term_lists(*term_map).take(term as int)),
                forall|t: int| 0 <= t < term ==> (#[trigger] term_refusal(*term_map, t)) is None,
            decreases count - term,
        {
            proof {
                term_map.lemma_wf();
            }
            let ghost before = *self;
            let key = term_map.term_at(term);
            let infos = term_map.infos_at(term);
            let bitmap = bitmap_to_bytes(infos.doc_ids());
            let ghost all = term_lists(*term_map);
            proof {
                assert(all.take(term + 1) =~= all.take(term as int).push(position_lists(infos@)));
                assert(term_entries(term_map.terms()).take(term + 1) =~= term_entries(
                    term_map.terms(),
                ).take(term as int).push((key@, term as u64)));
                if term > 0 {
                    assert(before.entries().last().0 == term_map.terms()[term - 1]);
                }
                if offsets_fit(all) {
                    lemma_offsets_fit_take(all, term + 1);
                }
            }
            match self.write_term(key.as_slice(), infos, bitmap) {
                Ok(()) => {},
                Err(error) => {
                    proof {
                        assert(term_map.infos()[term as int] == *infos);
                        assert(self.chunks() =~= term_images(*term_map).take(term as int));
                    }
                    return Err(error);
                },
            }
            proof {
                self.lemma_wf();
                assert(term_map.infos()[term as int] == *infos);
            }
            term += 1;
        }
        proof {
            assert(term_lists(*term_map).take(count as int) =~= term_lists(*term_map));
            assert(term_entries(term_map.terms()).take(count as int) =~= term_entries(
                term_map.terms(),
            ));
            assert(self.chunks() =~= term_images(*term_map));
        }
        Ok(())
    }

    /// Closes the writer: the dictionary is finished and every file but
    /// `docs` is compressed. The result is what `assemble` makes of what the
    /// dictionary builder and the compressor give.
    pub fn finish(self) -> (done: Result<SegmentFiles, IndexError>)
        requires
            self.wf(),
        ensures
            match done {
                Ok(files) => files@ == (SegmentImage {
                    field: self.field(),
                    name: self.name(),
                    fst: dictionary_image(self.entries())->0,
                    dox: frame_encode(self.dox())->0,
                    docs: self.docs(),
                    pox: frame_encode(self.pox())->0,
                    posx: frame_encode(self.posx())->0,
                    posi: frame_encode(self.posi())->0,
                }) && files.holds(self.entries(), self.lists(), self.dox()),
                Err(error) => error == IndexError::Io,
            },
            done is Ok <==> dictionary_image(self.entries()) is Some && frame_encode(self.dox())
                is Some && frame_encode(self.pox()) is Some && frame_encode(self.posx()) is Some
                && frame_encode(self.posi()) is Some,
    {
        let fst = builder_finish(self.fst_builder);
        let dox = frame(self.dox.as_slice());
        let pox = frame(self.pox.as_slice());
        let posx = frame(self.posx.as_slice());
        let posi = frame(self.posi.as_slice());
        SegmentFiles::assemble(self.field, self.name, fst, dox, self.docs, pox, posx, posi)
    }
}

/// The contents of the six files of a segment, with the field and the name
/// under which they are to be committed.
pub struct SegmentFiles {
    pub field: Vec<u8>,
    pub name: SegmentName,
    pub fst: Vec<u8>,
    pub dox: Vec<u8>,
    pub docs: Vec<u8>,
    pub pox: Vec<u8>,
    pub posx: Vec<u8>,
    pub posi: Vec<u8>,
}

/// The six files of a segment.
#[derive(Clone, Copy, Debug, PartialEq, Eq, Structural)]
pub enum SegmentFile {
    Fst,
    Posx,
    Posi,
    Pox,
    Docs,
    Dox,
}

/// The files of a segment in the order in which they are written before the
/// segment is committed.
pub open spec fn flush_order() -> Seq<SegmentFile> {
    seq![
        SegmentFile::Fst,
        SegmentFile::Posx,
        SegmentFile::Posi,
        SegmentFile::Pox,
        SegmentFile::Docs,
        SegmentFile::Dox,
    ]
}

impl SegmentFile {
    /// The files in the order in which they are written.
    pub fn in_flush_order() -> (files: [SegmentFile; 6])
        ensures
            files@ == flush_order(),
    {
        let files = [
            SegmentFile::Fst,
            SegmentFile::Posx,
            SegmentFile::Posi,
            SegmentFile::Pox,
            SegmentFile::Docs,
            SegmentFile::Dox,
        ];
        assert(files@ =~= flush_order());
        files
    }

    /// The name of the file in the directory of a segment.
    pub fn name(self) -> (name: &'static str)
        ensures
            name@ == match self {
                SegmentFile::Fst => "fst"@,
                SegmentFile::Posx => "posx"@,
                SegmentFile::Posi => "posi"@,
                SegmentFile::Pox => "pox"@,
                SegmentFile::Docs => "docs"@,
                SegmentFile::Dox => "dox"@,
            },
    {
        match self {
            SegmentFile::Fst => "fst",
            SegmentFile::Posx => "posx",
            SegmentFile::Posi => "posi",
            SegmentFile::Pox => "pox",
            SegmentFile::Docs => "docs",
            SegmentFile::Dox => "dox",
        }
    }
}

/// The contents of the six files of a segment as byte strings.
pub ghost struct SegmentImage {
    pub field: Seq<u8>,
    pub name: SegmentName,
    pub fst: Seq<u8>,
    pub dox: Seq<u8>,
    pub docs: Seq<u8>,
    pub pox: Seq<u8>,
    pub posx: Seq<u8>,
    pub posi: Seq<u8>,
}

impl View for SegmentFiles {
    type V = SegmentImage;

    open spec fn view(&self) -> SegmentImage {
        SegmentImage {
            field: self.field@,
            name: self.name,
            fst: self.fst@,
            dox: self.dox@,
            docs: self.docs@,
            pox: self.pox@,
            posx: self.posx@,
            posi: self.posi@,
        }
    }
}

impl SegmentFiles {
    /// The files hold the dictionary of `entries`, as many lengths in `dox`
    /// as there are entries, and the position files of `lists`: what the
    /// compressed files give when they are read is what the layout says.
    pub open spec fn holds(
        self,
        entries: Seq<(Seq<u8>, u64)>,
        lists: Seq<Seq<Seq<u32>>>,
        dox: Seq<u8>,
    ) -> bool {
        &&& dictionary_image(entries) == Some(self.fst@)
        &&& dictionary_parse(self.fst@) == Some(entries.len())
        &&& frame_decode(self.dox@) == Some(dox)
        &&& frame_decode(self.pox@) == Some(words_bytes(pox_words(lists)))
        &&& frame_decode(self.posx@) == Some(words_bytes(posx_words(lists.flatten())))
        &&& frame_decode(self.posi@) == Some(words_bytes(posi_words(lists.flatten())))
    }

    /// The contents of one of the files.
    pub fn contents(&self, file: SegmentFile) -> (bytes: &Vec<u8>)
        ensures
            bytes@ == match file {
                SegmentFile::Fst => self@.fst,
                SegmentFile::Posx => self@.posx,
                SegmentFile::Posi => self@.posi,
                SegmentFile::Pox => self@.pox,
                SegmentFile::Docs => self@.docs,
                SegmentFile::Dox => self@.dox,
            },
    {
        match file {
            SegmentFile::Fst => &self.fst,
            SegmentFile::Posx => &self.posx,
            SegmentFile::Posi => &self.posi,
            SegmentFile::Pox => &self.pox,
            SegmentFile::Docs => &self.docs,
            SegmentFile::Dox => &self.dox,
        }
    }

    /// Puts the files of a segment together from what the dictionary builder
    /// and the compressor gave: the segment where each of them gave a file,
    /// an error where one of them failed.
    pub fn assemble(
        field: Vec<u8>,
        name: SegmentName,
        fst: Option<Vec<u8>>,
        dox: Option<Vec<u8>>,
        docs: Vec<u8>,
        pox: Option<Vec<u8>>,
        posx: Option<Vec<u8>>,
        posi: Option<Vec<u8>>,
    ) -> (done: Result<SegmentFiles, IndexError>)
        ensures
            match done {
                Ok(files) => {
                    &&& fst == Some(files.fst)
                    &&& dox == Some(files.dox)
                    &&& pox == Some(files.pox)
                    &&& posx == Some(files.posx)
                    &&& posi == Some(files.posi)
                    &&& files.docs == docs
                    &&& files.field == field
                    &&& files.name == name
                },
                Err(error) => error == IndexError::Io && (fst is None || dox is None || pox is None
                    || posx is None || posi is None),
            },
    {
        match (fst, dox, pox, posx, posi) {
            (Some(fst), Some(dox), Some(pox), Some(posx), Some(posi)) => Ok(
                SegmentFiles { field, name, fst, dox, docs, pox, posx, posi },
            ),
            _ => Err(IndexError::Io),
        }
    }
}

/// The documents of a batch as maps: from field name to term to positions.
pub open spec fn document_views(documents: Seq<Document>) -> Seq<
    Map<Seq<u8>, Map<Seq<u8>, Seq<u32>>>,
> {
    Seq::new(documents.len(), |d: int| documents[d]@)
}

/// The postings of `term` in the field `name` of a batch: for every document
/// that holds the term in that field, in the order of the batch, its place
/// in the batch and the positions of the term.
pub open spec fn postings(
    views: Seq<Map<Seq<u8>, Map<Seq<u8>, Seq<u32>>>>,
    name: Seq<u8>,
    term: Seq<u8>,
) -> Seq<(u32, Seq<u32>)>
    decreases views.len(),
{
    if views.len() == 0 {
        Seq::empty()
    } else {
        postings(views.drop_last(), name, term) + posting_if(
            views.last().contains_key(name) && views.last()[name].contains_key(term),
            (views.len() - 1) as u32,
            views.last()[name][term],
        )
    }
}

/// Some document of the batch has the field `name`.
pub open spec fn holds_field(views: Seq<Map<Seq<u8>, Map<Seq<u8>, Seq<u32>>>>, name: Seq<u8>) -> bool {
    exists|d: int| 0 <= d < views.len() && #[trigger] views[d].contains_key(name)
}

/// `map` is the term map of the field `name` of the batch: it holds every
/// term with the postings that the batch gives it.
pub open spec fn describes(
    map: TermMap,
    views: Seq<Map<Seq<u8>, Map<Seq<u8>, Seq<u32>>>>,
    name: Seq<u8>,
) -> bool {
    &&& map.wf()
    &&& forall|term: Seq<u8>| #[trigger] map.postings_of(term) == postings(views, name, term)
}

/// The files of a segment hold the term map `map`: the dictionary is that
/// of its terms, `dox` and `docs` hold the document sets of its terms, and
/// the position files hold their positions.
pub open spec fn holds_map(image: SegmentImage, map: TermMap) -> bool {
    &&& dictionary_image(term_entries(map.terms())) == Some(image.fst)
    &&& dictionary_parse(image.fst) == Some(map.terms().len())
    &&& frame_decode(image.dox) is Some
    &&& holds_bitmaps(frame_decode(image.dox)->0, image.docs, term_sets(map))
    &&& frame_decode(image.pox) == Some(words_bytes(pox_words(term_lists(map))))
    &&& frame_decode(image.posx) == Some(words_bytes(posx_words(term_lists(map).flatten())))
    &&& frame_decode(image.posi) == Some(words_bytes(posi_words(term_lists(map).flatten())))
    &&& offsets_fit(term_lists(map))
}

/// The files of a map can be made: the dictionary builder and the
/// compressor give a file for each of them.
pub open spec fn encodable(map: TermMap) -> bool {
    &&& dictionary_image(term_entries(map.terms())) is Some
    &&& frame_encode(words_bytes(dox_words(term_images(map)))) is Some
    &&& frame_encode(words_bytes(pox_words(term_lists(map)))) is Some
    &&& frame_encode(words_bytes(posx_words(term_lists(map).flatten()))) is Some
    &&& frame_encode(words_bytes(posi_words(term_lists(map).flatten()))) is Some
}

/// The files of the segment `name` of the field `field` that holds the term
/// map `map`, where the files can be made: the dictionary of its terms, the
/// bitmaps of its terms one after the other in `docs`, and, compressed, their
/// lengths and the three position files.
pub open spec fn segment_image(field: Seq<u8>, name: SegmentName, map: TermMap) -> SegmentImage {
    SegmentImage {
        field,
        name,
        fst: dictionary_image(term_entries(map.terms()))->0,
        dox: frame_encode(words_bytes(dox_words(term_images(map))))->0,
        docs: term_images(map).flatten(),
        pox: frame_encode(words_bytes(pox_words(term_lists(map))))->0,
        posx: frame_encode(words_bytes(posx_words(term_lists(map).flatten())))->0,
        posi: frame_encode(words_bytes(posi_words(term_lists(map).flatten())))->0,
    }
}

/// `done` is what encoding the term map `map` as the segment `name` of the
/// field `field` gives: the files that hold the map, where its terms can be
/// written and its files can be made; where a term cannot be written, the
/// reason of the first such term; where a file cannot be made, an error of
/// the encoder.
pub open spec fn encoded(
    done: Result<SegmentFiles, IndexError>,
    field: Seq<u8>,
    name: SegmentName,
    map: TermMap,
) -> bool {
    match done {
        Ok(files) => {
            &&& writable(map)
            &&& encodable(map)
            &&& files@ == segment_image(field, name, map)
            &&& holds_map(files@, map)
        },
        Err(error) => {
            &&& !(writable(map) && encodable(map))
            &&& if writable(map) {
                error == IndexError::Io
            } else {
                first_refusal(map, error)
            }
        },
    }
}

/// What became of one field of a batch: the files of its segment, or the
/// reason for which they could not be made.
pub struct FieldSegment {
    pub field: Vec<u8>,
    pub outcome: Result<SegmentFiles, IndexError>,
}

/// The entry is what encoding the term map of its field for the batch gives.
pub open spec fn field_written(
    entry: FieldSegment,
    views: Seq<Map<Seq<u8>, Map<Seq<u8>, Seq<u32>>>>,
    name: SegmentName,
) -> bool {
    exists|map: TermMap|
        describes(map, views, entry.field@) && #[trigger] encoded(
            entry.outcome,
            entry.field@,
            name,
            map,
        )
}

/// `entries` are the segments of a batch under the name `name`: one entry
/// for every field that occurs in the batch and no other, in ascending order
/// of the field names, each with what encoding the term map of its field
/// gives.
pub open spec fn batch_segments(
    entries: Seq<FieldSegment>,
    views: Seq<Map<Seq<u8>, Map<Seq<u8>, Seq<u32>>>>,
    name: SegmentName,
) -> bool {
    &&& forall|field: Seq<u8>|
        holds_field(views, field) <==> exists|i: int|
            0 <= i < entries.len() && (#[trigger] entries[i]).field@ == field
    &&& forall|i: int, j: int|
        0 <= i < j < entries.len() ==> bytes_lt(
            (#[trigger] entries[i]).field@,
            (#[trigger] entries[j]).field@,
        )
    &&& forall|i: int| 0 <= i < entries.len() ==> field_written(#[trigger] entries[i], views, name)
}

/// Every field of a batch gets its segment where the term map of every field
/// can be written and encoded; a batch without fields gets none.
pub proof fn lemma_batch_is_written(
    entries: Seq<FieldSegment>,
    views: Seq<Map<Seq<u8>, Map<Seq<u8>, Seq<u32>>>>,
    name: SegmentName,
)
    requires
        batch_segments(entries, views, name),
        forall|field: Seq<u8>, map: TermMap|
            holds_field(views, field) && #[trigger] describes(map, views, field) ==> writable(map)
                && encodable(map),
    ensures
        forall|i: int| 0 <= i < entries.len() ==> (#[trigger] entries[i]).outcome is Ok,
        !(exists|field: Seq<u8>| holds_field(views, field)) ==> entries.len() == 0,
{
    assert forall|i: int| 0 <= i < entries.len() implies (#[trigger] entries[i]).outcome is Ok by {
        assert(field_written(entries[i], views, name));
        assert(holds_field(views, entries[i].field@));
    }
    if entries.len() > 0 {
        assert(holds_field(views, entries[0].field@));
    }
}

impl SegmentWriter {
    /// Gathers from a batch, for every field, the terms with their postings.
    /// The documents are numbered from 0 in the order of the batch; the
    /// first part of the result is their number.
    pub fn new_term_map(documents: &Vec<Document>) -> (built: (u32, FieldMaps))
        requires
            documents@.len() <= u32::MAX,
            forall|d: int| 0 <= d < documents@.len() ==> (#[trigger] documents@[d]).wf(),
        ensures
            built.0 == documents@.len(),
            built.1.wf(),
            forall|name: Seq<u8>| #[trigger]
                built.1.has_field(name) <==> holds_field(document_views(documents@), name),
            forall|name: Seq<u8>, term: Seq<u8>| #[trigger]
                built.1.postings_of(name, term) == postings(document_views(documents@), name, term),
    {
        let ghost views = document_views(documents@);
        let mut field_infos = FieldMaps::new();
        let mut doc_num: u32 = 0;
        let count = documents.len();
        let mut d: usize = 0;
        proof {
            assert(views.take(0) =~= Seq::empty());
        }
        while d < count
            invariant
                0 <= d <= count == documents@.len() <= u32::MAX,
                doc_num == d,
                views == document_views(documents@),
                forall|e: int| 0 <= e < documents@.len() ==> (#[trigger] documents@[e]).wf(),
                field_infos.wf(),
                field_infos.docs_below(d as int),
                forall|name: Seq<u8>| #[trigger]
                    field_infos.has_field(name) <==> holds_field(views.take(d as int), name),
                forall|name: Seq<u8>, term: Seq<u8>| #[trigger]
                    field_infos.postings_of(name, term) == postings(views.take(d as int), name, term),
            decreases count - d,
        {
            let ghost seen = views.take(d as int);
            let ghost next = views.take(d + 1);
            field_infos.add_document(&documents[d], doc_num);
            proof {
                assert(next.drop_last() =~= seen);
                assert(next.last() == documents@[d as int]@);
                assert forall|name: Seq<u8>| #[trigger]
                    field_infos.has_field(name) <==> holds_field(next, name) by {
                    if holds_field(seen, name) {
                        let e = choose|e: int| 0 <= e < seen.len() && #[trigger] seen[e].contains_key(name);
                        assert(next[e].contains_key(name));
                    }
                    if documents@[d as int]@.contains_key(name) {
                        assert(next[d as int].contains_key(name));
                    }
                    if holds_field(next, name) {
                        let e = choose|e: int| 0 <= e < next.len() && #[trigger] next[e].contains_key(name);
                        if e < d {
                            assert(seen[e].contains_key(name));
                        }
                    }
                }
            }
            doc_num = doc_num + 1;
            d += 1;
        }
        proof {
            assert(views.take(count as int) =~= views);
        }
        (doc_num, field_infos)
    }

    /// The identifier of a segment that is written at the given time.
    pub fn segment_uuid(seconds: u64, nanos: u32) -> (uuid: u128)
        ensures
            uuid == uuid_from_time(42, seconds, nanos, seq![1u8, 2u8, 3u8, 4u8, 5u8, 6u8]),
    {
        let node: [u8; 6] = [1, 2, 3, 4, 5, 6];
        assert(node@ =~= seq![1u8, 2u8, 3u8, 4u8, 5u8, 6u8]);
        uuid_v1(42, seconds, nanos, &node)
    }

    /// Encodes the term map of one field as the segment `name`: the terms are
    /// written, the dictionary is finished and the files are compressed. It
    /// succeeds exactly where the terms can be written and the files can be
    /// made.
    pub fn encode(field: &[u8], name: SegmentName, term_map: &TermMap) -> (done: Result<
        SegmentFiles,
        IndexError,
    >)
        requires
            term_map.wf(),
        ensures
            encoded(done, field@, name, *term_map),
            done is Ok <==> writable(*term_map) && encodable(*term_map),
    {
        let mut segment_writer = SegmentWriter::new(field, name);
        match segment_writer.index_terms(term_map) {
            Ok(()) => {},
            Err(error) => {
                return Err(error);
            },
        }
        proof {
            segment_writer.lemma_wf();
            term_map.lemma_wf();
            lemma_holds_bitmaps(segment_writer.chunks(), term_sets(*term_map));
            assert(term_entries(term_map.terms()).len() == term_map.terms().len());
        }
        segment_writer.finish()
    }

    /// Makes of a batch of documents one entry for each field that occurs in
    /// it, with the segment of the field or the reason for which it could
    /// not be made; a field that fails does not keep the others from their
    /// segments. All segments carry the identifier of the time given, the
    /// offset `new_offset` and the number of documents of the batch as their
    /// count. Only a batch whose document ids do not fit the format is
    /// refused as a whole.
    pub fn index(new_offset: u64, documents: &Vec<Document>, seconds: u64, nanos: u32) -> (done:
        Result<Vec<FieldSegment>, IndexError>)
        requires
            forall|d: int| 0 <= d < documents@.len() ==> (#[trigger] documents@[d]).wf(),
        ensures
            done is Ok <==> documents@.len() <= u32::MAX && new_offset + documents@.len()
                <= u64::MAX,
            match done {
                Ok(entries) => batch_segments(
                    entries@,
                    document_views(documents@),
                    SegmentName {
                        uuid: uuid_from_time(42, seconds, nanos, seq![1u8, 2u8, 3u8, 4u8, 5u8, 6u8]),
                        offset: new_offset,
                        count: documents@.len() as u32,
                    },
                ),
                Err(error) => error == IndexError::TooLarge,
            },
    {
        if documents.len() > 0xffff_ffff {
            return Err(IndexError::TooLarge);
        }
        if documents.len() as u64 > u64::MAX - new_offset {
            return Err(IndexError::TooLarge);
        }
        let segment_uuid = Self::segment_uuid(seconds, nanos);
        let (doc_count, field_infos) = Self::new_term_map(documents);
        let name = SegmentName { uuid: segment_uuid, offset: new_offset, count: doc_count };
        let ghost views = document_views(documents@);
        let mut entries: Vec<FieldSegment> = Vec::new();
        let count = field_infos.len();
        let mut i: usize = 0;
        while i < count
            invariant
                0 <= i <= count == field_infos.names().len(),
                field_infos.wf(),
                forall|name: Seq<u8>, term: Seq<u8>| #[trigger]
                    field_infos.postings_of(name, term) == postings(views, name, term),
                entries@.len() == i,
                forall|k: int| 0 <= k < i ==> (#[trigger] entries@[k]).field@ == field_infos.names()[k],
                forall|k: int| 0 <= k < i ==> field_written(#[trigger] entries@[k], views, name),
            decreases count - i,
        {
            proof {
                field_infos.lemma_wf();
            }
            let field = field_infos.name_at(i);
            let term_map = field_infos.map_at(i);
            let outcome = Self::encode(field.as_slice(), name, term_map);
            let entry = FieldSegment { field: slice_to_vec(field.as_slice()), outcome };
            proof {
                assert(describes(*term_map, views, entry.field@));
                assert(encoded(entry.outcome, entry.field@, name, *term_map));
            }
            let ghost earlier = entries@;
            entries.push(entry);
            proof {
                assert forall|k: int| 0 <= k < i + 1 implies field_written(
                    #[trigger] entries@[k],
                    views,
                    name,
                ) by {
                    if k < i {
                        assert(entries@[k] == earlier[k]);
                    }
                }
            }
            i += 1;
        }
        proof {
            field_infos.lemma_wf();
            assert forall|name: Seq<u8>| holds_field(views, name) <==> exists|i: int|
                0 <= i < entries@.len() && (#[trigger] entries@[i]).field@ == name by {
                if holds_field(views, name) {
                    assert(field_infos.has_field(name));
                    let k = field_infos.names().index_of(name);
                    assert(entries@[k].field@ == name);
                }
                if exists|i: int| 0 <= i < entries@.len() && (#[trigger] entries@[i]).field@ == name {
                    let k = choose|i: int| 0 <= i < entries@.len() && (#[trigger] entries@[i]).field@ == name;
                    assert(field_infos.names()[k] == name);
                    assert(field_infos.has_field(name));
                }
            }
            assert forall|i: int, j: int| 0 <= i < j < entries@.len() implies bytes_lt(
                (#[trigger] entries@[i]).field@,
                (#[trigger] entries@[j]).field@,
            ) by {
                assert(bytes_lt(field_infos.names()[i], field_infos.names()[j]));
            }
        }
        Ok(entries)
    }
}

} // verus!
