//! Reading a segment: the term dictionary is opened, the bitmap of every
//! term is loaded, and the positions of a term in a document are looked up
//! in the position files when they are asked for.

use vstd::prelude::*;
use vstd::slice::slice_subrange;
use crate::bitmap::{bitmap_contains, bitmap_decode, bitmap_from_bytes, bitmap_ids, bitmap_members};
use crate::dictionary::{dictionary_count, dictionary_len, dictionary_open, dictionary_parse};
use crate::error::IndexError;
use crate::frame::{frame_decode, unframe};
use crate::layout::{chunk_start, fetch_word, positions_at, read_chunk, read_positions};

verus! {

/// The document set of every one of the first `term_count` terms, as `dox`
/// and `docs` give them; `None` where a file ends too early or a bitmap
/// cannot be read.
pub open spec fn term_docs_value(dox: Seq<u8>, docs: Seq<u8>, term_count: nat) -> Option<
    Seq<Set<u32>>,
> {
    if forall|term: int|
        0 <= term < term_count ==> (#[trigger] read_chunk(dox, docs, term)) is Some && bitmap_decode(
            read_chunk(dox, docs, term)->0,
        ) is Some {
        Some(Seq::new(term_count, |term: int| bitmap_decode(read_chunk(dox, docs, term)->0)->0))
    } else {
        None
    }
}

/// What opening a segment gives for the bytes of its dictionary, of its
/// compressed `dox` and of its `docs`: the document set of every term, or
/// the reason for which the segment cannot be opened. The dictionary holds
/// words of 64 bits, so on a target whose `usize` is narrower no segment is
/// opened.
pub open spec fn open_outcome(fst: Seq<u8>, dox: Seq<u8>, docs: Seq<u8>) -> Result<
    Seq<Set<u32>>,
    IndexError,
> {
    if usize::BITS != 64 {
        Err(IndexError::TooLarge)
    } else {
        match dictionary_parse(fst) {
            None => Err(IndexError::Format),
            Some(count) => if count > u32::MAX {
                Err(IndexError::TooLarge)
            } else {
                match frame_decode(dox) {
                    None => Err(IndexError::Format),
                    Some(lengths) => match term_docs_value(lengths, docs, count) {
                        None => Err(IndexError::Format),
                        Some(sets) => Ok(sets),
                    },
                }
            },
        }
    }
}

/// One segment of one field, opened: its term dictionary, the document
/// bitmap of every term, and what its name says.
pub struct SegmentReader {
    fst_map: fst::Map<Vec<u8>>,
    term_docs: Vec<roaring::RoaringBitmap>,
    offset: u64,
    doc_count: u32,
}

impl SegmentReader {
    /// The document set of every term, by term index.
    pub closed spec fn docs(self) -> Seq<Set<u32>> {
        Seq::new(self.term_docs@.len(), |term: int| bitmap_members(self.term_docs@[term]))
    }

    /// The global id of the first document of the segment.
    pub closed spec fn offset(self) -> u64 {
        self.offset
    }

    /// The number of documents of the segment.
    pub closed spec fn doc_count(self) -> u32 {
        self.doc_count
    }

    /// The dictionary has as many terms as there are bitmaps.
    pub closed spec fn wf(self) -> bool {
        dictionary_len(self.fst_map) == self.term_docs@.len()
    }

    /// Loads the bitmaps of the first `term_count` terms from the contents
    /// of `dox`, decompressed, and of `docs`.
    pub fn read_term_docs(dox: &[u8], docs: &[u8], term_count: u32) -> (loaded: Result<
        Vec<roaring::RoaringBitmap>,
        IndexError,
    >)
        ensures
            match loaded {
                Ok(bitmaps) => term_docs_value(dox@, docs@, term_count as nat) == Some(
                    Seq::new(bitmaps@.len(), |term: int| bitmap_members(bitmaps@[term])),
                ),
                Err(error) => error == IndexError::Format && term_docs_value(
                    dox@,
                    docs@,
                    term_count as nat,
                ) is None,
            },
    {
        let mut term_docs: Vec<roaring::RoaringBitmap> = Vec::new();
        let lengths = dox.len();
        let end = docs.len();
        let mut start: usize = 0;
        let mut n: u32 = 0;
        while n < term_count
            invariant
                0 <= n <= term_count,
                lengths == dox@.len(),
                end == docs@.len(),
                start == chunk_start(dox@, n as int),
                start <= end,
                term_docs@.len() == n,
                forall|term: int|
                    0 <= term < n ==> (#[trigger] read_chunk(dox@, docs@, term)) is Some
                        && bitmap_decode(read_chunk(dox@, docs@, term)->0) == Some(
                        bitmap_members(term_docs@[term]),
                    ),
            decreases term_count - n,
        {
            if lengths / 4 <= n as usize {
                assert(read_chunk(dox@, docs@, n as int) is None);
                return Err(IndexError::Format);
            }
            let size = fetch_word(dox, 4 * (n as usize));
            if end - start < size as usize {
                assert(read_chunk(dox@, docs@, n as int) is None);
                return Err(IndexError::Format);
            }
            let chunk = slice_subrange(docs, start, start + size as usize);
            assert(read_chunk(dox@, docs@, n as int) == Some(chunk@));
            let bitset = match bitmap_from_bytes(chunk) {
                Some(bitset) => bitset,
                None => {
                    return Err(IndexError::Format);
                },
            };
            term_docs.push(bitset);
            start = start + size as usize;
            n += 1;
        }
        proof {
            let sets = Seq::new(term_docs@.len(), |term: int| bitmap_members(term_docs@[term]));
            assert(term_docs_value(dox@, docs@, term_count as nat)->0 =~= sets);
        }
        Ok(term_docs)
    }

    /// Opens a segment from the bytes of its dictionary, of its compressed
    /// `dox` and of its `docs`; `offset` and `doc_count` are what the name
    /// of the segment says.
    pub fn open(fst: Vec<u8>, dox: &[u8], docs: &[u8], offset: u64, doc_count: u32) -> (opened:
        Result<SegmentReader, IndexError>)
        ensures
            match opened {
                Ok(reader) => {
                    &&& reader.wf()
                    &&& open_outcome(fst@, dox@, docs@) == Ok::<Seq<Set<u32>>, IndexError>(
                        reader.docs(),
                    )
                    &&& reader.offset() == offset
                    &&& reader.doc_count() == doc_count
                },
                Err(error) => open_outcome(fst@, dox@, docs@) == Err::<Seq<Set<u32>>, IndexError>(
                    error,
                ),
            },
    {
        if usize::BITS != 64 {
            return Err(IndexError::TooLarge);
        }
        let fst_map = match dictionary_open(fst) {
            Some(fst_map) => fst_map,
            None => {
                return Err(IndexError::Format);
            },
        };
        let term_count = dictionary_count(&fst_map);
        if term_count > 0xffff_ffff {
            return Err(IndexError::TooLarge);
        }
        let lengths = match unframe(dox) {
            Some(lengths) => lengths,
            None => {
                return Err(IndexError::Format);
            },
        };
        match Self::read_term_docs(lengths.as_slice(), docs, term_count as u32) {
            Ok(term_docs) => {
                let reader = SegmentReader { fst_map, term_docs, offset, doc_count };
                assert(reader.docs() =~= Seq::new(
                    term_docs@.len(),
                    |term: int| bitmap_members(term_docs@[term]),
                ));
                Ok(reader)
            },
            Err(error) => Err(error),
        }
    }

    /// The number of terms.
    pub fn term_count(&self) -> (count: usize)
        ensures
            count == self.docs().len(),
    {
        self.term_docs.len()
    }

    /// The global id of the first document.
    pub fn first_id(&self) -> (offset: u64)
        ensures
            offset == self.offset(),
    {
        self.offset
    }

    /// The number of documents.
    pub fn documents(&self) -> (count: u32)
        ensures
            count == self.doc_count(),
    {
        self.doc_count
    }

    /// The term dictionary, for looking up the index of a term.
    pub fn dictionary(&self) -> (map: &fst::Map<Vec<u8>>)
        requires
            self.wf(),
        ensures
            dictionary_len(*map) == self.docs().len(),
    {
        &self.fst_map
    }

    /// The bitmap of the term with index `term`.
    pub fn term_docs(&self, term: usize) -> (bitmap: Option<&roaring::RoaringBitmap>)
        ensures
            match bitmap {
                Some(b) => term < self.docs().len() && bitmap_members(*b) == self.docs()[term as int],
                None => term >= self.docs().len(),
            },
    {
        if term < self.term_docs.len() {
            Some(&self.term_docs[term])
        } else {
            None
        }
    }

    /// Whether the document with the local id `doc` holds the term with
    /// index `term`.
    pub fn holds(&self, term: usize, doc: u32) -> (held: bool)
        ensures
            held == (term < self.docs().len() && self.docs()[term as int].contains(doc)),
    {
        if term < self.term_docs.len() {
            bitmap_contains(&self.term_docs[term], doc)
        } else {
            false
        }
    }

    /// The local ids of the documents that hold the term with index `term`,
    /// ascending; none for an index that the segment does not have.
    pub fn local_ids(&self, term: usize) -> (ids: Vec<u32>)
        ensures
            forall|i: int, j: int| 0 <= i < j < ids@.len() ==> ids@[i] < ids@[j],
            forall|id: u32|
                ids@.contains(id) <==> term < self.docs().len() && self.docs()[term as int].contains(
                    id,
                ),
    {
        if term < self.term_docs.len() {
            bitmap_ids(&self.term_docs[term])
        } else {
            Vec::new()
        }
    }
}

/// The three position files of a segment, decompressed.
pub struct PositionReader {
    pox: Vec<u8>,
    posx: Vec<u8>,
    posi: Vec<u8>,
}

impl PositionReader {
    /// The contents of `pox`.
    pub closed spec fn pox(self) -> Seq<u8> {
        self.pox@
    }

    /// The contents of `posx`.
    pub closed spec fn posx(self) -> Seq<u8> {
        self.posx@
    }

    /// The contents of `posi`.
    pub closed spec fn posi(self) -> Seq<u8> {
        self.posi@
    }

    /// Decompresses the three position files; a damaged file is a format
    /// error.
    pub fn open(pox: &[u8], posx: &[u8], posi: &[u8]) -> (opened: Result<PositionReader, IndexError>)
        ensures
            match opened {
                Ok(reader) => frame_decode(pox@) == Some(reader.pox()) && frame_decode(posx@)
                    == Some(reader.posx()) && frame_decode(posi@) == Some(reader.posi()),
                Err(error) => error == IndexError::Format && (frame_decode(pox@) is None
                    || frame_decode(posx@) is None || frame_decode(posi@) is None),
            },
    {
        match (unframe(pox), unframe(posx), unframe(posi)) {
            (Some(pox), Some(posx), Some(posi)) => Ok(PositionReader { pox, posx, posi }),
            _ => Err(IndexError::Format),
        }
    }

    /// The positions of the term with index `term` in the document that has
    /// rank `rank` among those holding the term.
    pub fn positions(&self, term: usize, rank: usize) -> (positions: Option<Vec<u32>>)
        ensures
            match positions {
                Some(list) => read_positions(
                    self.pox(),
                    self.posx(),
                    self.posi(),
                    term as int,
                    rank as int,
                ) == Some(list@),
                None => read_positions(self.pox(), self.posx(), self.posi(), term as int, rank as int)
                    is None,
            },
    {
        positions_at(self.pox.as_slice(), self.posx.as_slice(), self.posi.as_slice(), term, rank)
    }
}

} // verus!
