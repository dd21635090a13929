//! The layout of a segment's index files: little-endian words, the records
//! that lead from a term to the positions of the term in one document, and
//! the records that cut the bitmap file into one bitmap for each term.

use vstd::prelude::*;
use vstd::bytes::{
    lemma_auto_spec_u32_to_from_le_bytes, spec_u32_from_le_bytes, spec_u32_to_le_bytes,
};
use vstd::seq_lib::lemma_flatten_concat;
use vstd::slice::slice_subrange;
use crate::le::read_word;

verus! {

/// The bytes of a file that holds `words`, each as four bytes, lowest first.
pub open spec fn words_bytes(words: Seq<u32>) -> Seq<u8>
    decreases words.len(),
{
    if words.len() == 0 {
        Seq::empty()
    } else {
        words_bytes(words.drop_last()) + spec_u32_to_le_bytes(words.last())
    }
}

/// The word whose four bytes stand at byte `at` of `bytes`.
pub open spec fn word_from(bytes: Seq<u8>, at: int) -> u32 {
    spec_u32_from_le_bytes(bytes.subrange(at, at + 4))
}

/// A file of `n` words has `4 * n` bytes.
pub proof fn lemma_words_len(words: Seq<u32>)
    ensures
        words_bytes(words).len() == 4 * words.len(),
    decreases words.len(),
{
    lemma_auto_spec_u32_to_from_le_bytes();
    if words.len() > 0 {
        lemma_words_len(words.drop_last());
    }
}

/// Writing one more word appends its four bytes.
pub proof fn lemma_words_push(words: Seq<u32>, word: u32)
    ensures
        words_bytes(words.push(word)) == words_bytes(words) + spec_u32_to_le_bytes(word),
{
    assert(words.push(word).drop_last() =~= words);
}

/// Word `index` of a file of words is read back at byte `4 * index`.
pub proof fn lemma_word_from(words: Seq<u32>, index: int)
    requires
        0 <= index < words.len(),
    ensures
        word_from(words_bytes(words), 4 * index) == words[index],
    decreases words.len(),
{
    lemma_auto_spec_u32_to_from_le_bytes();
    let rest = words.drop_last();
    lemma_words_len(rest);
    let bytes = words_bytes(words);
    if index == words.len() - 1 {
        assert(bytes.subrange(4 * index, 4 * index + 4) =~= spec_u32_to_le_bytes(words.last()));
    } else {
        lemma_word_from(rest, index);
        assert(bytes.subrange(4 * index, 4 * index + 4) =~= words_bytes(rest).subrange(
            4 * index,
            4 * index + 4,
        ));
    }
}

/// Where row `row` of `rows` stands in the flattened rows: after the items
/// of the rows before it, item by item.
pub proof fn lemma_flatten_row<A>(rows: Seq<Seq<A>>, row: int)
    requires
        0 <= row < rows.len(),
    ensures
        rows.take(row).flatten().len() + rows[row].len() == rows.take(row + 1).flatten().len(),
        rows.take(row + 1).flatten().len() <= rows.flatten().len(),
        rows.flatten().subrange(
            rows.take(row).flatten().len() as int,
            rows.take(row + 1).flatten().len() as int,
        ) == rows[row],
{
    let before = rows.take(row);
    let upto = rows.take(row + 1);
    let after = rows.skip(row + 1);
    assert(upto =~= before.push(rows[row]));
    before.lemma_flatten_push(rows[row]);
    assert(rows =~= upto + after);
    lemma_flatten_concat(upto, after);
    assert(rows.flatten().subrange(before.flatten().len() as int, upto.flatten().len() as int)
        =~= rows[row]);
}

/// The rows before an earlier row hold no more items than those before a
/// later one.
pub proof fn lemma_flatten_take_grows<A>(rows: Seq<Seq<A>>, low: int, high: int)
    requires
        0 <= low <= high <= rows.len(),
    ensures
        rows.take(low).flatten().len() <= rows.take(high).flatten().len(),
    decreases high - low,
{
    if low < high {
        lemma_flatten_row(rows, high - 1);
        lemma_flatten_take_grows(rows, low, high - 1);
    }
}

/// The words of `pox`: for each term, the byte of `posx` at which the
/// records of the term begin. `lists[t][k]` holds the positions of term `t`
/// in the `k`-th document that has the term.
pub open spec fn pox_words(lists: Seq<Seq<Seq<u32>>>) -> Seq<u32> {
    Seq::new(lists.len(), |term: int| (8 * lists.take(term).flatten().len()) as u32)
}

/// The words of `posx`: for each position list, in the order of the terms
/// and of their documents, the byte of `posi` at which its positions begin,
/// and their number.
pub open spec fn posx_words(vectors: Seq<Seq<u32>>) -> Seq<u32> {
    Seq::new(
        2 * vectors.len(),
        |word: int|
            if word % 2 == 0 {
                (4 * vectors.take(word / 2).flatten().len()) as u32
            } else {
                vectors[word / 2].len() as u32
            },
    )
}

/// The words of `posi`: all positions, list after list.
pub open spec fn posi_words(vectors: Seq<Seq<u32>>) -> Seq<u32> {
    vectors.flatten()
}

/// Every offset into `posx` and into `posi` fits in 32 bits.
pub open spec fn offsets_fit(lists: Seq<Seq<Seq<u32>>>) -> bool {
    &&& 8 * lists.flatten().len() <= u32::MAX
    &&& 4 * lists.flatten().flatten().len() <= u32::MAX
}

/// The positions that the three position files give for a term and for the
/// rank of a document among those that hold the term: `pox` leads to the
/// term's records in `posx`, the record of that rank to the positions in
/// `posi`. `None` where a file ends before what is to be read.
pub open spec fn read_positions(pox: Seq<u8>, posx: Seq<u8>, posi: Seq<u8>, term: int, rank: int) -> Option<
    Seq<u32>,
> {
    if 0 <= term && 0 <= rank && 4 * term + 4 <= pox.len() {
        let record = word_from(pox, 4 * term) + 8 * rank;
        if record + 8 <= posx.len() {
            let start = word_from(posx, record) as int;
            let count = word_from(posx, record + 4) as int;
            if start + 4 * count <= posi.len() {
                Some(Seq::new(count as nat, |p: int| word_from(posi, start + 4 * p)))
            } else {
                None
            }
        } else {
            None
        }
    } else {
        None
    }
}

/// The positions of one term in one document come back from the three
/// position files as they went in: the same values in the same order.
pub proof fn lemma_positions_round_trip(lists: Seq<Seq<Seq<u32>>>, term: int, rank: int)
    requires
        offsets_fit(lists),
        0 <= term < lists.len(),
        0 <= rank < lists[term].len(),
    ensures
        read_positions(
            words_bytes(pox_words(lists)),
            words_bytes(posx_words(lists.flatten())),
            words_bytes(posi_words(lists.flatten())),
            term,
            rank,
        ) == Some(lists[term][rank]),
{
    let vectors = lists.flatten();
    let pox = pox_words(lists);
    let posx = posx_words(vectors);
    let posi = posi_words(vectors);
    let first = lists.take(term).flatten().len() as int;
    let which = first + rank;
    lemma_flatten_row(lists, term);
    assert(vectors[which] == lists[term][rank]) by {
        assert(vectors.subrange(first, lists.take(term + 1).flatten().len() as int)[rank]
            == vectors[which]);
    }
    let list = vectors[which];
    let start = vectors.take(which).flatten().len() as int;
    lemma_flatten_row(vectors, which);
    lemma_words_len(pox);
    lemma_words_len(posx);
    lemma_words_len(posi);
    lemma_word_from(pox, term);
    assert(pox[term] == 8 * first);
    let record = 8 * first + 8 * rank;
    assert(record == 4 * (2 * which));
    lemma_word_from(posx, 2 * which);
    lemma_word_from(posx, 2 * which + 1);
    assert(4 * (2 * which + 1) == record + 4);
    assert((2 * which) / 2 == which && (2 * which) % 2 == 0) by (nonlinear_arith)
        requires
            which >= 0,
    ;
    assert((2 * which + 1) / 2 == which && (2 * which + 1) % 2 == 1) by (nonlinear_arith)
        requires
            which >= 0,
    ;
    assert(posx[2 * which] == 4 * start);
    assert(posx[2 * which + 1] == list.len());
    let bytes = words_bytes(posi);
    let got = Seq::new(list.len(), |p: int| word_from(bytes, 4 * start + 4 * p));
    assert(got =~= list) by {
        assert forall|p: int| 0 <= p < list.len() implies got[p] == list[p] by {
            lemma_word_from(posi, start + p);
            assert(4 * (start + p) == 4 * start + 4 * p);
            assert(posi.subrange(start, vectors.take(which + 1).flatten().len() as int)[p]
                == posi[start + p]);
        }
    }
}

/// The words of `dox`: for each term, the length in bytes of its bitmap in
/// `docs`.
pub open spec fn dox_words(chunks: Seq<Seq<u8>>) -> Seq<u32> {
    Seq::new(chunks.len(), |term: int| chunks[term].len() as u32)
}

/// The length of every bitmap fits in 32 bits.
pub open spec fn chunks_fit(chunks: Seq<Seq<u8>>) -> bool {
    forall|term: int| 0 <= term < chunks.len() ==> (#[trigger] chunks[term]).len() <= u32::MAX
}

/// The byte of `docs` at which the bitmap of `term` begins: the sum of the
/// lengths that `dox` records for the terms before it.
pub open spec fn chunk_start(dox: Seq<u8>, term: int) -> int
    decreases term,
{
    if term <= 0 {
        0
    } else {
        chunk_start(dox, term - 1) + word_from(dox, 4 * (term - 1))
    }
}

/// The bytes of the bitmap of `term`: what `docs` holds from where the
/// bitmap begins, as long as `dox` says. `None` where a file ends before
/// that.
pub open spec fn read_chunk(dox: Seq<u8>, docs: Seq<u8>, term: int) -> Option<Seq<u8>> {
    if 0 <= term && 4 * term + 4 <= dox.len() && chunk_start(dox, term) + word_from(dox, 4 * term)
        <= docs.len() {
        Some(
            docs.subrange(
                chunk_start(dox, term),
                chunk_start(dox, term) + word_from(dox, 4 * term),
            ),
        )
    } else {
        None
    }
}

/// In files written from `chunks` the bitmap of a term begins after the
/// bytes of the bitmaps before it.
pub proof fn lemma_chunk_start(chunks: Seq<Seq<u8>>, term: int)
    requires
        chunks_fit(chunks),
        0 <= term <= chunks.len(),
    ensures
        chunk_start(words_bytes(dox_words(chunks)), term) == chunks.take(term).flatten().len(),
    decreases term,
{
    if term > 0 {
        lemma_chunk_start(chunks, term - 1);
        lemma_word_from(dox_words(chunks), term - 1);
        lemma_flatten_row(chunks, term - 1);
    } else {
        assert(chunks.take(0) =~= Seq::<Seq<u8>>::empty());
    }
}

/// The bytes of every bitmap come back from `dox` and `docs` as they went
/// in.
pub proof fn lemma_chunk_round_trip(chunks: Seq<Seq<u8>>, term: int)
    requires
        chunks_fit(chunks),
        0 <= term < chunks.len(),
    ensures
        read_chunk(words_bytes(dox_words(chunks)), chunks.flatten(), term) == Some(chunks[term]),
{
    lemma_chunk_start(chunks, term);
    lemma_word_from(dox_words(chunks), term);
    lemma_words_len(dox_words(chunks));
    lemma_flatten_row(chunks, term);
}

/// Reads the word at byte `at`.
pub fn fetch_word(bytes: &[u8], at: usize) -> (word: u32)
    requires
        at + 4 <= bytes@.len(),
    ensures
        word == word_from(bytes@, at as int),
{
    let end = bytes.len();
    assert(at + 4 <= end);
    read_word(slice_subrange(bytes, at, at + 4))
}

/// Reads from the three position files the positions of the term with index
/// `term` in the document that has rank `rank` among those holding the term.
pub fn positions_at(pox: &[u8], posx: &[u8], posi: &[u8], term: usize, rank: usize) -> (positions:
    Option<Vec<u32>>)
    ensures
        match positions {
            Some(list) => read_positions(pox@, posx@, posi@, term as int, rank as int) == Some(
                list@,
            ),
            None => read_positions(pox@, posx@, posi@, term as int, rank as int) is None,
        },
{
    if term >= pox.len() / 4 {
        return None;
    }
    let base = fetch_word(pox, 4 * term);
    if rank > posx.len() / 8 {
        return None;
    }
    let room: usize = posx.len() - 8 * rank;
    if room < 8 || ((room - 8) as u64) < (base as u64) {
        return None;
    }
    let record: usize = base as usize + 8 * rank;
    let start = fetch_word(posx, record);
    let count = fetch_word(posx, record + 4);
    let end = posi.len();
    if (end as u64) < start as u64 + 4 * (count as u64) {
        return None;
    }
    let mut list: Vec<u32> = Vec::new();
    let mut p: usize = 0;
    while p < count as usize
        invariant
            0 <= p <= count,
            start + 4 * count <= end == posi@.len(),
            list@ == Seq::new(p as nat, |q: int| word_from(posi@, start + 4 * q)),
        decreases count - p,
    {
        let word = fetch_word(posi, start as usize + 4 * p);
        list.push(word);
        p += 1;
        assert(list@ =~= Seq::new(p as nat, |q: int| word_from(posi@, start + 4 * q)));
    }
    Some(list)
}

/// One more term adds to `pox` the byte of `posx` that follows the records
/// of the terms before it.
pub proof fn lemma_pox_push(lists: Seq<Seq<Seq<u32>>>, list: Seq<Seq<u32>>)
    ensures
        pox_words(lists.push(list)) == pox_words(lists).push((8 * lists.flatten().len()) as u32),
{
    let grown = lists.push(list);
    assert forall|term: int| 0 <= term < grown.len() implies pox_words(grown)[term] == pox_words(
        lists,
    ).push((8 * lists.flatten().len()) as u32)[term] by {
        if term < lists.len() {
            assert(grown.take(term) =~= lists.take(term));
        } else {
            assert(grown.take(term) =~= lists);
        }
    }
    assert(pox_words(grown) =~= pox_words(lists).push((8 * lists.flatten().len()) as u32));
}

/// One more position list adds one record to `posx`: the byte of `posi` that
/// follows the positions before it, and its length.
pub proof fn lemma_posx_push(vectors: Seq<Seq<u32>>, list: Seq<u32>)
    ensures
        posx_words(vectors.push(list)) == posx_words(vectors).push(
            (4 * vectors.flatten().len()) as u32,
        ).push(list.len() as u32),
{
    let grown = vectors.push(list);
    let expected = posx_words(vectors).push((4 * vectors.flatten().len()) as u32).push(
        list.len() as u32,
    );
    assert forall|word: int| 0 <= word < 2 * grown.len() implies posx_words(grown)[word]
        == expected[word] by {
        let which = word / 2;
        if which < vectors.len() {
            assert(grown.take(which) =~= vectors.take(which));
            assert(word < 2 * vectors.len());
        } else {
            assert(which == vectors.len());
            assert(grown.take(which) =~= vectors);
            if word % 2 == 0 {
                assert(word == 2 * vectors.len());
            } else {
                assert(word == 2 * vectors.len() + 1);
            }
        }
    }
    assert(posx_words(grown) =~= expected);
}

/// The items of the first rows are the first items of all rows.
pub proof fn lemma_flatten_take_prefix<A>(rows: Seq<Seq<A>>, count: int)
    requires
        0 <= count <= rows.len(),
    ensures
        rows.take(count).flatten().len() <= rows.flatten().len(),
        rows.take(count).flatten() == rows.flatten().take(rows.take(count).flatten().len() as int),
{
    assert(rows =~= rows.take(count) + rows.skip(count));
    lemma_flatten_concat(rows.take(count), rows.skip(count));
    assert(rows.take(count).flatten() =~= rows.flatten().take(
        rows.take(count).flatten().len() as int,
    ));
}

/// Where the offsets of all terms fit in 32 bits, so do those of the first
/// terms.
pub proof fn lemma_offsets_fit_take(lists: Seq<Seq<Seq<u32>>>, count: int)
    requires
        0 <= count <= lists.len(),
        offsets_fit(lists),
    ensures
        offsets_fit(lists.take(count)),
{
    lemma_flatten_take_prefix(lists, count);
    let vectors = lists.flatten();
    let first = lists.take(count).flatten().len() as int;
    lemma_flatten_take_prefix(vectors, first);
}

/// The files `dox` and `docs` hold one bitmap for each of `sets`, in their
/// order: `dox` has one length for each, `docs` ends with the last bitmap,
/// and the bytes of each bitmap read back as its set.
pub open spec fn holds_bitmaps(dox: Seq<u8>, docs: Seq<u8>, sets: Seq<Set<u32>>) -> bool {
    &&& dox.len() == 4 * sets.len()
    &&& docs.len() == chunk_start(dox, sets.len() as int)
    &&& forall|term: int|
        0 <= term < sets.len() ==> (#[trigger] read_chunk(dox, docs, term)) is Some
            && crate::bitmap::bitmap_decode(read_chunk(dox, docs, term)->0) == Some(sets[term])
}

/// Files written from bitmaps that read back as `sets` hold those sets.
pub proof fn lemma_holds_bitmaps(chunks: Seq<Seq<u8>>, sets: Seq<Set<u32>>)
    requires
        chunks_fit(chunks),
        chunks.len() == sets.len(),
        forall|term: int|
            0 <= term < chunks.len() ==> crate::bitmap::bitmap_decode(#[trigger] chunks[term])
                == Some(sets[term]),
    ensures
        holds_bitmaps(words_bytes(dox_words(chunks)), chunks.flatten(), sets),
{
    let dox = words_bytes(dox_words(chunks));
    let docs = chunks.flatten();
    lemma_words_len(dox_words(chunks));
    lemma_chunk_start(chunks, chunks.len() as int);
    assert(chunks.take(chunks.len() as int) =~= chunks);
    assert forall|term: int| 0 <= term < sets.len() implies (#[trigger] read_chunk(dox, docs, term))
        is Some && crate::bitmap::bitmap_decode(read_chunk(dox, docs, term)->0) == Some(
        sets[term],
    ) by {
        lemma_chunk_round_trip(chunks, term);
    }
}

} // verus!
