//! The term dictionary of a segment: a finite-state transducer from the
//! terms, in ascending byte order, to their indices. Building and reading it
//! is the `fst` crate's.

use vstd::prelude::*;
use crate::order::bytes_lt;

verus! {

/// `fst::MapBuilder`, which takes keys in ascending order and writes the
/// dictionary; nothing of its inside is known here.
#[verifier::external_type_specification]
#[verifier::external_body]
#[verifier::reject_recursive_types(W)]
pub struct ExMapBuilder<W>(fst::MapBuilder<W>);

/// `fst::Map`, a dictionary over its bytes; nothing of its inside is known
/// here.
#[verifier::external_type_specification]
#[verifier::external_body]
#[verifier::reject_recursive_types(D)]
pub struct ExMap<D>(fst::Map<D>);

/// The keys with their values that went into a builder, in the order of
/// their insertion.
pub uninterp spec fn builder_entries(builder: fst::MapBuilder<Vec<u8>>) -> Seq<(Seq<u8>, u64)>;

/// The bytes that `MapBuilder::into_inner` gives for a builder that was fed
/// `entries`; `None` where it reports an error.
pub uninterp spec fn dictionary_image(entries: Seq<(Seq<u8>, u64)>) -> Option<Seq<u8>>;

/// The number of keys of a dictionary.
pub uninterp spec fn dictionary_len(map: fst::Map<Vec<u8>>) -> nat;

/// The number of keys of the dictionary that `Map::new` makes of `bytes`;
/// `None` where it refuses them.
pub uninterp spec fn dictionary_parse(bytes: Seq<u8>) -> Option<nat>;

/// `MapBuilder::memory`: a builder that nothing went into yet.
#[verifier::external_body]
pub(crate) fn builder_new() -> (builder: fst::MapBuilder<Vec<u8>>)
    ensures
        builder_entries(builder) == Seq::<(Seq<u8>, u64)>::empty(),
{
    fst::MapBuilder::memory()
}

/// `MapBuilder::insert` on a builder in memory: the key goes in exactly when
/// it comes after the key inserted last; otherwise the builder reports an
/// error and stays as it was.
#[verifier::external_body]
pub(crate) fn builder_insert(builder: &mut fst::MapBuilder<Vec<u8>>, key: &[u8], value: u64) -> (done:
    bool)
    ensures
        done == (builder_entries(*old(builder)).len() == 0 || bytes_lt(
            builder_entries(*old(builder)).last().0,
            key@,
        )),
        builder_entries(*final(builder)) == if done {
            builder_entries(*old(builder)).push((key@, value))
        } else {
            builder_entries(*old(builder))
        },
{
    builder.insert(key, value).is_ok()
}

/// `MapBuilder::into_inner`: the bytes of the finished dictionary. Claimed
/// beyond the name: `Map::new` accepts these bytes and finds as many keys as
/// went into the builder.
#[verifier::external_body]
pub(crate) fn builder_finish(builder: fst::MapBuilder<Vec<u8>>) -> (image: Option<Vec<u8>>)
    ensures
        match image {
            Some(bytes) => dictionary_image(builder_entries(builder)) == Some(bytes@)
                && dictionary_parse(bytes@) == Some(builder_entries(builder).len()),
            None => dictionary_image(builder_entries(builder)) is None,
        },
{
    builder.into_inner().ok()
}

/// `Map::new` on bytes in memory: the dictionary that the bytes hold, or
/// `None` where they are not one. The words of the dictionary's footer are
/// 64 bits wide and are read into `usize`, which only a 64-bit target can
/// always do.
#[verifier::external_body]
pub(crate) fn dictionary_open(bytes: Vec<u8>) -> (map: Option<fst::Map<Vec<u8>>>)
    requires
        usize::BITS == 64,
    ensures
        match map {
            Some(m) => dictionary_parse(bytes@) == Some(dictionary_len(m)),
            None => dictionary_parse(bytes@) is None,
        },
{
    fst::Map::new(bytes).ok()
}

/// `Map::len`: the number of keys.
#[verifier::external_body]
pub(crate) fn dictionary_count(map: &fst::Map<Vec<u8>>) -> (count: usize)
    ensures
        count == dictionary_len(*map),
{
    map.len()
}

} // verus!
