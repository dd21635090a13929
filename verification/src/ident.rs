//! Segment identifiers: 128-bit UUIDs, made from the time at which a batch
//! is written and spelled in the hyphenated form. Both are the `uuid`
//! crate's.

use vstd::prelude::*;

verus! {

/// The hyphenated lower-case spelling of the UUID with the value `id`.
pub uninterp spec fn uuid_text(id: u128) -> Seq<u8>;

/// The value of the UUID that `Uuid::try_parse_ascii` reads from `text`;
/// `None` where it refuses the text.
pub uninterp spec fn uuid_value(text: Seq<u8>) -> Option<u128>;

/// The value of the version-1 UUID that `Uuid::new_v1` makes of a time, of
/// the node id `node` and of a clock sequence that starts at `seed`.
pub uninterp spec fn uuid_from_time(seed: u16, seconds: u64, nanos: u32, node: Seq<u8>) -> u128;

/// `Uuid::hyphenated`, as bytes: 36 bytes, hexadecimal digits in five groups
/// with hyphens between them, so none of them is a dot. Claimed beyond the
/// name: `Uuid::try_parse_ascii` reads the same UUID back from them.
#[verifier::external_body]
pub(crate) fn uuid_format(id: u128) -> (text: Vec<u8>)
    ensures
        text@ == uuid_text(id),
        text@.len() == 36,
        forall|i: int| 0 <= i < text@.len() ==> text@[i] != 46,
        uuid_value(text@) == Some(id),
{
    uuid::Uuid::from_u128(id).hyphenated().to_string().into_bytes()
}

/// `Uuid::try_parse_ascii`: the UUID that `text` spells, in any of the forms
/// that the crate reads, or `None`.
#[verifier::external_body]
pub(crate) fn uuid_parse(text: &[u8]) -> (id: Option<u128>)
    ensures
        id == uuid_value(text@),
{
    match uuid::Uuid::try_parse_ascii(text) {
        Ok(id) => Some(id.as_u128()),
        Err(_) => None,
    }
}

/// `Uuid::new_v1` on `Timestamp::from_unix` with a fresh `Context`: the
/// version-1 UUID of that time, node and clock sequence.
#[verifier::external_body]
pub(crate) fn uuid_v1(seed: u16, seconds: u64, nanos: u32, node: &[u8; 6]) -> (id: u128)
    ensures
        id == uuid_from_time(seed, seconds, nanos, node@),
{
    let context = uuid::Context::new(seed);
    let stamp = uuid::Timestamp::from_unix(&context, seconds, nanos);
    uuid::Uuid::new_v1(stamp, node).as_u128()
}

} // verus!
