//! Little-endian 32-bit words, the unit of every record in a segment's
//! index files. The conversion is the `byteorder` crate's.

use vstd::prelude::*;
use vstd::bytes::{spec_u32_from_le_bytes, spec_u32_to_le_bytes};
use byteorder::ByteOrder;

verus! {

/// `LittleEndian::write_u32` into a buffer of four bytes, appended to `out`:
/// `out` grows by the four bytes of `value`, lowest byte first.
#[verifier::external_body]
pub(crate) fn push_word(out: &mut Vec<u8>, value: u32)
    ensures
        final(out)@ == old(out)@ + spec_u32_to_le_bytes(value),
{
    let mut word = [0u8; 4];
    byteorder::LittleEndian::write_u32(&mut word, value);
    out.extend_from_slice(&word);
}

/// `LittleEndian::read_u32`: the value whose four bytes, lowest first, are
/// `word`.
#[verifier::external_body]
pub(crate) fn read_word(word: &[u8]) -> (value: u32)
    requires
        word@.len() == 4,
    ensures
        value == spec_u32_from_le_bytes(word@),
{
    byteorder::LittleEndian::read_u32(word)
}

} // verus!
