//! The Snappy frame format in which all index files of a segment but `docs`
//! are stored. Compression is the `snap` crate's.

use vstd::prelude::*;

verus! {

/// What `snap::write::FrameEncoder` writes for `data`; `None` where it
/// reports an error.
pub uninterp spec fn frame_encode(data: Seq<u8>) -> Option<Seq<u8>>;

/// What `snap::read::FrameDecoder` reads from `stream`; `None` where it
/// reports an error.
pub uninterp spec fn frame_decode(stream: Seq<u8>) -> Option<Seq<u8>>;

/// `snap::write::FrameEncoder` over an empty buffer, fed `data` and closed
/// with `into_inner`: the Snappy stream of `data`. Claimed beyond the name:
/// `snap::read::FrameDecoder` reads `data` back from that stream.
#[verifier::external_body]
pub(crate) fn frame(data: &[u8]) -> (stream: Option<Vec<u8>>)
    ensures
        match stream {
            Some(s) => frame_encode(data@) == Some(s@) && frame_decode(s@) == Some(data@),
            None => frame_encode(data@) is None,
        },
{
    let mut encoder = snap::write::FrameEncoder::new(Vec::new());
    match std::io::Write::write_all(&mut encoder, data) {
        Ok(()) => encoder.into_inner().ok(),
        Err(_) => None,
    }
}

/// `snap::read::FrameDecoder` over `stream`, read to its end: the data that
/// the Snappy stream holds, or `None` where it is damaged.
#[verifier::external_body]
pub(crate) fn unframe(stream: &[u8]) -> (data: Option<Vec<u8>>)
    ensures
        match data {
            Some(d) => frame_decode(stream@) == Some(d@),
            None => frame_decode(stream@) is None,
        },
{
    let mut out: Vec<u8> = Vec::new();
    match std::io::Read::read_to_end(&mut snap::read::FrameDecoder::new(stream), &mut out) {
        Ok(_) => Some(out),
        Err(_) => None,
    }
}

} // verus!
