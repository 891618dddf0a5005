use vstd::prelude::*;

use crate::error::StoreError;

verus! {

/// The largest block the engine handles, in bytes.
pub const BLOCK_SIZE: usize = 8192;

/// The snappy frame-format encoding of a byte sequence.
pub uninterp spec fn snappy_frame(b: Seq<u8>) -> Seq<u8>;

/// Relies on snap's `write::FrameEncoder`: all of `data` is written through an
/// encoder over an in-memory buffer, which then holds its frame encoding.
#[verifier::external_body]
fn snappy_encode(data: &[u8]) -> (r: Vec<u8>)
    ensures
        r@ == snappy_frame(data@),
{
    let mut w = snap::write::FrameEncoder::new(Vec::new());
    std::io::Write::write_all(&mut w, data).unwrap();
    w.into_inner().unwrap()
}

/// Relies on snap's `read::FrameDecoder`: read to its end over the frame
/// encoding of some bytes, it gives those bytes back.
#[verifier::external_body]
fn snappy_decode(data: &[u8]) -> (r: Option<Vec<u8>>)
    ensures
        forall|b: Seq<u8>|
            data@ == #[trigger] snappy_frame(b) ==> (r is Some && r->Some_0@ == b),
{
    let mut out = Vec::new();
    match std::io::Read::read_to_end(&mut snap::read::FrameDecoder::new(data), &mut out) {
        Ok(_) => Some(out),
        Err(_) => None,
    }
}

/// Appends the compressed form of `buff` to the sink `w`.
pub fn compress_block(w: &mut Vec<u8>, buff: &[u8])
    ensures
        final(w)@ == old(w)@ + snappy_frame(buff@),
{
    let mut enc = snappy_encode(buff);
    w.append(&mut enc);
}

/// Decodes a stored block. Content that is the encoding of at most
/// `BLOCK_SIZE` bytes gives those bytes; a decoded result longer than a block
/// is a `DecodeFailure`, as is content the codec rejects.
pub fn uncompress_block(r: &[u8]) -> (res: Result<Vec<u8>, StoreError>)
    ensures
        forall|b: Seq<u8>|
            r@ == #[trigger] snappy_frame(b) ==> (if b.len() <= BLOCK_SIZE {
                res is Ok && res->Ok_0@ == b
            } else {
                res == Err::<Vec<u8>, StoreError>(StoreError::DecodeFailure)
            }),
        res is Ok ==> res->Ok_0@.len() <= BLOCK_SIZE,
        res is Err ==> res == Err::<Vec<u8>, StoreError>(StoreError::DecodeFailure),
{
    match snappy_decode(r) {
        Some(v) => {
            if v.len() <= BLOCK_SIZE {
                Ok(v)
            } else {
                Err(StoreError::DecodeFailure)
            }
        },
        None => Err(StoreError::DecodeFailure),
    }
}

} // verus!
