//! The DEFLATE codec behind the blocks: a streaming encoder that every block is
//! produced with, and the decoder that reads a block back.

use vstd::prelude::*;
use flate2::read::DeflateDecoder;
use flate2::write::DeflateEncoder;
use flate2::Compression;
use std::io::Read;
use std::io::Write;
use crate::error::CompressionError;

verus! {

/// A streaming DEFLATE encoder that compresses into a buffer of its own.
#[verifier::external_body]
pub struct BlockEncoder {
    inner: DeflateEncoder<Vec<u8>>,
}

/// The raw bytes that an encoder has taken in since it was created.
pub uninterp spec fn absorbed(encoder: BlockEncoder) -> Seq<u8>;

/// The number of compressed bytes that an encoder has handed to its output buffer so
/// far. It is what the encoder's buffering makes of the writes it has seen, and may be
/// well below the size of the block that sealing the encoder gives.
pub uninterp spec fn delivered_len(encoder: BlockEncoder) -> nat;

/// The compression level that an encoder was made with.
pub uninterp spec fn level_of(encoder: BlockEncoder) -> nat;

/// The level of the best compression ratio, at which every block is compressed.
pub const BEST_LEVEL: u32 = 9;

/// Whether an encoder in this state refuses to take in `bytes`.
pub uninterp spec fn push_fails(encoder: BlockEncoder, bytes: Seq<u8>) -> bool;

/// Whether an encoder in this state fails to close its stream.
pub uninterp spec fn seal_fails(encoder: BlockEncoder) -> bool;

/// The raw bytes that decoding `block` as one DEFLATE stream gives, bytes behind the
/// end of the stream left aside; `None` where the stream is corrupt or cut short.
pub uninterp spec fn inflated(block: Seq<u8>) -> Option<Seq<u8>>;

/// `DeflateEncoder::new` over an empty `Vec`, at `Compression::best()`, which is level
/// nine: the new encoder has taken in nothing.
#[verifier::external_body]
pub(crate) fn fresh_encoder() -> (encoder: BlockEncoder)
    ensures
        absorbed(encoder) == Seq::<u8>::empty(),
        level_of(encoder) == BEST_LEVEL,
{
    BlockEncoder { inner: DeflateEncoder::new(Vec::new(), Compression::best()) }
}

/// `Write::write_all` on the encoder. Whether it fails rests with the encoder's state
/// and the bytes. Where it succeeds, the encoder has taken in all of `bytes` behind what
/// it held, at the level it was made with; nothing is claimed of an encoder that failed.
#[verifier::external_body]
pub(crate) fn push_bytes(encoder: &mut BlockEncoder, bytes: &[u8]) -> (pushed: Result<
    (),
    std::io::Error,
>)
    ensures
        pushed is Err <==> push_fails(*old(encoder), bytes@),
        pushed is Ok ==> absorbed(*final(encoder)) == absorbed(*old(encoder)) + bytes@,
        pushed is Ok ==> level_of(*final(encoder)) == level_of(*old(encoder)),
{
    encoder.inner.write_all(bytes)
}

/// `DeflateEncoder::get_ref`, and `Vec::len` of the buffer it hands out.
#[verifier::external_body]
pub(crate) fn delivered(encoder: &BlockEncoder) -> (n: usize)
    ensures
        n == delivered_len(*encoder),
{
    encoder.inner.get_ref().len()
}

/// `DeflateEncoder::finish`. Whether it fails rests with the encoder's state. Where it
/// succeeds, the block it returns is a complete DEFLATE stream of the bytes that the
/// encoder took in, so that decoding the block gives those bytes back: that is the
/// codec's promise of losslessness, taken on trust. The block is the encoder's output
/// buffer with the rest of the stream appended, so it is no shorter than what the
/// encoder had delivered.
#[verifier::external_body]
pub(crate) fn seal(encoder: BlockEncoder) -> (sealed: Result<Vec<u8>, std::io::Error>)
    ensures
        sealed is Err <==> seal_fails(encoder),
        sealed matches Ok(block) ==> inflated(block@) == Some(absorbed(encoder)),
        sealed matches Ok(block) ==> block@.len() >= delivered_len(encoder),
{
    encoder.inner.finish()
}

/// `Read::read_to_end` on a `flate2::read::DeflateDecoder` over `block`: the decoded
/// bytes, or `None` where the decoder reports an error.
#[verifier::external_body]
pub(crate) fn inflate(block: &[u8]) -> (raw: Option<Vec<u8>>)
    ensures
        match raw {
            Some(bytes) => inflated(block@) == Some(bytes@),
            None => inflated(block@) is None,
        },
{
    let mut raw = Vec::new();
    match DeflateDecoder::new(block).read_to_end(&mut raw) {
        Ok(_) => Some(raw),
        Err(_) => None,
    }
}

/// The blocks of `blocks` as sequences of bytes.
pub open spec fn block_views(blocks: Seq<Vec<u8>>) -> Seq<Seq<u8>> {
    blocks.map_values(|block: Vec<u8>| block@)
}

/// What decoding each of `blocks` on its own and putting the results one after another
/// gives; `None` where one of them does not decode.
pub open spec fn restored(blocks: Seq<Seq<u8>>) -> Option<Seq<u8>>
    decreases blocks.len(),
{
    if blocks.len() == 0 {
        Some(Seq::empty())
    } else {
        match (restored(blocks.drop_last()), inflated(blocks.last())) {
            (Some(front), Some(back)) => Some(front + back),
            _ => None,
        }
    }
}

/// Appends a copy of `bytes` to `output`.
pub(crate) fn append_bytes(output: &mut Vec<u8>, bytes: &Vec<u8>)
    ensures
        final(output)@ == old(output)@ + bytes@,
{
    let mut i: usize = 0;
    while i < bytes.len()
        invariant
            i <= bytes.len(),
            output@ == old(output)@ + bytes@.take(i as int),
        decreases bytes.len() - i,
    {
        output.push(bytes[i]);
        assert(bytes@.take(i + 1) == bytes@.take(i as int).push(bytes@[i as int]));
        i += 1;
    }
    assert(bytes@.take(i as int) == bytes@);
}

/// Decodes each block on its own and returns the decoded bytes one after another, in
/// the order of `blocks`. Fails with `InvalidData` where a block is no complete DEFLATE
/// stream.
pub fn restore(blocks: &Vec<Vec<u8>>) -> (raw: Result<Vec<u8>, CompressionError>)
    ensures
        match restored(block_views(blocks@)) {
            Some(bytes) => raw matches Ok(out) && out@ == bytes,
            None => raw matches Err(e) && e is InvalidData,
        },
{
    let mut out: Vec<u8> = Vec::new();
    let mut i: usize = 0;
    while i < blocks.len()
        invariant
            i <= blocks.len(),
            restored(block_views(blocks@).take(i as int)) == Some(out@),
        decreases blocks.len() - i,
    {
        let ghost views = block_views(blocks@);
        proof {
            assert(views.take(i + 1).drop_last() == views.take(i as int));
            assert(views.take(i + 1).last() == blocks@[i as int]@);
        }
        match inflate(blocks[i].as_slice()) {
            Some(bytes) => {
                append_bytes(&mut out, &bytes);
            },
            None => {
                proof {
                    lemma_restored_needs_prefix(views, i + 1);
                }
                return Err(CompressionError::InvalidData);
            },
        }
        i += 1;
    }
    assert(block_views(blocks@).take(i as int) == block_views(blocks@));
    Ok(out)
}

/// Blocks decode together only if every run of leading blocks decodes.
pub proof fn lemma_restored_needs_prefix(blocks: Seq<Seq<u8>>, n: int)
    requires
        0 <= n <= blocks.len(),
        restored(blocks.take(n)) is None,
    ensures
        restored(blocks) is None,
    decreases blocks.len() - n,
{
    if n < blocks.len() {
        assert(blocks.take(n + 1).drop_last() == blocks.take(n));
        lemma_restored_needs_prefix(blocks, n + 1);
    } else {
        assert(blocks.take(n) == blocks);
    }
}

} // verus!
