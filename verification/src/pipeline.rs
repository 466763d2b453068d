//! Pipeline orchestrator: composes transform, entropy coding and byte
//! compression for one block, and runs the inverse chain as the round-trip
//! correctness gate.
//!
//! Every stage pairs with every other: any transform may feed any coder and
//! any compressor.  Blocks are independent; one pass touches nothing outside
//! its own buffers, so callers may process blocks in parallel and only merge
//! the reported sizes.

use vstd::prelude::*;

use crate::BLOCK_LEN;
use crate::PipelineError;
use crate::bitcodec::PackingConvention;
use crate::bitcodec::unpack;
use crate::bitcodec::unpacked_seq;
use crate::bitcodec::words_needed;
use crate::bytecompressors::ByteCompressor;
use crate::integercoders::IntegerCoder;
use crate::integertransformers::IntegerTransformer;
use crate::valid_block;

verus! {

/// Whether every symbol of a block indexes its palette.
fn check_block(data: &Vec<u32>, palette_size: u32) -> (ok: bool)
    ensures
        ok <==> forall|i: int| 0 <= i < data@.len() ==> #[trigger] data@[i] < palette_size,
{
    let mut k: usize = 0;
    while k < data.len()
        invariant
            k <= data@.len(),
            forall|i: int| 0 <= i < k ==> #[trigger] data@[i] < palette_size,
        decreases data@.len() - k,
    {
        if data[k] >= palette_size {
            return false;
        }
        k = k + 1;
    }
    true
}

/// One forward pipeline pass over a block: transform, entropy-code,
/// compress.  Succeeds exactly when the block is well formed and the
/// transform accepts it, and then returns the compressed artifact of the
/// coded, transformed block.
pub fn compress_block<T: IntegerTransformer, C: IntegerCoder, B: ByteCompressor>(
    data: &Vec<u32>,
    palette_size: u32,
) -> (r: Result<Vec<u8>, PipelineError>)
    requires
        data@.len() == BLOCK_LEN,
        1 <= palette_size <= 0x8000_0000,
        C::valid_palette(T::transformed(data@, palette_size).1),
    ensures
        r is Ok <==> valid_block(data@, palette_size) && T::accepts(data@, palette_size),
        r is Ok ==> ({
            let (td, tps) = T::transformed(data@, palette_size);
            r->Ok_0@ == B::compressed(C::encoded(td, tps))
        }),
        r is Err ==> r == Err::<Vec<u8>, PipelineError>(PipelineError::SymbolOutOfRange),
{
    if !check_block(data, palette_size) {
        return Err(PipelineError::SymbolOutOfRange);
    }
    let mut block = crate::integertransformers::clone_block(data);
    let mut tps = palette_size;
    match T::transform(&mut block, &mut tps) {
        Ok(()) => {},
        Err(e) => {
            return Err(e);
        },
    }
    let mut encoded: Vec<u8> = Vec::new();
    C::encode(&block, &mut encoded, tps);
    let mut compressed: Vec<u8> = Vec::new();
    B::compress(&encoded, &mut compressed);
    Ok(compressed)
}

/// One block as delivered by the record parser: a packed word stream and a
/// palette length.  A trivial section (palette length at most 1) is skipped.
/// Unpacks at the bit width derived from the palette length, under the
/// padded convention the stream was written with, and runs the forward
/// pipeline; the compressed artifact's length is the caller's measurement.
pub fn process_block<T: IntegerTransformer, C: IntegerCoder, B: ByteCompressor>(
    words: &Vec<u64>,
    palette_length: u32,
) -> (r: Result<Option<Vec<u8>>, PipelineError>)
    requires
        palette_length <= 0x8000_0000,
        palette_length > 1 ==> C::valid_palette(
            T::transformed(
                unpacked_seq(
                    words@,
                    PackingConvention::Padded,
                    crate::bit_width_of(palette_length as nat) as u64,
                    BLOCK_LEN as int,
                ),
                palette_length,
            ).1,
        ),
    ensures
        palette_length <= 1 ==> r == Ok::<Option<Vec<u8>>, PipelineError>(None),
        palette_length > 1 ==> ({
            let block = unpacked_seq(
                words@,
                PackingConvention::Padded,
                crate::bit_width_of(palette_length as nat) as u64,
                BLOCK_LEN as int,
            );
            &&& (r is Ok <==> words@.len() >= words_needed(
                BLOCK_LEN as int,
                crate::bit_width_of(palette_length as nat) as u64,
                PackingConvention::Padded,
            ) && valid_block(block, palette_length) && T::accepts(block, palette_length))
            &&& (r is Ok ==> ({
                let (td, tps) = T::transformed(block, palette_length);
                r->Ok_0 matches Some(out) && out@ == B::compressed(C::encoded(td, tps))
            }))
        }),
{
    if palette_length <= 1 {
        return Ok(None);
    }
    let num_bits = crate::bit_width(palette_length);
    let block = match unpack(words, num_bits, PackingConvention::Padded, BLOCK_LEN) {
        Ok(b) => b,
        Err(e) => {
            return Err(e);
        },
    };
    match compress_block::<T, C, B>(&block, palette_length) {
        Ok(out) => Ok(Some(out)),
        Err(e) => Err(e),
    }
}

/// The automated correctness gate for one block: run the forward pipeline,
/// then the exact inverse chain, and confirm bit-for-bit equality with the
/// original block and palette size.  It succeeds only when the inverse chain
/// really reproduced the block and palette; and whenever the transform
/// round-trips on the block — as the move-to-front family, the identity and
/// the curve reorderings do — it is guaranteed to succeed.
pub fn round_trip_block<T: IntegerTransformer, C: IntegerCoder, B: ByteCompressor>(
    data: &Vec<u32>,
    palette_size: u32,
) -> (r: Result<(), PipelineError>)
    requires
        data@.len() == BLOCK_LEN,
        1 <= palette_size <= 0x8000_0000,
        C::valid_palette(T::transformed(data@, palette_size).1),
    ensures
        r is Ok ==> ({
            let (td, tps) = T::transformed(data@, palette_size);
            valid_block(data@, palette_size) && T::accepts(data@, palette_size)
                && T::rev_accepts(td, tps) && T::reversed(td, tps) == (data@, palette_size)
        }),
        ({
            let (td, tps) = T::transformed(data@, palette_size);
            (valid_block(data@, palette_size) && T::accepts(data@, palette_size)
                && T::rev_accepts(td, tps) && T::reversed(td, tps) == (data@, palette_size))
                ==> r is Ok
        }),
{
    let ghost tdtps = T::transformed(data@, palette_size);
    if !check_block(data, palette_size) {
        return Err(PipelineError::SymbolOutOfRange);
    }
    let mut block = crate::integertransformers::clone_block(data);
    let mut tps = palette_size;
    match T::transform(&mut block, &mut tps) {
        Ok(()) => {},
        Err(e) => {
            return Err(e);
        },
    }
    let ghost td = block@;
    let mut encoded: Vec<u8> = Vec::new();
    C::encode(&block, &mut encoded, tps);
    let mut compressed: Vec<u8> = Vec::new();
    B::compress(&encoded, &mut compressed);
    // Inverse chain: decompress, decode, reverse the transform.
    let mut decompressed: Vec<u8> = Vec::new();
    match B::decompress(&compressed, &mut decompressed) {
        Ok(()) => {},
        Err(e) => {
            return Err(e);
        },
    }
    proof {
        assert(decompressed@ == encoded@);
    }
    let mut decoded: Vec<u32> = Vec::new();
    match C::decode(&decompressed, &mut decoded, tps) {
        Ok(()) => {},
        Err(e) => {
            return Err(e);
        },
    }
    proof {
        assert(valid_block(td, tps));
        assert(decoded@ == td);
    }
    let mut rps = tps;
    match T::reverse(&mut decoded, &mut rps) {
        Ok(()) => {},
        Err(e) => {
            return Err(e);
        },
    }
    let same_ps = rps == palette_size;
    let mut same = same_ps;
    let mut k: usize = 0;
    while k < BLOCK_LEN
        invariant
            data@.len() == BLOCK_LEN,
            decoded@.len() == BLOCK_LEN,
            k <= BLOCK_LEN,
            same == (same_ps && forall|i: int| 0 <= i < k ==> data@[i] == decoded@[i]),
            same_ps == (rps == palette_size),
        decreases BLOCK_LEN - k,
    {
        if data[k] != decoded[k] {
            same = false;
        }
        k = k + 1;
    }
    if same {
        proof {
            assert(data@ =~= decoded@);
        }
        Ok(())
    } else {
        proof {
            if T::rev_accepts(td, tps) && T::reversed(td, tps) == (data@, palette_size) {
                assert(decoded@ =~= data@);
                assert(false);
            }
        }
        Err(PipelineError::NotInvertible)
    }
}

/// The fixed reference point for comparison tests: the one-byte-per-symbol
/// coder under the pass-through compressor always yields exactly 4096 bytes,
/// independent of the block's content.
pub proof fn lemma_bytewise_identity_size(data: Seq<u32>, palette_size: u32)
    requires
        data.len() == BLOCK_LEN,
    ensures
        crate::bytecompressors::Identity::compressed(
            crate::integercoders::Bytewise::encoded(data, palette_size),
        ).len() == BLOCK_LEN,
{
}

} // verus!
