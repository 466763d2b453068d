//! Integer coders: entropy-code a 4096-symbol block into bytes and back.
//!
//! The symbol count is always exactly 4096 and no end-of-stream marker is
//! written: both sides know the count.  Two strategies are offered: an
//! adaptive, order-0 arithmetic coder, and a trivial one-byte-per-symbol
//! baseline used as the control condition when measuring transforms.

use vstd::prelude::*;

use crate::BLOCK_LEN;
use crate::PipelineError;
use crate::valid_block;

verus! {

/// The byte stream that the adaptive arithmetic coder produces for a block
/// and a palette size: a pure function of the two arguments (the frequency
/// model starts uniform over `0..palette_size` and both sides update it
/// identically after every symbol).  This name stands for its result.
pub uninterp spec fn arith_encoding(data: Seq<u32>, palette_size: u32) -> Seq<u8>;

/// Relies on arcode's ArithmeticEncoder with a Model over `0..palette_size`
/// and no end-of-file symbol: the emitted, byte-padded stream is a pure
/// function of the symbols and the palette size, here named `arith_encoding`.
/// Writing to an in-memory buffer cannot fail; every symbol is below
/// `palette_size`, which the model's update requires.
#[verifier::external_body]
fn arith_encode_raw(data: &Vec<u32>, palette_size: u32) -> (r: Vec<u8>)
    requires
        palette_size >= 1,
        forall|i: int| 0 <= i < data@.len() ==> data@[i] < palette_size,
    ensures
        r@ == arith_encoding(data@, palette_size),
{
    let mut model = arcode::Model::builder().num_symbols(palette_size).eof(
        arcode::EOFKind::None,
    ).build();
    let mut writer = bitbit::BitWriter::new(std::io::Cursor::new(Vec::new()));
    let mut encoder = arcode::ArithmeticEncoder::new(32);
    for &sym in data.iter() {
        encoder.encode(sym, &model, &mut writer).unwrap();
        model.update_symbol(sym);
    }
    encoder.finish_encode(&mut writer).unwrap();
    writer.pad_to_byte().unwrap();
    writer.get_ref().get_ref().clone()
}

/// What the arithmetic decoder makes of the given bytes at the given palette
/// size, reading a fixed 4096 symbols: the symbols, or nothing when the
/// stream runs out first.  A pure function of the two arguments; this name
/// stands for its result.
pub uninterp spec fn arith_decoding(data: Seq<u8>, palette_size: u32) -> Option<Seq<u32>>;

/// Relies on arcode's ArithmeticDecoder: what it decodes, or that the stream
/// ran out, is a pure function of the bytes and the palette size, here named
/// `arith_decoding`; and decoding a stream that the encoder wrote, with the
/// identically built and identically updated model and the same fixed symbol
/// count, returns the encoder's exact input symbols.  On other inputs it
/// returns some symbols below `palette_size` or reports that the stream ran
/// out.
#[verifier::external_body]
fn arith_decode_raw(data: &Vec<u8>, palette_size: u32) -> (r: Result<
    Vec<u32>,
    std::io::Error,
>)
    requires
        palette_size >= 1,
    ensures
        r is Ok <==> arith_decoding(data@, palette_size) is Some,
        r is Ok ==> r->Ok_0@ == arith_decoding(data@, palette_size)->Some_0,
        r is Ok ==> r->Ok_0@.len() == BLOCK_LEN && forall|i: int|
            0 <= i < r->Ok_0@.len() ==> r->Ok_0@[i] < palette_size,
        r is Ok ==> forall|s: Seq<u32>|
            valid_block(s, palette_size) && data@ == #[trigger] arith_encoding(s, palette_size)
                ==> r->Ok_0@ == s,
        r is Err ==> forall|s: Seq<u32>|
            valid_block(s, palette_size) ==> data@ != #[trigger] arith_encoding(s, palette_size),
{
    let mut model = arcode::Model::builder().num_symbols(palette_size).eof(
        arcode::EOFKind::None,
    ).build();
    let mut reader = bitbit::BitReader::<_, bitbit::MSB>::new(&data[..]);
    let mut decoder = arcode::ArithmeticDecoder::new(32);
    let mut out: Vec<u32> = Vec::with_capacity(4096);
    for _ in 0..4096 {
        let sym = decoder.decode(&model, &mut reader)?;
        model.update_symbol(sym);
        out.push(sym);
    }
    Ok(out)
}

/// An entropy coder for one 4096-symbol block.
///
/// `encode` appends to `dest` the coded form of `data`, a pure function of
/// the block and the palette size; every symbol must already be below the
/// palette size (an upstream contract, not validated here).  `decode`
/// rebuilds the block: decoding any value that `encode` produced, with the
/// same palette size, succeeds and restores the exact block.
pub trait IntegerCoder {
    /// Which palette sizes this coder accepts.
    spec fn valid_palette(palette_size: u32) -> bool;

    /// The coded form of a block.
    spec fn encoded(data: Seq<u32>, palette_size: u32) -> Seq<u8>;

    /// Whether the coder decodes `data` at all at this palette size.
    spec fn decodable(data: Seq<u8>, palette_size: u32) -> bool;

    /// The block the coder reads out of a decodable `data`.
    spec fn decoded(data: Seq<u8>, palette_size: u32) -> Seq<u32>;

    /// Append the coded form of `data` to `dest`.
    fn encode(data: &Vec<u32>, dest: &mut Vec<u8>, palette_size: u32)
        requires
            valid_block(data@, palette_size),
            palette_size >= 1,
            Self::valid_palette(palette_size),
        ensures
            final(dest)@ == old(dest)@ + Self::encoded(data@, palette_size),
    ;

    /// Replace `dest` with the block coded in `data`.
    ///
    /// Succeeds exactly on the byte streams the coder decodes, and then
    /// yields exactly what it decoded; and decoding the coded form of any
    /// valid block restores that block — the coder round-trip, stated here
    /// for every implementation.
    fn decode(data: &Vec<u8>, dest: &mut Vec<u32>, palette_size: u32) -> (r: Result<
        (),
        PipelineError,
    >)
        requires
            palette_size >= 1,
            Self::valid_palette(palette_size),
        ensures
            r is Ok <==> Self::decodable(data@, palette_size),
            r is Ok ==> final(dest)@ == Self::decoded(data@, palette_size),
            r is Ok ==> final(dest)@.len() == BLOCK_LEN,
            forall|s: Seq<u32>|
                valid_block(s, palette_size) && data@ == #[trigger] Self::encoded(s, palette_size)
                    ==> r is Ok && final(dest)@ == s,
            r is Err ==> r == Err::<(), PipelineError>(PipelineError::UnderflowOnDecode)
                && final(dest)@ == old(dest)@,
    ;
}

/// The adaptive, order-0 arithmetic coder.
pub struct ArithmeticCoding;

impl IntegerCoder for ArithmeticCoding {
    open spec fn valid_palette(palette_size: u32) -> bool {
        true
    }

    open spec fn encoded(data: Seq<u32>, palette_size: u32) -> Seq<u8> {
        arith_encoding(data, palette_size)
    }

    open spec fn decodable(data: Seq<u8>, palette_size: u32) -> bool {
        arith_decoding(data, palette_size) is Some
    }

    open spec fn decoded(data: Seq<u8>, palette_size: u32) -> Seq<u32> {
        arith_decoding(data, palette_size)->Some_0
    }

    fn encode(data: &Vec<u32>, dest: &mut Vec<u8>, palette_size: u32) {
        let out = arith_encode_raw(data, palette_size);
        dest.extend_from_slice(out.as_slice());
    }

    fn decode(data: &Vec<u8>, dest: &mut Vec<u32>, palette_size: u32) -> (r: Result<
        (),
        PipelineError,
    >) {
        match arith_decode_raw(data, palette_size) {
            Ok(out) => {
                dest.clear();
                dest.extend_from_slice(out.as_slice());
                Ok(())
            },
            Err(_) => Err(PipelineError::UnderflowOnDecode),
        }
    }
}

/// The one-byte-per-symbol baseline: stores each symbol verbatim.  Only
/// valid when the palette size is at most 256, so that a symbol fits a byte.
pub struct Bytewise;

impl IntegerCoder for Bytewise {
    open spec fn valid_palette(palette_size: u32) -> bool {
        palette_size <= 256
    }

    open spec fn encoded(data: Seq<u32>, palette_size: u32) -> Seq<u8> {
        data.map_values(|v: u32| v as u8)
    }

    open spec fn decodable(data: Seq<u8>, palette_size: u32) -> bool {
        data.len() >= BLOCK_LEN
    }

    open spec fn decoded(data: Seq<u8>, palette_size: u32) -> Seq<u32> {
        data.take(BLOCK_LEN as int).map_values(|b: u8| b as u32)
    }

    fn encode(data: &Vec<u32>, dest: &mut Vec<u8>, palette_size: u32) {
        let ghost dest0 = dest@;
        let mut i: usize = 0;
        while i < data.len()
            invariant
                valid_block(data@, palette_size),
                palette_size <= 256,
                i <= data@.len(),
                dest@ == dest0 + data@.take(i as int).map_values(|v: u32| v as u8),
            decreases data@.len() - i,
        {
            let v = data[i];
            dest.push(v as u8);
            proof {
                assert(data@.take(i + 1 as int).map_values(|v: u32| v as u8) =~= data@.take(
                    i as int,
                ).map_values(|v: u32| v as u8).push(data@[i as int] as u8));
                assert(dest@ =~= dest0 + data@.take(i + 1 as int).map_values(|v: u32| v as u8));
            }
            i = i + 1;
        }
        proof {
            assert(data@.take(data@.len() as int) =~= data@);
        }
    }

    fn decode(data: &Vec<u8>, dest: &mut Vec<u32>, palette_size: u32) -> (r: Result<
        (),
        PipelineError,
    >) {
        if data.len() < BLOCK_LEN {
            proof {
                assert forall|s: Seq<u32>| valid_block(s, palette_size) implies data@
                    != #[trigger] Self::encoded(s, palette_size) by {
                    assert(Self::encoded(s, palette_size).len() == s.len());
                }
            }
            return Err(PipelineError::UnderflowOnDecode);
        }
        dest.clear();
        let mut i: usize = 0;
        while i < BLOCK_LEN
            invariant
                data@.len() >= BLOCK_LEN,
                i <= BLOCK_LEN,
                dest@.len() == i,
                forall|j: int| 0 <= j < i ==> dest@[j] == data@[j] as u32,
            decreases BLOCK_LEN - i,
        {
            let v = data[i];
            dest.push(v as u32);
            i = i + 1;
        }
        proof {
            assert(dest@ =~= data@.take(BLOCK_LEN as int).map_values(|b: u8| b as u32));
            assert forall|s: Seq<u32>|
                valid_block(s, palette_size) && data@ == #[trigger] Self::encoded(
                    s,
                    palette_size,
                ) implies dest@ == s by {
                assert(Self::encoded(s, palette_size).len() == s.len());
                assert forall|j: int| 0 <= j < s.len() implies dest@[j] == s[j] by {
                    assert(data@[j] == Self::encoded(s, palette_size)[j]);
                    assert(data@[j] == s[j] as u8);
                    assert(s[j] < 256);
                }
                assert(dest@ =~= s);
            }
        }
        Ok(())
    }
}

} // verus!
