//! Compression strategies for fixed-size blocks of palette indices.
//!
//! A block is a sequence of exactly 4096 unsigned symbols, each indexing a
//! per-block palette.  The pipeline unpacks a block from a densely bit-packed
//! word stream, reorders or recodes it with a reversible transform, entropy-
//! codes it into bytes, and finally applies a generic byte compressor.  Every
//! stage is specified here and the reversible stages carry round-trip proofs.

use vstd::prelude::*;

pub mod bitcodec;
pub mod bytecompressors;
pub mod chain;
pub mod integercoders;
pub mod integertransformers;
pub mod pipeline;

verus! {

use vstd::arithmetic::power2::pow2;
use vstd::arithmetic::power2::lemma_pow2_strictly_increases;
use vstd::arithmetic::power2::lemma2_to64;
use vstd::arithmetic::power2::lemma_pow2_unfold;

/// Failure of one pipeline stage.
///
/// Transforms, coders and compressors are deterministic, so a failure is
/// final: it is surfaced to the caller, never retried and never replaced by
/// identity output.
#[derive(Clone, Copy, Debug, PartialEq, Eq, Structural)]
pub enum PipelineError {
    /// A requested bit width was 0 or greater than 32.
    InvalidBitWidth,
    /// A symbol at or above the palette size entered a stage that assumes
    /// every symbol indexes the palette.
    SymbolOutOfRange,
    /// A packed word stream held fewer words than the requested symbol count
    /// needs.
    UnderflowOnDecode,
    /// The generic byte compressor reported a format error on decompression.
    CompressorFailure,
    /// The transform records no side channel that its reversal would need.
    NotInvertible,
}

/// The number of symbols in one block: one chunk section's 16 by 16 by 16
/// voxels in a fixed linearization order.
pub const BLOCK_LEN: usize = 4096;

/// A well-formed symbol block for a palette of `palette_size` entries:
/// exactly 4096 symbols, each below the palette size.
pub open spec fn valid_block(s: Seq<u32>, palette_size: u32) -> bool {
    s.len() == BLOCK_LEN && forall|i: int| 0 <= i < s.len() ==> s[i] < palette_size
}

/// The least `b` with `n <= pow2(b)`: the number of bits that can tell `n`
/// values apart.
pub open spec fn ceil_log2(n: nat) -> nat
    decreases n,
{
    if n <= 1 {
        0
    } else {
        1 + ceil_log2(((n + 1) / 2) as nat)
    }
}

/// The bit width at which symbols of a palette of `n` entries are packed.
/// The packed format never uses fewer than 4 bits per entry.
pub open spec fn bit_width_of(n: nat) -> nat {
    if ceil_log2(n) < 4 {
        4
    } else {
        ceil_log2(n)
    }
}

/// `ceil_log2(n)` is indeed an upper bit count for `n`, and one bit fewer
/// does not suffice.
pub proof fn lemma_ceil_log2(n: nat)
    requires
        n >= 1,
    ensures
        n <= pow2(ceil_log2(n)),
        n >= 2 ==> pow2((ceil_log2(n) - 1) as nat) < n,
    decreases n,
{
    lemma2_to64();
    if n >= 2 {
        let m = ((n + 1) / 2) as nat;
        lemma_ceil_log2(m);
        assert(ceil_log2(n) == 1 + ceil_log2(m));
        lemma_pow2_unfold(ceil_log2(n));
        assert(pow2(ceil_log2(n)) == 2 * pow2(ceil_log2(m)));
        assert(2 * m >= n);
        if m >= 2 {
            assert(ceil_log2(m) >= 1);
            lemma_pow2_unfold(ceil_log2(m));
            assert(pow2(ceil_log2(m)) == 2 * pow2((ceil_log2(m) - 1) as nat));
            assert(pow2(ceil_log2(m)) < 2 * m);
            if n % 2 == 1 {
                assert(n == 2 * m - 1);
                assert(pow2(ceil_log2(m)) % 2 == 0);
                assert(pow2(ceil_log2(m)) < n);
            } else {
                assert(n == 2 * m);
            }
        } else {
            assert(m == 1);
            assert(n == 2);
        }
    }
}

/// `ceil_log2` is the least such bit count: any `b` with `n <= pow2(b)` is at
/// least `ceil_log2(n)`.
pub proof fn lemma_ceil_log2_least(n: nat, b: nat)
    requires
        n >= 1,
        n <= pow2(b),
    ensures
        ceil_log2(n) <= b,
{
    if ceil_log2(n) > b {
        lemma_ceil_log2(n);
        assert(n >= 2);
        if b < ceil_log2(n) - 1 {
            lemma_pow2_strictly_increases(
                b,
                (ceil_log2(n) - 1) as nat,
            );
        }
        assert(pow2(b) <= pow2((ceil_log2(n) - 1) as nat));
        assert(false);
    }
}

/// The bit width of a palette covers all its indices: `pow2(bit_width_of(n))`
/// is at least `n`.
pub proof fn lemma_bit_width_covers(n: nat)
    requires
        n >= 1,
    ensures
        n <= pow2(bit_width_of(n)),
{
    lemma_ceil_log2(n);
    if ceil_log2(n) < bit_width_of(n) {
        lemma_pow2_strictly_increases(ceil_log2(n), bit_width_of(n));
    }
}

/// The bit width for a palette of `palette_size` entries:
/// `max(4, ceil_log2(palette_size))`, the smallest width of at least 4 bits
/// whose range covers every palette index.
pub fn bit_width(palette_size: u32) -> (w: u8)
    requires
        palette_size >= 1,
    ensures
        w as nat == bit_width_of(palette_size as nat),
        4 <= w <= 32,
{
    proof {
        lemma2_to64();
    }
    let mut w: u8 = 4;
    let mut cap: u64 = 16;
    while cap < palette_size as u64
        invariant
            4 <= w <= 32,
            cap as nat == pow2(w as nat),
            cap <= 0x1_0000_0000,
            w > 4 ==> pow2((w - 1) as nat) < palette_size as nat,
            palette_size >= 1,
        decreases 0x1_0000_0000 - cap as int,
    {
        proof {
            assert(cap < palette_size);
            assert(palette_size <= u32::MAX);
            lemma2_to64();
            if w >= 32 {
                if w > 32 {
                    lemma_pow2_strictly_increases(32, w as nat);
                }
                assert(cap >= 0x1_0000_0000);
                assert(false);
            }
            lemma_pow2_unfold((w + 1) as nat);
            assert(2 * cap as nat == pow2((w + 1) as nat));
            if w as nat + 1 < 32 {
                lemma_pow2_strictly_increases((w + 1) as nat, 32);
            }
            assert(2 * cap as nat <= pow2(32));
        }
        w = w + 1;
        cap = cap * 2;
    }
    proof {
        let ps = palette_size as nat;
        let c = ceil_log2(ps);
        lemma_ceil_log2(ps);
        lemma_ceil_log2_least(ps, w as nat);
        if w == 4 {
            assert(bit_width_of(ps) == 4);
        } else {
            assert(pow2((w - 1) as nat) < ps);
            if c <= w as nat - 1 {
                if c < w as nat - 1 {
                    lemma_pow2_strictly_increases(c, (w - 1) as nat);
                }
                assert(pow2(c) <= pow2(
                    (w - 1) as nat,
                ));
                assert(false);
            }
            assert(c == w as nat);
            assert(c >= 5);
        }
    }
    w
}

} // verus!
