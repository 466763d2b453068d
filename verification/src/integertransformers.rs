//! Integer transformers: reversible, in-place recodings of a 4096-symbol
//! block that reshape its statistics to make it more compressible.
//!
//! A transform mutates the block in place and may grow (never shrink) the
//! palette size; its reverse undoes the effect given the post-transform
//! palette size.  The move-to-front family and the space-filling-curve
//! reorderings round-trip exactly; the delta recoding and the adaptive curve
//! choice record no side channel that their reversal would need, so their
//! reversal reports [`PipelineError::NotInvertible`] instead of guessing.

use vstd::arithmetic::power2::pow2;
use vstd::prelude::*;

use crate::BLOCK_LEN;
use crate::PipelineError;
use crate::bit_width_of;
use crate::ceil_log2;
use crate::lemma_ceil_log2_least;

verus! {

/// A reversible recoding of one symbol block.
///
/// `transform` rewrites the block in place and may grow the palette size;
/// `reverse`, given the post-transform palette size, restores the original
/// block and palette size.  A transform that meets a symbol at or above the
/// palette size where it assumes the block invariant reports
/// [`PipelineError::SymbolOutOfRange`] and leaves its input unchanged; a
/// reversal that would need a side channel the transform does not record
/// reports [`PipelineError::NotInvertible`].
///
/// Palette sizes are capped at `pow2(31)` so that a palette widened to the
/// next power of two, or grown by two escape symbols, still fits the 32-bit
/// palette type.
pub trait IntegerTransformer {
    /// The inputs the transform accepts; on others it reports an error.
    spec fn accepts(data: Seq<u32>, palette_size: u32) -> bool;

    /// The transformed block and the post-transform palette size.
    spec fn transformed(data: Seq<u32>, palette_size: u32) -> (Seq<u32>, u32);

    /// The inputs the reversal accepts; on others it reports an error.
    spec fn rev_accepts(data: Seq<u32>, palette_size: u32) -> bool;

    /// The restored block and palette size.
    spec fn reversed(data: Seq<u32>, palette_size: u32) -> (Seq<u32>, u32);

    /// Rewrite `data` in place; may grow `palette_size`.
    fn transform(data: &mut Vec<u32>, palette_size: &mut u32) -> (r: Result<(), PipelineError>)
        requires
            old(data)@.len() == BLOCK_LEN,
            1 <= *old(palette_size) <= 0x8000_0000,
        ensures
            final(data)@.len() == BLOCK_LEN,
            r is Ok <==> Self::accepts(old(data)@, *old(palette_size)),
            r is Ok ==> (final(data)@, *final(palette_size)) == Self::transformed(
                old(data)@,
                *old(palette_size),
            ),
            r is Ok ==> *old(palette_size) <= *final(palette_size) <= 0x8000_0002,
            r is Ok && (forall|i: int|
                0 <= i < old(data)@.len() ==> #[trigger] old(data)@[i] < *old(palette_size))
                ==> forall|i: int|
                0 <= i < final(data)@.len() ==> #[trigger] final(data)@[i] < *final(
                palette_size),
            r is Err ==> final(data)@ == old(data)@ && *final(palette_size) == *old(palette_size)
                && r == Err::<(), PipelineError>(PipelineError::SymbolOutOfRange),
    ;

    /// Undo `transform`, given the post-transform palette size.
    fn reverse(data: &mut Vec<u32>, palette_size: &mut u32) -> (r: Result<(), PipelineError>)
        requires
            old(data)@.len() == BLOCK_LEN,
            1 <= *old(palette_size) <= 0x8000_0002,
        ensures
            final(data)@.len() == BLOCK_LEN,
            r is Ok <==> Self::rev_accepts(old(data)@, *old(palette_size)),
            r is Ok ==> (final(data)@, *final(palette_size)) == Self::reversed(
                old(data)@,
                *old(palette_size),
            ),
            r is Err ==> final(data)@ == old(data)@ && *final(palette_size) == *old(palette_size)
                && (r == Err::<(), PipelineError>(PipelineError::SymbolOutOfRange) || r == Err::<
                    (),
                    PipelineError,
                >(PipelineError::NotInvertible)),
    ;
}

/// The do-nothing transform: the baseline every other transform is measured
/// against.
pub struct Identity;

impl IntegerTransformer for Identity {
    open spec fn accepts(data: Seq<u32>, palette_size: u32) -> bool {
        true
    }

    open spec fn transformed(data: Seq<u32>, palette_size: u32) -> (Seq<u32>, u32) {
        (data, palette_size)
    }

    open spec fn rev_accepts(data: Seq<u32>, palette_size: u32) -> bool {
        true
    }

    open spec fn reversed(data: Seq<u32>, palette_size: u32) -> (Seq<u32>, u32) {
        (data, palette_size)
    }

    fn transform(data: &mut Vec<u32>, palette_size: &mut u32) -> (r: Result<(), PipelineError>) {
        Ok(())
    }

    fn reverse(data: &mut Vec<u32>, palette_size: &mut u32) -> (r: Result<(), PipelineError>) {
        Ok(())
    }
}

/// The identity transform round-trips on every block.
pub proof fn lemma_identity_round_trip(data: Seq<u32>, palette_size: u32)
    ensures
        ({
            let (td, tps) = Identity::transformed(data, palette_size);
            Identity::rev_accepts(td, tps) && Identity::reversed(td, tps) == (data, palette_size)
        }),
{
}

/// One element of the delta recoding: the difference to the previous element
/// (0 before the first), modulo `pow2(num_bits)`.
pub open spec fn delta_at(data: Seq<u32>, num_bits: nat, i: int) -> u32 {
    (((data[i] - (if i == 0 {
        0int
    } else {
        data[i - 1] as int
    })) % (pow2(num_bits) as int)) as u32)
}

/// The delta recoding of a block at a given bit width.
pub open spec fn delta_seq(data: Seq<u32>, num_bits: nat) -> Seq<u32> {
    Seq::new(data.len(), |i: int| delta_at(data, num_bits, i))
}

/// Replaces each value by its wrapping difference to the previous value, at
/// the bit width derived from the palette size; widens the palette to the
/// full range of that bit width.
///
/// Only the forward direction is provided: a faithful reversal is an open
/// question of this design, so `reverse` reports
/// [`PipelineError::NotInvertible`] and this transform is excluded from the
/// round-trip law.
pub struct DeltaLeft;

impl IntegerTransformer for DeltaLeft {
    open spec fn accepts(data: Seq<u32>, palette_size: u32) -> bool {
        true
    }

    open spec fn transformed(data: Seq<u32>, palette_size: u32) -> (Seq<u32>, u32) {
        (
            delta_seq(data, bit_width_of(palette_size as nat)),
            pow2(bit_width_of(palette_size as nat)) as u32,
        )
    }

    open spec fn rev_accepts(data: Seq<u32>, palette_size: u32) -> bool {
        false
    }

    open spec fn reversed(data: Seq<u32>, palette_size: u32) -> (Seq<u32>, u32) {
        (data, palette_size)
    }

    fn transform(data: &mut Vec<u32>, palette_size: &mut u32) -> (r: Result<(), PipelineError>) {
        let ghost data0 = data@;
        let ps = *palette_size;
        let num_bits = crate::bit_width(ps);
        proof {
            lemma_num_bits_at_most_31(ps);
            vstd::arithmetic::power2::lemma2_to64();
            vstd::arithmetic::power2::lemma_pow2_pos(num_bits as nat);
            vstd::bits::lemma_u32_shl_is_mul(1u32, num_bits as u32);
        }
        let mask: u32 = (1u32 << (num_bits as u32)) - 1;
        let mut prev: u32 = 0;
        let mut k: usize = 0;
        while k < data.len()
            invariant
                data@.len() == data0.len(),
                k <= data0.len(),
                4 <= num_bits <= 31,
                num_bits as nat == bit_width_of(ps as nat),
                mask == (1u32 << (num_bits as u32)) - 1,
                mask as int == pow2(num_bits as nat) - 1,
                prev == (if k == 0 {
                    0u32
                } else {
                    data0[k - 1]
                }),
                forall|i: int| 0 <= i < k ==> data@[i] == delta_at(data0, num_bits as nat, i),
                forall|i: int| k <= i < data0.len() ==> data@[i] == data0[i],
            decreases data0.len() - k,
        {
            let v = data[k];
            let d = v.wrapping_sub(prev) & mask;
            proof {
                lemma_wrapping_delta(v, prev, num_bits as u32);
                assert(data0[k as int] == v);
            }
            data.set(k, d);
            prev = v;
            k = k + 1;
        }
        proof {
            assert(data@ =~= delta_seq(data0, num_bits as nat));
            vstd::arithmetic::power2::lemma2_to64();
            vstd::arithmetic::power2::lemma_pow2_pos(num_bits as nat);
            if num_bits < 31 {
                vstd::arithmetic::power2::lemma_pow2_strictly_increases(num_bits as nat, 31);
            }
            vstd::bits::lemma_u32_shl_is_mul(1u32, num_bits as u32);
            crate::lemma_bit_width_covers(ps as nat);
            assert forall|i: int| 0 <= i < data@.len() implies #[trigger] data@[i] < pow2(
                num_bits as nat,
            ) as u32 by {
                vstd::arithmetic::div_mod::lemma_mod_bound(
                    data0[i] - (if i == 0 {
                        0int
                    } else {
                        data0[i - 1] as int
                    }),
                    pow2(num_bits as nat) as int,
                );
            };
        }
        *palette_size = 1u32 << (num_bits as u32);
        Ok(())
    }

    /// The failure is always the clear not-invertible report, never a range
    /// complaint.
    fn reverse(data: &mut Vec<u32>, palette_size: &mut u32) -> (r: Result<(), PipelineError>)
        ensures
            r == Err::<(), PipelineError>(PipelineError::NotInvertible),
    {
        Err(PipelineError::NotInvertible)
    }
}

/// The bit width of a palette of at most `pow2(31)` entries fits in 31 bits.
proof fn lemma_num_bits_at_most_31(palette_size: u32)
    requires
        1 <= palette_size <= 0x8000_0000,
    ensures
        bit_width_of(palette_size as nat) <= 31,
        pow2(bit_width_of(palette_size as nat)) <= 0x8000_0000,
{
    vstd::arithmetic::power2::lemma2_to64();
    lemma_ceil_log2_least(palette_size as nat, 31);
    assert(ceil_log2(palette_size as nat) <= 31);
    if bit_width_of(palette_size as nat) < 31 {
        vstd::arithmetic::power2::lemma_pow2_strictly_increases(
            bit_width_of(palette_size as nat),
            31,
        );
    }
}

/// The masked wrapping difference is the difference modulo `pow2(num_bits)`.
proof fn lemma_wrapping_delta(v: u32, prev: u32, num_bits: u32)
    requires
        4 <= num_bits <= 31,
    ensures
        vstd::wrapping::u32_specs::wrapping_sub(v, prev) & (((1u32 << num_bits) - 1) as u32) == (
        ((v - prev) % (pow2(num_bits as nat) as int)) as u32),
{
    let nb = num_bits as nat;
    let w = vstd::wrapping::u32_specs::wrapping_sub(v, prev);
    let m = pow2(nb) as int;
    vstd::arithmetic::power2::lemma2_to64();
    vstd::arithmetic::power2::lemma_pow2_pos(nb);
    if num_bits < 31 {
        vstd::arithmetic::power2::lemma_pow2_strictly_increases(nb, 31);
    }
    vstd::bits::lemma_u32_shl_is_mul(1u32, num_bits);
    assert((((1u32 << num_bits) - 1) as u32) == vstd::bits::low_bits_mask(nb) as u32);
    vstd::bits::lemma_u32_low_bits_mask_is_mod(w, nb);
    assert(w & (((1u32 << num_bits) - 1) as u32) == w % (pow2(nb) as u32));
    assert(w % ((pow2(nb) as u32)) == (w as int) % m);
    vstd::arithmetic::power2::lemma_pow2_adds(nb, (32 - num_bits) as nat);
    let q = pow2((32 - num_bits) as nat) as int;
    assert(pow2(32) == m * q);
    if v - prev < 0 {
        assert(w == v - prev + 0x1_0000_0000);
        assert(pow2(32) == 0x1_0000_0000);
        vstd::arithmetic::div_mod::lemma_mod_multiples_vanish(q, v - prev, m);
        assert((m * q + (v - prev)) % m == (v - prev) % m);
        assert(m * q == pow2(32));
        assert(w as int == m * q + (v - prev));
    }
}

/// The rank of the first occurrence of `v` in `s`, or `-1` if `v` does not
/// occur.
pub open spec fn seq_find(s: Seq<u32>, v: u32) -> int
    decreases s.len(),
{
    if s.len() == 0 {
        -1
    } else if s[0] == v {
        0
    } else {
        let r = seq_find(s.drop_first(), v);
        if r < 0 {
            -1
        } else {
            1 + r
        }
    }
}

/// `seq_find` finds the first occurrence: on a sequence containing `v` it
/// returns a valid index holding `v` with no earlier occurrence.
pub proof fn lemma_seq_find(s: Seq<u32>, v: u32)
    ensures
        s.contains(v) ==> 0 <= seq_find(s, v) < s.len() && s[seq_find(s, v)] == v && forall|j: int|
            0 <= j < seq_find(s, v) ==> s[j] != v,
        !s.contains(v) ==> seq_find(s, v) == -1,
    decreases s.len(),
{
    if s.len() > 0 && s[0] != v {
        lemma_seq_find(s.drop_first(), v);
        if s.contains(v) {
            let w = choose|i: int| 0 <= i < s.len() && s[i] == v;
            assert(s.drop_first()[w - 1] == v);
            assert(s.drop_first().contains(v));
            assert forall|j: int| 0 <= j < seq_find(s, v) implies s[j] != v by {
                if j > 0 {
                    assert(s.drop_first()[j - 1] != v);
                }
            };
        } else {
            if s.drop_first().contains(v) {
                let w = choose|i: int| 0 <= i < s.drop_first().len() && s.drop_first()[i] == v;
                assert(s[w + 1] == v);
            }
        }
    }
}

/// The ranking list after one move-to-front step: the value at rank `r`
/// moves to rank 0.
pub open spec fn mtf_front(state: Seq<u32>, r: int) -> Seq<u32> {
    seq![state[r]] + state.remove(r)
}

/// The initial ranking list: all values `0..palette_size` in ascending
/// order.
pub open spec fn initial_state(palette_size: u32) -> Seq<u32> {
    Seq::new(palette_size as nat, |i: int| i as u32)
}

/// Moving a rank to the front keeps the ranking list's length and contents.
pub proof fn lemma_mtf_front(state: Seq<u32>, r: int)
    requires
        0 <= r < state.len(),
    ensures
        mtf_front(state, r).len() == state.len(),
        mtf_front(state, r)[0] == state[r],
        forall|x: u32| mtf_front(state, r).contains(x) <==> state.contains(x),
{
    let t = mtf_front(state, r);
    assert forall|x: u32| t.contains(x) implies state.contains(x) by {
        let j = choose|j: int| 0 <= j < t.len() && t[j] == x;
        if j == 0 {
            assert(state[r] == x);
        } else if j - 1 < r {
            assert(state[j - 1] == x);
        } else {
            assert(state[j] == x);
        }
    };
    assert forall|x: u32| state.contains(x) implies t.contains(x) by {
        let j = choose|j: int| 0 <= j < state.len() && state[j] == x;
        if j == r {
            assert(t[0] == x);
        } else if j < r {
            assert(t[j + 1] == x);
        } else {
            assert(t[j] == x);
        }
    };
}

/// The move-to-front ranks of a block, starting from a given ranking list.
pub open spec fn mtf_encode(data: Seq<u32>, state: Seq<u32>) -> Seq<u32>
    decreases data.len(),
{
    if data.len() == 0 {
        Seq::empty()
    } else {
        let r = seq_find(state, data[0]);
        seq![r as u32] + mtf_encode(data.drop_first(), mtf_front(state, r))
    }
}

/// The block recovered from move-to-front ranks, starting from a given
/// ranking list.
pub open spec fn mtf_decode(codes: Seq<u32>, state: Seq<u32>) -> Seq<u32>
    decreases codes.len(),
{
    if codes.len() == 0 {
        Seq::empty()
    } else {
        let r = codes[0] as int;
        seq![state[r]] + mtf_decode(codes.drop_first(), mtf_front(state, r))
    }
}

/// Move-to-front coding round-trips: decoding the ranks of a block, from the
/// same starting ranking list, restores the block; and every rank is below
/// the list's length.
pub proof fn lemma_mtf_codec(data: Seq<u32>, state: Seq<u32>)
    requires
        state.len() <= u32::MAX,
        forall|i: int| 0 <= i < data.len() ==> state.contains(#[trigger] data[i]),
    ensures
        mtf_encode(data, state).len() == data.len(),
        forall|i: int| 0 <= i < data.len() ==> #[trigger] mtf_encode(data, state)[i]
            < state.len(),
        mtf_decode(mtf_encode(data, state), state) == data,
    decreases data.len(),
{
    if data.len() > 0 {
        assert(state.contains(data[0]));
        lemma_seq_find(state, data[0]);
        let r = seq_find(state, data[0]);
        lemma_mtf_front(state, r);
        let state1 = mtf_front(state, r);
        assert(forall|i: int|
            0 <= i < data.drop_first().len() ==> state1.contains(
                #[trigger] data.drop_first()[i],
            ));
        lemma_mtf_codec(data.drop_first(), state1);
        let codes = mtf_encode(data, state);
        assert(codes.drop_first() =~= mtf_encode(data.drop_first(), state1));
        assert(codes[0] == r as u32);
        assert(r < state.len() <= u32::MAX);
        assert(codes[0] as int == r);
        assert(mtf_decode(codes, state) =~= seq![state[r]] + mtf_decode(
            codes.drop_first(),
            state1,
        ));
        assert(mtf_decode(codes, state) =~= data);
        assert forall|i: int| 0 <= i < data.len() implies #[trigger] codes[i] < state.len() by {
            if i > 0 {
                assert(codes[i] == mtf_encode(data.drop_first(), state1)[i - 1]);
            }
        };
    }
}


/// The initial ranking list holds exactly the values below the palette size,
/// in ascending order.
pub proof fn lemma_initial_state(palette_size: u32)
    ensures
        initial_state(palette_size).len() == palette_size,
        forall|x: u32| initial_state(palette_size).contains(x) <==> x < palette_size,
{
    let s = initial_state(palette_size);
    assert forall|x: u32| s.contains(x) implies x < palette_size by {
        let j = choose|j: int| 0 <= j < s.len() && s[j] == x;
    };
    assert forall|x: u32| x < palette_size implies s.contains(x) by {
        assert(s[x as int] == x);
    };
}

/// The rank of the first occurrence of `v` in `statemap`.
fn find_rank(statemap: &Vec<u32>, v: u32) -> (pos: usize)
    requires
        statemap@.contains(v),
    ensures
        pos == seq_find(statemap@, v),
        pos < statemap@.len(),
        statemap@[pos as int] == v,
{
    proof {
        lemma_seq_find(statemap@, v);
    }
    let ghost f = seq_find(statemap@, v);
    let n = statemap.len();
    let mut j: usize = 0;
    loop
        invariant_except_break
            statemap@.contains(v),
            f == seq_find(statemap@, v),
            n == statemap@.len(),
            0 <= f < statemap@.len(),
            statemap@[f] == v,
            forall|t: int| 0 <= t < f ==> statemap@[t] != v,
            j <= f,
        ensures
            j == seq_find(statemap@, v),
        decreases statemap@.len() - j,
    {
        if statemap[j] == v {
            proof {
                assert(j >= f) by {
                    if j < f {
                        assert(statemap@[j as int] != v);
                    }
                }
            }
            break ;
        }
        proof {
            assert(j != f);
        }
        j = j + 1;
    }
    j
}

/// Build the initial ranking list `0, 1, ..., palette_size - 1`.
fn build_statemap(palette_size: u32) -> (statemap: Vec<u32>)
    ensures
        statemap@ == initial_state(palette_size),
{
    let mut statemap: Vec<u32> = Vec::new();
    let mut j: u32 = 0;
    while j < palette_size
        invariant
            j <= palette_size,
            statemap@.len() == j,
            forall|t: int| 0 <= t < j ==> statemap@[t] == t as u32,
        decreases palette_size - j,
    {
        statemap.push(j);
        j = j + 1;
    }
    proof {
        assert(statemap@ =~= initial_state(palette_size));
    }
    statemap
}

/// Move-to-front: replaces each value by its current recency rank (0 is the
/// most recently seen) over a ranking list of all values below the palette
/// size, then moves the value to rank 0.  The palette size is unchanged; a
/// value at or above it is an invalid-input error.
pub struct MoveToFront;

impl IntegerTransformer for MoveToFront {
    open spec fn accepts(data: Seq<u32>, palette_size: u32) -> bool {
        forall|i: int| 0 <= i < data.len() ==> data[i] < palette_size
    }

    open spec fn transformed(data: Seq<u32>, palette_size: u32) -> (Seq<u32>, u32) {
        (mtf_encode(data, initial_state(palette_size)), palette_size)
    }

    open spec fn rev_accepts(data: Seq<u32>, palette_size: u32) -> bool {
        forall|i: int| 0 <= i < data.len() ==> data[i] < palette_size
    }

    open spec fn reversed(data: Seq<u32>, palette_size: u32) -> (Seq<u32>, u32) {
        (mtf_decode(data, initial_state(palette_size)), palette_size)
    }

    /// Every emitted rank is below the palette size: a plain move-to-front
    /// block never holds an escape symbol.
    fn transform(data: &mut Vec<u32>, palette_size: &mut u32) -> (r: Result<(), PipelineError>)
        ensures
            r is Ok ==> forall|i: int|
                0 <= i < final(data)@.len() ==> final(data)@[i] < *old(palette_size),
    {
        let ghost data0 = data@;
        let ps = *palette_size;
        let mut k: usize = 0;
        while k < data.len()
            invariant
                data0 == old(data)@,
                data0.len() == BLOCK_LEN,
                data@ == data0,
                k <= data0.len(),
                ps == *palette_size,
                *palette_size == *old(palette_size),
                forall|i: int| 0 <= i < k ==> data0[i] < ps,
            decreases data0.len() - k,
        {
            if data[k] >= ps {
                return Err(PipelineError::SymbolOutOfRange);
            }
            k = k + 1;
        }
        proof {
            lemma_initial_state(ps);
            lemma_mtf_codec(data0, initial_state(ps));
        }
        let mut statemap = build_statemap(ps);
        let ghost init = initial_state(ps);
        proof {
            assert(data0.skip(0) =~= data0);
            assert(data@.take(0) =~= Seq::<u32>::empty());
            assert(data@.take(0) + mtf_encode(data0, init) =~= mtf_encode(data0, init));
        }
        let mut k: usize = 0;
        while k < data.len()
            invariant
                data0 == old(data)@,
                data@.len() == data0.len(),
                k <= data0.len(),
                ps == *palette_size,
                *palette_size == *old(palette_size),
                1 <= ps,
                init == initial_state(ps),
                forall|i: int| 0 <= i < data0.len() ==> data0[i] < ps,
                statemap@.len() == ps,
                forall|x: u32| statemap@.contains(x) <==> x < ps,
                mtf_encode(data0, init) == data@.take(k as int) + mtf_encode(
                    data0.skip(k as int),
                    statemap@,
                ),
                forall|i: int| k <= i < data0.len() ==> data@[i] == data0[i],
            decreases data0.len() - k,
        {
            let v = data[k];
            assert(statemap@.contains(v));
            let pos = find_rank(&statemap, v);
            let ghost st = statemap@;
            let ghost dpre = data@;
            data.set(k, pos as u32);
            let moved = statemap.remove(pos);
            statemap.insert(0, moved);
            proof {
                assert(statemap@ =~= mtf_front(st, pos as int));
                lemma_mtf_front(st, pos as int);
                assert forall|x: u32| statemap@.contains(x) <==> x < ps by {
                    assert(statemap@.contains(x) <==> st.contains(x));
                }
                assert(data0.skip(k as int)[0] == data0[k as int]);
                assert(data0.skip(k as int).drop_first() =~= data0.skip(k as int + 1));
                assert(mtf_encode(data0.skip(k as int), st) =~= seq![pos as u32] + mtf_encode(
                    data0.skip(k as int + 1),
                    statemap@,
                ));
                assert(data@.take(k as int) =~= dpre.take(k as int));
                assert(data@.take(k as int + 1) =~= data@.take(k as int).push(pos as u32));
                assert(mtf_encode(data0, init) =~= data@.take(k as int + 1) + mtf_encode(
                    data0.skip(k as int + 1),
                    statemap@,
                ));
            }
            k = k + 1;
        }
        proof {
            assert(data0.skip(data0.len() as int) =~= Seq::<u32>::empty());
            assert(data@.take(data0.len() as int) =~= data@);
            assert(data@ =~= mtf_encode(data0, init));
        }
        Ok(())
    }

    fn reverse(data: &mut Vec<u32>, palette_size: &mut u32) -> (r: Result<(), PipelineError>) {
        let ghost data0 = data@;
        let ps = *palette_size;
        let mut k: usize = 0;
        while k < data.len()
            invariant
                data0 == old(data)@,
                data0.len() == BLOCK_LEN,
                data@ == data0,
                k <= data0.len(),
                ps == *palette_size,
                *palette_size == *old(palette_size),
                forall|i: int| 0 <= i < k ==> data0[i] < ps,
            decreases data0.len() - k,
        {
            if data[k] >= ps {
                return Err(PipelineError::SymbolOutOfRange);
            }
            k = k + 1;
        }
        let mut statemap = build_statemap(ps);
        let ghost init = initial_state(ps);
        proof {
            assert(data0.skip(0) =~= data0);
            assert(data@.take(0) =~= Seq::<u32>::empty());
            assert(data@.take(0) + mtf_decode(data0, init) =~= mtf_decode(data0, init));
        }
        let mut k: usize = 0;
        while k < data.len()
            invariant
                data0 == old(data)@,
                data@.len() == data0.len(),
                k <= data0.len(),
                ps == *palette_size,
                *palette_size == *old(palette_size),
                1 <= ps <= 0x8000_0002,
                init == initial_state(ps),
                forall|i: int| 0 <= i < data0.len() ==> data0[i] < ps,
                statemap@.len() == ps,
                mtf_decode(data0, init) == data@.take(k as int) + mtf_decode(
                    data0.skip(k as int),
                    statemap@,
                ),
                forall|i: int| k <= i < data0.len() ==> data@[i] == data0[i],
            decreases data0.len() - k,
        {
            let code = data[k];
            assert(code < ps);
            let pos = code as usize;
            let v = statemap[pos];
            let ghost st = statemap@;
            let ghost dpre = data@;
            data.set(k, v);
            let moved = statemap.remove(pos);
            statemap.insert(0, moved);
            proof {
                assert(statemap@ =~= mtf_front(st, pos as int));
                assert(data0.skip(k as int)[0] == data0[k as int]);
                assert(data0.skip(k as int).drop_first() =~= data0.skip(k as int + 1));
                assert(mtf_decode(data0.skip(k as int), st) =~= seq![v] + mtf_decode(
                    data0.skip(k as int + 1),
                    statemap@,
                ));
                assert(data@.take(k as int) =~= dpre.take(k as int));
                assert(data@.take(k as int + 1) =~= data@.take(k as int).push(v));
                assert(mtf_decode(data0, init) =~= data@.take(k as int + 1) + mtf_decode(
                    data0.skip(k as int + 1),
                    statemap@,
                ));
            }
            k = k + 1;
        }
        proof {
            assert(data0.skip(data0.len() as int) =~= Seq::<u32>::empty());
            assert(data@.take(data0.len() as int) =~= data@);
            assert(data@ =~= mtf_decode(data0, init));
        }
        Ok(())
    }
}

/// Move-to-front round-trips: reversing the transform, at the unchanged
/// palette size, restores the original block exactly.
pub proof fn lemma_move_to_front_round_trip(data: Seq<u32>, palette_size: u32)
    requires
        1 <= palette_size,
        forall|i: int| 0 <= i < data.len() ==> data[i] < palette_size,
    ensures
        ({
            let (td, tps) = MoveToFront::transformed(data, palette_size);
            MoveToFront::rev_accepts(td, tps) && MoveToFront::reversed(td, tps) == (
                data,
                palette_size,
            )
        }),
{
    lemma_initial_state(palette_size);
    lemma_mtf_codec(data, initial_state(palette_size));
}


/// The low 4 bits of `x` spread to positions 0, 3, 6 and 9: one coordinate's
/// contribution to a 3-axis bit interleaving.
pub open spec fn spread3(x: u32) -> u32 {
    (x & 1) | (((x >> 1) & 1) << 3) | (((x >> 2) & 1) << 6) | (((x >> 3) & 1) << 9)
}

/// The bits at positions 0, 3, 6 and 9 of `x` gathered back into 4 low bits.
pub open spec fn unspread3(x: u32) -> u32 {
    ((x >> 0) & 1) | (((x >> 3) & 1) << 1) | (((x >> 6) & 1) << 2) | (((x >> 9) & 1) << 3)
}

/// The Morton (bit-interleaved) position of flat index `i` in the cube's
/// Y-Z-X linearization.
pub open spec fn zorder_idx(i: u32) -> u32 {
    spread3(i & 15) | (spread3((i >> 8) & 15) << 2) | (spread3((i >> 4) & 15) << 1)
}

/// The flat index whose Morton position is `i`: the inverse of `zorder_idx`.
pub open spec fn zorder_inv(i: u32) -> u32 {
    (unspread3(i >> 2) << 8) | (unspread3(i >> 1) << 4) | unspread3(i)
}

/// On the 4096 positions of one cube, `zorder_idx` and `zorder_inv` are
/// mutually inverse permutations.
pub proof fn lemma_zorder_inverse()
    by (bit_vector)
    ensures
        forall|i: u32| i < 4096 ==> #[trigger] zorder_idx(i) < 4096,
        forall|i: u32| i < 4096 ==> #[trigger] zorder_inv(i) < 4096,
        forall|i: u32| i < 4096 ==> zorder_inv(#[trigger] zorder_idx(i)) == i,
        forall|i: u32| i < 4096 ==> zorder_idx(#[trigger] zorder_inv(i)) == i,
{
}

/// Spread the low 4 bits of `x` to every third bit position.
pub fn interleave_4_bits(x: u32) -> (r: u32)
    ensures
        r == spread3(x),
{
    (x & 1) | (((x >> 1) & 1) << 3) | (((x >> 2) & 1) << 6) | (((x >> 3) & 1) << 9)
}

/// Interleave three 4-bit coordinates into one Morton position.
pub fn interleave_xyz(x: u32, y: u32, z: u32) -> (r: u32)
    ensures
        r == spread3(x) | (spread3(y) << 2) | (spread3(z) << 1),
{
    interleave_4_bits(x) | (interleave_4_bits(y) << 2) | (interleave_4_bits(z) << 1)
}

/// The Morton position of flat index `i`, in Y-Z-X axis order.
pub fn interleave_idx(i: u32) -> (r: u32)
    ensures
        r == zorder_idx(i),
{
    interleave_xyz(i & 15, (i >> 8) & 15, (i >> 4) & 15)
}

/// Gather every third bit of `x` back into 4 low bits.
pub fn uninterleave_4_bits(x: u32) -> (r: u32)
    ensures
        r == unspread3(x),
{
    ((x >> 0) & 1) | (((x >> 3) & 1) << 1) | (((x >> 6) & 1) << 2) | (((x >> 9) & 1) << 3)
}

/// The flat index of coordinates `x`, `y`, `z` in Y-Z-X order.
pub fn get_idx(x: u32, y: u32, z: u32) -> (r: u32)
    ensures
        r == (y << 8) | (z << 4) | x,
{
    (y << 8) | (z << 4) | x
}

/// The flat index whose Morton position is `i`.
pub fn uninterleave_idx(i: u32) -> (r: u32)
    ensures
        r == zorder_inv(i),
{
    get_idx(uninterleave_4_bits(i), uninterleave_4_bits(i >> 2), uninterleave_4_bits(i >> 1))
}

/// The block re-linearized in Morton order: position `j` takes the value of
/// the flat position that maps to `j`.
pub open spec fn zorder_fwd(data: Seq<u32>) -> Seq<u32> {
    Seq::new(data.len(), |j: int| data[zorder_inv(j as u32) as int])
}

/// The Morton re-linearization undone.
pub open spec fn zorder_bwd(data: Seq<u32>) -> Seq<u32> {
    Seq::new(data.len(), |j: int| data[zorder_idx(j as u32) as int])
}

/// Z-order curve: reinterprets the block as a 16 by 16 by 16 cube and
/// permutes element positions into Morton (bit-interleaved) order.  A pure
/// spatial permutation: no value changes and the palette size is unchanged.
pub struct ZOrderCurve;

impl IntegerTransformer for ZOrderCurve {
    open spec fn accepts(data: Seq<u32>, palette_size: u32) -> bool {
        true
    }

    open spec fn transformed(data: Seq<u32>, palette_size: u32) -> (Seq<u32>, u32) {
        (zorder_fwd(data), palette_size)
    }

    open spec fn rev_accepts(data: Seq<u32>, palette_size: u32) -> bool {
        true
    }

    open spec fn reversed(data: Seq<u32>, palette_size: u32) -> (Seq<u32>, u32) {
        (zorder_bwd(data), palette_size)
    }

    fn transform(data: &mut Vec<u32>, palette_size: &mut u32) -> (r: Result<(), PipelineError>) {
        proof {
            lemma_zorder_inverse();
        }
        let ghost data0 = data@;
        let copy = clone_block(data);
        let mut j: usize = 0;
        while j < data.len()
            invariant
                data0 == old(data)@,
                data0.len() == BLOCK_LEN,
                data@.len() == BLOCK_LEN,
                copy@ == data0,
                j <= BLOCK_LEN,
                *palette_size == *old(palette_size),
                forall|t: int| 0 <= t < j ==> data@[t] == data0[zorder_inv(t as u32) as int],
                forall|i: u32| i < 4096 ==> #[trigger] zorder_inv(i) < 4096,
            decreases BLOCK_LEN - j,
        {
            let src = uninterleave_idx(j as u32);
            let v = copy[src as usize];
            data.set(j, v);
            j = j + 1;
        }
        proof {
            assert(data@ =~= zorder_fwd(data0));
            assert forall|i: int|
                0 <= i < data@.len() && (forall|t: int|
                    0 <= t < data0.len() ==> #[trigger] data0[t] < *old(
                    palette_size)) implies #[trigger] data@[i] < *old(palette_size) by {
                assert(data@[i] == data0[zorder_inv(i as u32) as int]);
            };
        }
        Ok(())
    }

    fn reverse(data: &mut Vec<u32>, palette_size: &mut u32) -> (r: Result<(), PipelineError>) {
        proof {
            lemma_zorder_inverse();
        }
        let ghost data0 = data@;
        let copy = clone_block(data);
        let mut j: usize = 0;
        while j < data.len()
            invariant
                data0 == old(data)@,
                data0.len() == BLOCK_LEN,
                data@.len() == BLOCK_LEN,
                copy@ == data0,
                j <= BLOCK_LEN,
                *palette_size == *old(palette_size),
                forall|t: int| 0 <= t < j ==> data@[t] == data0[zorder_idx(t as u32) as int],
                forall|i: u32| i < 4096 ==> #[trigger] zorder_idx(i) < 4096,
            decreases BLOCK_LEN - j,
        {
            let src = interleave_idx(j as u32);
            let v = copy[src as usize];
            data.set(j, v);
            j = j + 1;
        }
        proof {
            assert(data@ =~= zorder_bwd(data0));
        }
        Ok(())
    }
}

/// An element-for-element copy of a block.
pub(crate) fn clone_block(data: &Vec<u32>) -> (r: Vec<u32>)
    ensures
        r@ == data@,
{
    let mut r: Vec<u32> = Vec::new();
    let mut k: usize = 0;
    while k < data.len()
        invariant
            k <= data@.len(),
            r@ == data@.take(k as int),
        decreases data@.len() - k,
    {
        r.push(data[k]);
        proof {
            assert(data@.take(k + 1 as int) =~= data@.take(k as int).push(data@[k as int]));
        }
        k = k + 1;
    }
    proof {
        assert(data@.take(data@.len() as int) =~= data@);
    }
    r
}

/// The Z-order permutation round-trips: permuting back restores the original
/// block and palette size.
pub proof fn lemma_zorder_round_trip(data: Seq<u32>, palette_size: u32)
    requires
        data.len() == BLOCK_LEN,
    ensures
        ({
            let (td, tps) = ZOrderCurve::transformed(data, palette_size);
            ZOrderCurve::rev_accepts(td, tps) && ZOrderCurve::reversed(td, tps) == (
                data,
                palette_size,
            )
        }),
{
    lemma_zorder_inverse();
    let td = zorder_fwd(data);
    assert forall|j: int| 0 <= j < data.len() implies zorder_bwd(td)[j] == data[j] by {
        let jj = j as u32;
        assert(zorder_idx(jj) < 4096);
        assert(zorder_bwd(td)[j] == td[zorder_idx(jj) as int]);
        assert(td[zorder_idx(jj) as int] == data[zorder_inv(zorder_idx(jj)) as int]);
        assert(zorder_inv(zorder_idx(jj)) == jj);
    };
    assert(zorder_bwd(td) =~= data);
}


/// The value 16 positions back in the block, or 0 before position 16.
pub open spec fn lb16(orig: Seq<u32>, k: int) -> u32 {
    if k >= 16 {
        orig[k - 16]
    } else {
        0
    }
}

/// The value 256 positions back in the block, or 0 before position 256.
pub open spec fn lb256(orig: Seq<u32>, k: int) -> u32 {
    if k >= 256 {
        orig[k - 256]
    } else {
        0
    }
}

/// The move-to-front-with-lookbehind codes of `orig` from position `k` on,
/// with `state` the ranking list reached after the first `k` positions.  A
/// non-zero rank is replaced by the escape symbol `ps` when the value matches
/// the one 16 back, else by `ps + 1` when it matches the one 256 back.
pub open spec fn mtfl_encode(orig: Seq<u32>, ps: u32, k: int, state: Seq<u32>) -> Seq<u32>
    decreases orig.len() - k,
{
    if k < 0 || k >= orig.len() {
        Seq::empty()
    } else {
        let v = orig[k];
        let r = seq_find(state, v);
        let c: u32 = if r == 0 {
            0u32
        } else if v == lb16(orig, k) {
            ps
        } else if v == lb256(orig, k) {
            (ps + 1) as u32
        } else {
            r as u32
        };
        seq![c] + mtfl_encode(orig, ps, k + 1, mtf_front(state, r))
    }
}

/// The block recovered from move-to-front-with-lookbehind codes from
/// position `k` on, with `hist` the values already recovered before `k`.
pub open spec fn mtfl_decode(
    codes: Seq<u32>,
    ps: u32,
    k: int,
    state: Seq<u32>,
    hist: Seq<u32>,
) -> Seq<u32>
    decreases codes.len() - k,
{
    if k < 0 || k >= codes.len() {
        Seq::empty()
    } else {
        let c = codes[k];
        let r: int = if c == ps {
            seq_find(
                state,
                if k >= 16 {
                    hist[k - 16]
                } else {
                    0
                },
            )
        } else if c == ps + 1 {
            seq_find(
                state,
                if k >= 256 {
                    hist[k - 256]
                } else {
                    0
                },
            )
        } else {
            c as int
        };
        let v = state[r];
        seq![v] + mtfl_decode(codes, ps, k + 1, mtf_front(state, r), hist.push(v))
    }
}

/// Move-to-front-with-lookbehind coding round-trips: decoding the codes of a
/// block, from the same starting ranking list, restores the block; and every
/// code is below `ps + 2`.
pub proof fn lemma_mtfl_codec(
    orig: Seq<u32>,
    ps: u32,
    k: int,
    state: Seq<u32>,
    codes: Seq<u32>,
)
    requires
        1 <= ps,
        ps + 2 <= u32::MAX,
        state.len() == ps,
        forall|x: u32| state.contains(x) <==> x < ps,
        forall|i: int| 0 <= i < orig.len() ==> orig[i] < ps,
        0 <= k <= orig.len(),
        codes.len() == orig.len(),
        codes.skip(k) == mtfl_encode(orig, ps, k, state),
    ensures
        mtfl_decode(codes, ps, k, state, orig.take(k)) == orig.skip(k),
        forall|i: int| k <= i < codes.len() ==> codes[i] < ps + 2,
    decreases orig.len() - k,
{
    if k < orig.len() {
        let v = orig[k];
        assert(v < ps);
        assert(state.contains(v));
        lemma_seq_find(state, v);
        let r = seq_find(state, v);
        let c: u32 = if r == 0 {
            0u32
        } else if v == lb16(orig, k) {
            ps
        } else if v == lb256(orig, k) {
            (ps + 1) as u32
        } else {
            r as u32
        };
        assert(codes.skip(k)[0] == codes[k]);
        assert(codes[k] == c);
        assert(c < ps + 2);
        let state1 = mtf_front(state, r);
        lemma_mtf_front(state, r);
        assert forall|x: u32| state1.contains(x) <==> x < ps by {
            assert(state1.contains(x) <==> state.contains(x));
        }
        assert(codes.skip(k).drop_first() =~= codes.skip(k + 1));
        assert(mtfl_encode(orig, ps, k, state).drop_first() =~= mtfl_encode(
            orig,
            ps,
            k + 1,
            state1,
        ));
        lemma_mtfl_codec(orig, ps, k + 1, state1, codes);
        // The decoder recovers the same rank `r` in every branch.
        let hist = orig.take(k);
        let rd: int = if c == ps {
            seq_find(
                state,
                if k >= 16 {
                    hist[k - 16]
                } else {
                    0
                },
            )
        } else if c == ps + 1 {
            seq_find(
                state,
                if k >= 256 {
                    hist[k - 256]
                } else {
                    0
                },
            )
        } else {
            c as int
        };
        if c == ps {
            assert(r != 0 && v == lb16(orig, k));
            if k >= 16 {
                assert(hist[k - 16] == orig[k - 16]);
            }
            assert((if k >= 16 {
                hist[k - 16]
            } else {
                0u32
            }) == v);
            assert(rd == r);
        } else if c == ps + 1 {
            assert(r != 0 && v != lb16(orig, k) && v == lb256(orig, k));
            if k >= 256 {
                assert(hist[k - 256] == orig[k - 256]);
            }
            assert((if k >= 256 {
                hist[k - 256]
            } else {
                0u32
            }) == v);
            assert(rd == r);
        } else {
            assert(c == r as u32);
            assert(rd == r);
        }
        assert(state[rd] == v);
        assert(hist.push(v) =~= orig.take(k + 1));
        assert(mtfl_decode(codes, ps, k, state, hist) =~= seq![v] + mtfl_decode(
            codes,
            ps,
            k + 1,
            state1,
            orig.take(k + 1),
        ));
        assert(mtfl_decode(codes, ps, k, state, hist) =~= orig.skip(k));
        assert forall|i: int| k <= i < codes.len() implies codes[i] < ps + 2 by {
            if i > k {
                assert(codes[i] < ps + 2);
            }
        };
    } else {
        assert(codes.skip(k).len() == 0);
        assert(orig.skip(k).len() == 0);
        assert(mtfl_decode(codes, ps, k, state, orig.take(k)) =~= orig.skip(k));
    }
}


/// The trailing window of recent values for the lookbehind checks, held in
/// fixed_vec_deque's FixedVecDeque, a fixed-capacity ring buffer of 256
/// slots.  (The ring buffer's own generic bound is a trait of its crate,
/// which this declaration cannot carry, so the buffer lives in a private
/// field instead.)
#[verifier::external_body]
pub struct Window {
    buf: fixed_vec_deque::FixedVecDeque<[u32; 256]>,
}

/// What the ring buffer holds, most recent value first.
pub uninterp spec fn window_view(q: Window) -> Seq<u32>;

/// A window after a value is pushed at the front: the oldest value falls out
/// once the fixed capacity of 256 is reached.
pub open spec fn window_push(w: Seq<u32>, v: u32) -> Seq<u32> {
    (seq![v] + w).take(
        if w.len() < 256 {
            w.len() + 1
        } else {
            256
        } as int,
    )
}

/// Relies on fixed_vec_deque's FixedVecDeque::new: the ring buffer starts
/// empty.
#[verifier::external_body]
fn window_new() -> (q: Window)
    ensures
        window_view(q) == Seq::<u32>::empty(),
{
    Window { buf: fixed_vec_deque::FixedVecDeque::new() }
}

/// Relies on fixed_vec_deque's FixedVecDeque::push_front: it makes room at
/// the front, overwriting the back element once the buffer is full.
#[verifier::external_body]
fn window_push_front(q: &mut Window, v: u32)
    ensures
        window_view(*final(q)) == window_push(window_view(*old(q)), v),
{
    *q.buf.push_front() = v;
}

/// Relies on fixed_vec_deque's FixedVecDeque::get: element `index` counted
/// from the front, or nothing when `index` is past the current length.
#[verifier::external_body]
fn window_get(q: &Window, index: usize) -> (r: Option<u32>)
    ensures
        r == (if index < window_view(*q).len() {
            Some(window_view(*q)[index as int])
        } else {
            Option::<u32>::None
        }),
{
    q.buf.get(index).copied()
}

/// The value at `index` in the trailing window, or 0 when the window is not
/// yet that long.
fn lookbehind_or_zero(buf: &Window, index: usize) -> (r: u32)
    ensures
        r == (if index < window_view(*buf).len() {
            window_view(*buf)[index as int]
        } else {
            0u32
        }),
{
    match window_get(buf, index) {
        Some(v) => v,
        Option::None => 0,
    }
}


/// The trailing window over a history of values: the last 256 of them, most
/// recent first.
pub open spec fn window_of(h: Seq<u32>) -> Seq<u32> {
    h.reverse().take(
        if h.len() < 256 {
            h.len()
        } else {
            256
        } as int,
    )
}

/// Extending the history extends the window at the front.
proof fn lemma_window_of_push(h: Seq<u32>, v: u32)
    ensures
        window_of(h.push(v)) == window_push(window_of(h), v),
{
    let lhs = window_of(h.push(v));
    let rhs = window_push(window_of(h), v);
    assert forall|i: int| 0 <= i < lhs.len() implies lhs[i] == rhs[i] by {
        assert(lhs[i] == h.push(v).reverse()[i]);
        assert(h.push(v).reverse()[i] == h.push(v)[h.len() - i]);
        if i == 0 {
            assert(lhs[i] == v);
        } else {
            assert(h.push(v)[h.len() - i] == h[h.len() - i]);
            assert(rhs[i] == window_of(h)[i - 1]);
            assert(window_of(h)[i - 1] == h.reverse()[i - 1]);
            assert(h.reverse()[i - 1] == h[h.len() - i]);
        }
    };
    assert(lhs =~= rhs);
}

/// One code of the lookbehind transform, as emitted at position `k`.
pub open spec fn mtfl_code(orig: Seq<u32>, ps: u32, k: int, r: int) -> u32 {
    if r == 0 {
        0u32
    } else if orig[k] == lb16(orig, k) {
        ps
    } else if orig[k] == lb256(orig, k) {
        (ps + 1) as u32
    } else {
        r as u32
    }
}

/// The codes of the lookbehind transform have the same length as the block.
pub(crate) proof fn lemma_mtfl_encode_len(orig: Seq<u32>, ps: u32, k: int, state: Seq<u32>)
    requires
        0 <= k <= orig.len(),
    ensures
        mtfl_encode(orig, ps, k, state).len() == orig.len() - k,
    decreases orig.len() - k,
{
    if k < orig.len() {
        lemma_mtfl_encode_len(orig, ps, k + 1, mtf_front(state, seq_find(state, orig[k])));
    }
}

/// Move-to-front with lookbehind: as move-to-front, but two escape symbols
/// (`palette_size` and `palette_size + 1`) replace a non-zero rank whose
/// value matches the one 16, respectively 256, positions back.  The palette
/// size grows by exactly 2.
pub struct MoveToFrontLookbehind;

impl IntegerTransformer for MoveToFrontLookbehind {
    open spec fn accepts(data: Seq<u32>, palette_size: u32) -> bool {
        forall|i: int| 0 <= i < data.len() ==> data[i] < palette_size
    }

    open spec fn transformed(data: Seq<u32>, palette_size: u32) -> (Seq<u32>, u32) {
        (
            mtfl_encode(data, palette_size, 0, initial_state(palette_size)),
            (palette_size + 2) as u32,
        )
    }

    open spec fn rev_accepts(data: Seq<u32>, palette_size: u32) -> bool {
        palette_size >= 3 && forall|i: int| 0 <= i < data.len() ==> data[i] < palette_size
    }

    open spec fn reversed(data: Seq<u32>, palette_size: u32) -> (Seq<u32>, u32) {
        (
            mtfl_decode(
                data,
                (palette_size - 2) as u32,
                0,
                initial_state((palette_size - 2) as u32),
                Seq::empty(),
            ),
            (palette_size - 2) as u32,
        )
    }

    fn transform(data: &mut Vec<u32>, palette_size: &mut u32) -> (r: Result<(), PipelineError>) {
        let ghost data0 = data@;
        let ps = *palette_size;
        let mut k: usize = 0;
        while k < data.len()
            invariant
                data0 == old(data)@,
                data0.len() == BLOCK_LEN,
                data@ == data0,
                k <= data0.len(),
                ps == *palette_size,
                *palette_size == *old(palette_size),
                forall|i: int| 0 <= i < k ==> data0[i] < ps,
            decreases data0.len() - k,
        {
            if data[k] >= ps {
                return Err(PipelineError::SymbolOutOfRange);
            }
            k = k + 1;
        }
        let mut statemap = build_statemap(ps);
        let ghost init = initial_state(ps);
        proof {
            lemma_initial_state(ps);
            lemma_mtfl_encode_len(data0, ps, 0, init);
            assert(mtfl_encode(data0, ps, 0, init).skip(0) =~= mtfl_encode(data0, ps, 0, init));
            lemma_mtfl_codec(data0, ps, 0, init, mtfl_encode(data0, ps, 0, init));
            assert(data@.take(0) =~= Seq::<u32>::empty());
            assert(data@.take(0) + mtfl_encode(data0, ps, 0, init) =~= mtfl_encode(
                data0,
                ps,
                0,
                init,
            ));
            assert(window_of(data0.take(0)) =~= Seq::<u32>::empty());
        }
        let mut lb = window_new();
        let mut k: usize = 0;
        while k < data.len()
            invariant
                data0 == old(data)@,
                data0.len() == BLOCK_LEN,
                data@.len() == BLOCK_LEN,
                k <= data0.len(),
                ps == *palette_size,
                *palette_size == *old(palette_size),
                1 <= ps <= 0x8000_0000,
                init == initial_state(ps),
                forall|i: int| 0 <= i < data0.len() ==> data0[i] < ps,
                statemap@.len() == ps,
                forall|x: u32| statemap@.contains(x) <==> x < ps,
                window_view(lb) == window_of(data0.take(k as int)),
                mtfl_encode(data0, ps, 0, init) == data@.take(k as int) + mtfl_encode(
                    data0,
                    ps,
                    k as int,
                    statemap@,
                ),
                forall|i: int| k <= i < data0.len() ==> data@[i] == data0[i],
            decreases data0.len() - k,
        {
            let ghost st = statemap@;
            let ghost w = window_view(lb);
            let v = data[k];
            assert(statemap@.contains(v));
            let pos = find_rank(&statemap, v);
            proof {
                lemma_seq_find(st, v);
                assert(data0.take(k as int).len() == k);
                if k >= 16 {
                    assert(w[15] == data0.take(k as int).reverse()[15]);
                    assert(data0.take(k as int).reverse()[15] == data0.take(k as int)[k - 16]);
                }
                if k >= 256 {
                    assert(w[255] == data0.take(k as int).reverse()[255]);
                    assert(data0.take(k as int).reverse()[255] == data0.take(k as int)[k - 256]);
                }
            }
            let c: u32 = if pos == 0 {
                0u32
            } else {
                let l16 = lookbehind_or_zero(&lb, 15);
                if v == l16 {
                    ps
                } else {
                    let l256 = lookbehind_or_zero(&lb, 255);
                    if v == l256 {
                        ps + 1
                    } else {
                        pos as u32
                    }
                }
            };
            proof {
                assert(c == mtfl_code(data0, ps, k as int, pos as int));
            }
            let ghost dpre = data@;
            data.set(k, c);
            window_push_front(&mut lb, v);
            let moved = statemap.remove(pos);
            statemap.insert(0, moved);
            proof {
                assert(statemap@ =~= mtf_front(st, pos as int));
                lemma_mtf_front(st, pos as int);
                assert forall|x: u32| statemap@.contains(x) <==> x < ps by {
                    assert(statemap@.contains(x) <==> st.contains(x));
                }
                lemma_window_of_push(data0.take(k as int), v);
                assert(data0.take(k as int).push(v) =~= data0.take(k as int + 1));
                assert(window_view(lb) == window_of(data0.take(k as int + 1)));
                assert(mtfl_encode(data0, ps, k as int, st) =~= seq![c] + mtfl_encode(
                    data0,
                    ps,
                    k as int + 1,
                    statemap@,
                ));
                assert(data@.take(k as int) =~= dpre.take(k as int));
                assert(data@.take(k as int + 1) =~= data@.take(k as int).push(c));
                assert(mtfl_encode(data0, ps, 0, init) =~= data@.take(k as int + 1)
                    + mtfl_encode(data0, ps, k as int + 1, statemap@));
            }
            k = k + 1;
        }
        proof {
            assert(mtfl_encode(data0, ps, data0.len() as int, statemap@) =~= Seq::<u32>::empty());
            assert(data@.take(data0.len() as int) =~= data@);
            assert(data@ =~= mtfl_encode(data0, ps, 0, init));
        }
        *palette_size = ps + 2;
        Ok(())
    }

    fn reverse(data: &mut Vec<u32>, palette_size: &mut u32) -> (r: Result<(), PipelineError>) {
        let ghost data0 = data@;
        let psq = *palette_size;
        if psq < 3 {
            return Err(PipelineError::SymbolOutOfRange);
        }
        let mut k: usize = 0;
        while k < data.len()
            invariant
                data0 == old(data)@,
                data0.len() == BLOCK_LEN,
                data@ == data0,
                k <= data0.len(),
                psq == *palette_size,
                *palette_size == *old(palette_size),
                forall|i: int| 0 <= i < k ==> data0[i] < psq,
            decreases data0.len() - k,
        {
            if data[k] >= psq {
                return Err(PipelineError::SymbolOutOfRange);
            }
            k = k + 1;
        }
        let ps = psq - 2;
        let mut statemap = build_statemap(ps);
        let ghost init = initial_state(ps);
        proof {
            lemma_initial_state(ps);
            assert(data@.take(0) =~= Seq::<u32>::empty());
            assert(data@.take(0) + mtfl_decode(data0, ps, 0, init, Seq::empty()) =~= mtfl_decode(
                data0,
                ps,
                0,
                init,
                Seq::empty(),
            ));
            assert(window_of(data@.take(0)) =~= Seq::<u32>::empty());
        }
        let mut lb = window_new();
        let mut k: usize = 0;
        while k < data.len()
            invariant
                data0 == old(data)@,
                data0.len() == BLOCK_LEN,
                data@.len() == BLOCK_LEN,
                k <= data0.len(),
                psq == *palette_size,
                *palette_size == *old(palette_size),
                3 <= psq <= 0x8000_0002,
                ps == psq - 2,
                1 <= ps,
                init == initial_state(ps),
                forall|i: int| 0 <= i < data0.len() ==> data0[i] < psq,
                statemap@.len() == ps,
                forall|x: u32| statemap@.contains(x) <==> x < ps,
                forall|i: int| 0 <= i < k ==> data@[i] < ps,
                window_view(lb) == window_of(data@.take(k as int)),
                mtfl_decode(data0, ps, 0, init, Seq::empty()) == data@.take(k as int)
                    + mtfl_decode(data0, ps, k as int, statemap@, data@.take(k as int)),
                forall|i: int| k <= i < data0.len() ==> data@[i] == data0[i],
            decreases data0.len() - k,
        {
            let ghost st = statemap@;
            let ghost w = window_view(lb);
            let ghost hist = data@.take(k as int);
            proof {
                assert(hist.len() == k);
                if k >= 16 {
                    assert(w[15] == hist.reverse()[15]);
                    assert(hist.reverse()[15] == hist[k - 16]);
                    assert(hist[k - 16] < ps);
                }
                if k >= 256 {
                    assert(w[255] == hist.reverse()[255]);
                    assert(hist.reverse()[255] == hist[k - 256]);
                    assert(hist[k - 256] < ps);
                }
            }
            let c = data[k];
            let pos: usize = if c == ps {
                let l16 = lookbehind_or_zero(&lb, 15);
                assert(statemap@.contains(l16));
                find_rank(&statemap, l16)
            } else if c == ps + 1 {
                let l256 = lookbehind_or_zero(&lb, 255);
                assert(statemap@.contains(l256));
                find_rank(&statemap, l256)
            } else {
                assert(c < ps);
                c as usize
            };
            let v = statemap[pos];
            proof {
                assert(st.contains(v));
                assert(v < ps);
            }
            let ghost dpre = data@;
            data.set(k, v);
            window_push_front(&mut lb, v);
            let moved = statemap.remove(pos);
            statemap.insert(0, moved);
            proof {
                assert(statemap@ =~= mtf_front(st, pos as int));
                lemma_mtf_front(st, pos as int);
                assert forall|x: u32| statemap@.contains(x) <==> x < ps by {
                    assert(statemap@.contains(x) <==> st.contains(x));
                }
                lemma_window_of_push(hist, v);
                assert(hist.push(v) =~= data@.take(k as int + 1));
                assert(window_view(lb) == window_of(data@.take(k as int + 1)));
                assert(mtfl_decode(data0, ps, k as int, st, hist) =~= seq![v] + mtfl_decode(
                    data0,
                    ps,
                    k as int + 1,
                    statemap@,
                    hist.push(v),
                ));
                assert(data@.take(k as int) =~= dpre.take(k as int));
                assert(data@.take(k as int + 1) =~= data@.take(k as int).push(v));
                assert(mtfl_decode(data0, ps, 0, init, Seq::empty()) =~= data@.take(k as int + 1)
                    + mtfl_decode(data0, ps, k as int + 1, statemap@, data@.take(k as int + 1)));
            }
            k = k + 1;
        }
        proof {
            assert(mtfl_decode(data0, ps, data0.len() as int, statemap@, data@) =~= Seq::<
                u32,
            >::empty());
            assert(data@.take(data0.len() as int) =~= data@);
            assert(data@ =~= mtfl_decode(data0, ps, 0, init, Seq::empty()));
        }
        *palette_size = ps;
        Ok(())
    }
}

/// Move-to-front with lookbehind round-trips: reversing the transform, at
/// the grown palette size, restores the original block and palette size.
pub proof fn lemma_lookbehind_round_trip(data: Seq<u32>, palette_size: u32)
    requires
        1 <= palette_size <= 0x8000_0000,
        forall|i: int| 0 <= i < data.len() ==> data[i] < palette_size,
    ensures
        ({
            let (td, tps) = MoveToFrontLookbehind::transformed(data, palette_size);
            MoveToFrontLookbehind::rev_accepts(td, tps) && MoveToFrontLookbehind::reversed(
                td,
                tps,
            ) == (data, palette_size)
        }),
{
    let ps = palette_size;
    lemma_initial_state(ps);
    let init = initial_state(ps);
    lemma_mtfl_encode_len(data, ps, 0, init);
    let codes = mtfl_encode(data, ps, 0, init);
    assert(codes.skip(0) =~= codes);
    lemma_mtfl_codec(data, ps, 0, init, codes);
    assert(data.take(0) =~= Seq::<u32>::empty());
    assert(mtfl_decode(codes, ps, 0, init, Seq::empty()) == data.skip(0));
    assert(data.skip(0) =~= data);
}


/// Values drawn from a block below the palette size stay below it.
proof fn lemma_contained_values_bounded(orig: Seq<u32>, data: Seq<u32>, palette_size: u32)
    requires
        forall|j: int| 0 <= j < data.len() ==> orig.contains(#[trigger] data[j]),
    ensures
        (forall|i: int| 0 <= i < orig.len() ==> #[trigger] orig[i] < palette_size) ==> forall|
            i: int,
        | 0 <= i < data.len() ==> #[trigger] data[i] < palette_size,
{
    if forall|i: int| 0 <= i < orig.len() ==> #[trigger] orig[i] < palette_size {
        assert forall|i: int| 0 <= i < data.len() implies #[trigger] data[i] < palette_size by {
            assert(orig.contains(data[i]));
            let w = choose|w: int| 0 <= w < orig.len() && orig[w] == data[i];
        };
    }
}

/// The Hilbert-curve index, at recursion level 4 in three dimensions, of a
/// grid point: a pure function of the point, named here.
pub uninterp spec fn hilbert3_index(x: nat, y: nat, z: nat) -> nat;

/// The grid point at a Hilbert-curve index, at recursion level 4 in three
/// dimensions: a pure function of the index, named here.
pub uninterp spec fn hilbert3_point(h: nat) -> (nat, nat, nat);

/// Relies on hilbert_index's ToHilbertIndex for `[usize; 3]` at level 4: the
/// index is a pure function of the grid point, lies below `16 * 16 * 16` for
/// a point inside the 16-cube, and FromHilbertIndex maps it back to the same
/// point.
#[verifier::external_body]
fn to_hilbert(x: usize, y: usize, z: usize) -> (h: usize)
    requires
        x < 16,
        y < 16,
        z < 16,
    ensures
        h < 4096,
        h as nat == hilbert3_index(x as nat, y as nat, z as nat),
        hilbert3_point(h as nat) == (x as nat, y as nat, z as nat),
{
    hilbert_index::ToHilbertIndex::to_hilbert_index(&[x, y, z], 4)
}

/// Relies on hilbert_index's FromHilbertIndex for `[usize; 3]` at level 4:
/// the grid point is a pure function of the index, lies inside the 16-cube
/// for an index below `16 * 16 * 16`, and ToHilbertIndex maps it back to the
/// same index.
#[verifier::external_body]
fn from_hilbert(h: usize) -> (p: (usize, usize, usize))
    requires
        h < 4096,
    ensures
        p.0 < 16 && p.1 < 16 && p.2 < 16,
        (p.0 as nat, p.1 as nat, p.2 as nat) == hilbert3_point(h as nat),
        hilbert3_index(p.0 as nat, p.1 as nat, p.2 as nat) == h as nat,
{
    let [x, y, z] = hilbert_index::FromHilbertIndex::from_hilbert_index(&h, 4);
    (x, y, z)
}

/// The flat position whose value lands at Hilbert position `j`.  The first
/// and second cube coordinates are deliberately swapped for better locality
/// in the canonical world orientation.
pub open spec fn hilbert_fwd_src(j: int) -> int {
    let (a, b, c) = hilbert3_point(j as nat);
    (a * 256 + c * 16 + b) as int
}

/// The Hilbert position whose value lands back at flat position `j`.
pub open spec fn hilbert_bwd_src(j: int) -> int {
    hilbert3_index((j / 256) as nat, (j % 16) as nat, ((j / 16) % 16) as nat) as int
}

/// The block re-linearized in Hilbert order.
pub open spec fn hilbert_fwd(data: Seq<u32>) -> Seq<u32> {
    Seq::new(data.len(), |j: int| data[hilbert_fwd_src(j)])
}

/// The Hilbert re-linearization undone.
pub open spec fn hilbert_bwd(data: Seq<u32>) -> Seq<u32> {
    Seq::new(data.len(), |j: int| data[hilbert_bwd_src(j)])
}

/// Hilbert curve: permutes the block into Hilbert-curve order at the fixed
/// recursion depth matching a 16-per-axis cube, with two axes swapped
/// relative to Z-order.  A pure spatial permutation: no value changes and
/// the palette size is unchanged.
pub struct HilbertCurve;

impl IntegerTransformer for HilbertCurve {
    open spec fn accepts(data: Seq<u32>, palette_size: u32) -> bool {
        true
    }

    open spec fn transformed(data: Seq<u32>, palette_size: u32) -> (Seq<u32>, u32) {
        (hilbert_fwd(data), palette_size)
    }

    open spec fn rev_accepts(data: Seq<u32>, palette_size: u32) -> bool {
        true
    }

    open spec fn reversed(data: Seq<u32>, palette_size: u32) -> (Seq<u32>, u32) {
        (hilbert_bwd(data), palette_size)
    }

    fn transform(data: &mut Vec<u32>, palette_size: &mut u32) -> (r: Result<(), PipelineError>) {
        hilbert_gather(data);
        proof {
            lemma_contained_values_bounded(old(data)@, data@, *palette_size);
        }
        Ok(())
    }

    /// Reversing restores any block the transform produced: this carries the
    /// round-trip for the Hilbert permutation, whose inverse is known only
    /// through the curve library's two directions agreeing call by call.
    fn reverse(data: &mut Vec<u32>, palette_size: &mut u32) -> (r: Result<(), PipelineError>)
        ensures
            forall|orig: Seq<u32>|
                orig.len() == BLOCK_LEN && old(data)@ == #[trigger] hilbert_fwd(orig)
                    ==> final(data)@ == orig,
    {
        let ghost data0 = data@;
        let copy = clone_block(data);
        let mut j: usize = 0;
        while j < data.len()
            invariant
                data0 == old(data)@,
                data0.len() == BLOCK_LEN,
                data@.len() == BLOCK_LEN,
                copy@ == data0,
                j <= BLOCK_LEN,
                *palette_size == *old(palette_size),
                forall|t: int| 0 <= t < j ==> data@[t] == data0[hilbert_bwd_src(t)],
                forall|t: int|
                    0 <= t < j ==> 0 <= #[trigger] hilbert_bwd_src(t) < 4096 && hilbert_fwd_src(
                        hilbert_bwd_src(t),
                    ) == t,
            decreases BLOCK_LEN - j,
        {
            let y = j / 256;
            let z = (j / 16) % 16;
            let x = j % 16;
            let h = to_hilbert(y, x, z);
            proof {
                vstd::arithmetic::div_mod::lemma_mod_breakdown(j as int, 16, 16);
                assert(j as int == (j as int / 256) * 256 + (j as int % 256)) by {
                    vstd::arithmetic::div_mod::lemma_fundamental_div_mod(j as int, 256);
                };
                assert(j as int % 256 == 16 * ((j as int / 16) % 16) + j as int % 16);
                assert(h as int == hilbert_bwd_src(j as int));
                assert(hilbert_fwd_src(h as int) == y * 256 + z * 16 + x);
                assert(hilbert_fwd_src(h as int) == j as int);
            }
            let v = copy[h];
            data.set(j, v);
            j = j + 1;
        }
        proof {
            assert(data@ =~= hilbert_bwd(data0));
            assert forall|orig: Seq<u32>|
                orig.len() == BLOCK_LEN && data0 == #[trigger] hilbert_fwd(orig) implies data@
                == orig by {
                assert forall|t: int| 0 <= t < BLOCK_LEN implies data@[t] == orig[t] by {
                    assert(data@[t] == data0[hilbert_bwd_src(t)]);
                    assert(data0[hilbert_bwd_src(t)] == hilbert_fwd(orig)[hilbert_bwd_src(t)]);
                    assert(hilbert_fwd(orig)[hilbert_bwd_src(t)] == orig[hilbert_fwd_src(
                        hilbert_bwd_src(t),
                    )]);
                };
                assert(data@ =~= orig);
            };
        }
        Ok(())
    }
}

/// Re-linearize a block in Hilbert order, in place.
fn hilbert_gather(data: &mut Vec<u32>)
    requires
        old(data)@.len() == BLOCK_LEN,
    ensures
        final(data)@ == hilbert_fwd(old(data)@),
        forall|j: int|
            0 <= j < final(data)@.len() ==> old(data)@.contains(#[trigger] final(data)@[j]),
{
    let ghost data0 = data@;
    let copy = clone_block(data);
    let mut j: usize = 0;
    while j < data.len()
        invariant
            data0 == old(data)@,
            data0.len() == BLOCK_LEN,
            data@.len() == BLOCK_LEN,
            copy@ == data0,
            j <= BLOCK_LEN,
            forall|t: int| 0 <= t < j ==> data@[t] == data0[hilbert_fwd_src(t)],
            forall|t: int| 0 <= t < j ==> data0.contains(#[trigger] data@[t]),
        decreases BLOCK_LEN - j,
    {
        let (a, b, c) = from_hilbert(j);
        let src = a * 256 + c * 16 + b;
        proof {
            assert(src as int == hilbert_fwd_src(j as int));
        }
        let v = copy[src];
        proof {
            assert(data0[src as int] == v);
            assert(data0.contains(v));
        }
        data.set(j, v);
        j = j + 1;
    }
    proof {
        assert(data@ =~= hilbert_fwd(data0));
    }
}

/// The number of positions whose value repeats the immediately preceding
/// one, among the first `k` positions.
pub open spec fn runs_upto(s: Seq<u32>, k: int) -> nat
    decreases k,
{
    if k <= 1 {
        0
    } else {
        runs_upto(s, k - 1) + (if s[k - 1] == s[k - 2] {
            1nat
        } else {
            0nat
        })
    }
}

/// The number of immediately-repeated values in a block.
pub open spec fn run_count(s: Seq<u32>) -> nat {
    runs_upto(s, s.len() as int)
}

/// Count the immediately-repeated values in a block.
fn count_runs(data: &Vec<u32>) -> (count: u32)
    requires
        data@.len() == BLOCK_LEN,
    ensures
        count == run_count(data@),
{
    let mut count: u32 = 0;
    let mut k: usize = 1;
    while k < data.len()
        invariant
            data@.len() == BLOCK_LEN,
            1 <= k <= BLOCK_LEN,
            count == runs_upto(data@, k as int),
            count < k,
        decreases BLOCK_LEN - k,
    {
        if data[k] == data[k - 1] {
            count = count + 1;
        }
        k = k + 1;
    }
    count
}

/// Hilbert curve, kept only when it helps: counts immediately-repeated
/// values before and after the Hilbert permutation and keeps whichever
/// ordering has more (ties favor the permuted ordering).  The reverse would
/// need a side-channel bit saying which choice was made; none is recorded,
/// so reversal reports [`PipelineError::NotInvertible`] and this transform is
/// excluded from the round-trip law.
pub struct HilbertCurveAdaptive;

impl IntegerTransformer for HilbertCurveAdaptive {
    open spec fn accepts(data: Seq<u32>, palette_size: u32) -> bool {
        forall|i: int| 0 <= i < data.len() ==> data[i] < palette_size
    }

    open spec fn transformed(data: Seq<u32>, palette_size: u32) -> (Seq<u32>, u32) {
        (
            if run_count(data) > run_count(hilbert_fwd(data)) {
                data
            } else {
                hilbert_fwd(data)
            },
            palette_size,
        )
    }

    open spec fn rev_accepts(data: Seq<u32>, palette_size: u32) -> bool {
        false
    }

    open spec fn reversed(data: Seq<u32>, palette_size: u32) -> (Seq<u32>, u32) {
        (data, palette_size)
    }

    fn transform(data: &mut Vec<u32>, palette_size: &mut u32) -> (r: Result<(), PipelineError>) {
        let ghost data0 = data@;
        let ps = *palette_size;
        let mut k: usize = 0;
        while k < data.len()
            invariant
                data0 == old(data)@,
                data0.len() == BLOCK_LEN,
                data@ == data0,
                k <= data0.len(),
                ps == *palette_size,
                *palette_size == *old(palette_size),
                forall|i: int| 0 <= i < k ==> data0[i] < ps,
            decreases data0.len() - k,
        {
            if data[k] >= ps {
                return Err(PipelineError::SymbolOutOfRange);
            }
            k = k + 1;
        }
        let runs_flat = count_runs(data);
        let copy = clone_block(data);
        hilbert_gather(data);
        proof {
            lemma_contained_values_bounded(data0, data@, ps);
        }
        let runs_curve = count_runs(data);
        if runs_flat > runs_curve {
            let mut j: usize = 0;
            while j < data.len()
                invariant
                    data0 == old(data)@,
                    data0.len() == BLOCK_LEN,
                    data@.len() == BLOCK_LEN,
                    copy@ == data0,
                    j <= BLOCK_LEN,
                    *palette_size == *old(palette_size),
                    run_count(data0) > run_count(hilbert_fwd(data0)),
                    forall|i: int| 0 <= i < data0.len() ==> data0[i] < *palette_size,
                    forall|t: int| 0 <= t < j ==> data@[t] == data0[t],
                decreases BLOCK_LEN - j,
            {
                let v = copy[j];
                data.set(j, v);
                j = j + 1;
            }
            proof {
                assert(data@ =~= data0);
            }
        }
        Ok(())
    }

    /// The failure is always the clear not-invertible report, never a range
    /// complaint.
    fn reverse(data: &mut Vec<u32>, palette_size: &mut u32) -> (r: Result<(), PipelineError>)
        ensures
            r == Err::<(), PipelineError>(PipelineError::NotInvertible),
    {
        Err(PipelineError::NotInvertible)
    }
}

} // verus!
