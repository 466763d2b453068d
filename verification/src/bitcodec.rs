//! Bit-packed array codec: converts between a stream of 64-bit words and an
//! ordered sequence of unsigned symbols at a fixed bit width.
//!
//! Two incompatible padding conventions exist for widths that do not divide
//! 64 evenly, and both appear on disk, so the convention is an explicit
//! configuration value passed to the codec, never a global default.  Fields
//! are placed least-significant-bit first within each word.

use vstd::prelude::*;

use crate::PipelineError;

verus! {

/// How symbols are laid out when the bit width does not divide 64 evenly.
#[derive(Clone, Copy, Debug, PartialEq, Eq, Structural)]
pub enum PackingConvention {
    /// Fields are packed contiguously and may straddle a word boundary; no
    /// bit is wasted (the older, dense on-disk layout).
    Dense,
    /// Each word holds as many whole fields as fit; the remaining high bits
    /// of every word are unused padding (the newer on-disk layout).
    Padded,
}

/// The mask of the low `bw` bits.
pub open spec fn mask64(bw: u64) -> u64 {
    (((1u64 << bw) - 1) as u64)
}

/// How many whole fields of width `bw` one word holds under the padded
/// convention.
pub open spec fn syms_per_word(bw: u64) -> int {
    64int / (bw as int)
}

/// The number of words that `n` symbols of width `bw` occupy.
pub open spec fn words_needed(n: int, bw: u64, convention: PackingConvention) -> int {
    match convention {
        PackingConvention::Dense => (n * (bw as int) + 63) / 64,
        PackingConvention::Padded => (n + syms_per_word(bw) - 1) / syms_per_word(bw),
    }
}

/// Field slot `j` of one word: bits `j * bw ..` masked to the width.
pub open spec fn field_at(w: u64, bw: u64, j: int) -> u64 {
    (w >> ((j * (bw as int)) as u64)) & mask64(bw)
}

/// Field `k` of a padded word stream: bits `(k % spw) * bw ..` of word
/// `k / spw`.
pub open spec fn extract_padded(words: Seq<u64>, bw: u64, k: int) -> u32 {
    let spw = syms_per_word(bw);
    (field_at(words[k / spw], bw, k % spw) as u32)
}

/// Field `k` of a dense word stream: bits `k * bw ..` of the stream, read
/// across a word boundary when the field straddles one.
pub open spec fn extract_dense(words: Seq<u64>, bw: u64, k: int) -> u32 {
    let p = k * (bw as int);
    let wi = p / 64;
    let off = p % 64;
    if off + bw <= 64 {
        (((words[wi] >> (off as u64)) & mask64(bw)) as u32)
    } else {
        ((((words[wi] >> (off as u64)) | (words[wi + 1] << ((64 - off) as u64))) & mask64(
            bw,
        )) as u32)
    }
}

/// Field `k` of a word stream under the given convention.
pub open spec fn extract_sym(
    words: Seq<u64>,
    convention: PackingConvention,
    bw: u64,
    k: int,
) -> u32 {
    match convention {
        PackingConvention::Dense => extract_dense(words, bw, k),
        PackingConvention::Padded => extract_padded(words, bw, k),
    }
}

/// The first `n` symbols held in a word stream.
pub open spec fn unpacked_seq(
    words: Seq<u64>,
    convention: PackingConvention,
    bw: u64,
    n: int,
) -> Seq<u32> {
    Seq::new(n as nat, |k: int| extract_sym(words, convention, bw, k))
}

/// Writing a field at offset `s` of an accumulator whose bits at and above
/// `s` are clear: the field reads back, and the accumulator stays clear at
/// and above `s + bw`.
proof fn lemma_field_insert(acc: u64, v: u64, s: u64, bw: u64)
    by (bit_vector)
    requires
        1 <= bw <= 32,
        s + bw <= 64,
        acc < (1u64 << s),
        v < (1u64 << bw),
    ensures
        ((acc | (v << s)) >> s) & mask64(bw) == v,
        s + bw < 64 ==> (acc | (v << s)) < (1u64 << ((s + bw) as u64)),
{
}

/// Writing a field at offset `s` leaves every field that ends at or below
/// `s` unchanged.
proof fn lemma_field_preserved(acc: u64, v: u64, s: u64, s2: u64, bw: u64, bw2: u64)
    by (bit_vector)
    requires
        1 <= bw2 <= 32,
        s2 + bw2 <= s,
        s < 64,
    ensures
        ((acc | (v << s)) >> s2) & mask64(bw2) == (acc >> s2) & mask64(bw2),
{
}

/// A masked field fits the bit width (and so fits in 32 bits).
proof fn lemma_field_fits(x: u64, bw: u64)
    by (bit_vector)
    requires
        1 <= bw <= 32,
    ensures
        x & mask64(bw) < (1u64 << bw),
        x & mask64(bw) <= u32::MAX,
{
}

/// `q` is the quotient and `r` the remainder of `x / d`.
proof fn lemma_div_parts(x: int, d: int, q: int, r: int)
    requires
        d > 0,
        x == q * d + r,
        0 <= r < d,
    ensures
        x / d == q,
        x % d == r,
{
    vstd::arithmetic::div_mod::lemma_fundamental_div_mod_converse(x, d, q, r);
}

/// Fields of width `bw` fit a word `syms_per_word(bw)` at a time.
proof fn lemma_spw(bw: u64)
    requires
        1 <= bw <= 32,
    ensures
        2 <= syms_per_word(bw) <= 64,
        syms_per_word(bw) * (bw as int) <= 64,
        (syms_per_word(bw) - 1) * (bw as int) + bw <= 64,
{
    let spw = syms_per_word(bw);
    vstd::arithmetic::div_mod::lemma_fundamental_div_mod(64, bw as int);
    assert(64int == (bw as int) * spw + 64int % (bw as int));
    assert(spw * (bw as int) == (bw as int) * spw) by (nonlinear_arith);
    assert((spw - 1) * (bw as int) + bw == spw * (bw as int)) by (nonlinear_arith);
    assert(2 <= spw <= 64) by {
        assert(64int / (bw as int) >= 64int / 32) by {
            vstd::arithmetic::div_mod::lemma_div_is_ordered_by_denominator(64, bw as int, 32);
        }
        assert(64int / (bw as int) <= 64) by {
            vstd::arithmetic::div_mod::lemma_div_is_ordered_by_denominator(64, 1, bw as int);
        }
    }
}

/// Field slot `j` of a word lies within the word.
proof fn lemma_slot_bounds(bw: u64, j: int)
    requires
        1 <= bw <= 32,
        0 <= j < syms_per_word(bw),
    ensures
        0 <= j * (bw as int),
        j * (bw as int) + bw <= 64,
{
    lemma_spw(bw);
    assert(j * (bw as int) + bw <= syms_per_word(bw) * (bw as int)) by (nonlinear_arith)
        requires
            0 <= j < syms_per_word(bw),
            bw >= 1,
    ;
    assert(j * (bw as int) >= 0) by (nonlinear_arith)
        requires
            j >= 0,
            bw >= 1,
    ;
}

/// A position below `wi * spw` lies in a word before `wi`.
proof fn lemma_div_lt(t: int, spw: int, wi: int)
    requires
        spw > 0,
        0 <= t < wi * spw,
    ensures
        0 <= t / spw < wi,
{
    vstd::arithmetic::div_mod::lemma_fundamental_div_mod(t, spw);
    assert((t / spw) * spw <= t) by (nonlinear_arith)
        requires
            t == spw * (t / spw) + t % spw,
            t % spw >= 0,
    ;
    if t / spw >= wi {
        assert(t >= wi * spw) by (nonlinear_arith)
            requires
                t / spw >= wi,
                (t / spw) * spw <= t,
                spw > 0,
        ;
    }
    vstd::arithmetic::div_mod::lemma_div_pos_is_pos(t, spw);
}

/// Appending a word changes no field of the words already present.
proof fn lemma_extract_prefix_push(words: Seq<u64>, x: u64, data: Seq<u32>, bw: u64)
    requires
        1 <= bw <= 32,
        forall|t: int|
            0 <= t < words.len() * syms_per_word(bw) ==> extract_padded(words, bw, t) == data[t],
    ensures
        forall|t: int|
            0 <= t < words.len() * syms_per_word(bw) ==> extract_padded(words.push(x), bw, t)
                == data[t],
{
    lemma_spw(bw);
    let spw = syms_per_word(bw);
    assert forall|t: int| 0 <= t < words.len() * spw implies extract_padded(words.push(x), bw, t)
        == data[t] by {
        lemma_div_lt(t, spw, words.len() as int);
        assert(words.push(x)[t / spw] == words[t / spw]);
    };
}

/// A word whose `jcount` low fields hold `data`'s symbols makes those
/// symbols extractable at positions `wi * spw ..`.
proof fn lemma_committed_word(words: Seq<u64>, data: Seq<u32>, bw: u64, wi: int, jcount: int)
    requires
        1 <= bw <= 32,
        words.len() == wi + 1,
        wi >= 0,
        0 < jcount <= syms_per_word(bw),
        forall|j2: int|
            0 <= j2 < jcount ==> #[trigger] field_at(words[wi], bw, j2) == data[wi
                * syms_per_word(bw) + j2] as u64,
    ensures
        forall|t: int|
            wi * syms_per_word(bw) <= t < wi * syms_per_word(bw) + jcount ==> extract_padded(
                words,
                bw,
                t,
            ) == data[t],
{
    lemma_spw(bw);
    let spw = syms_per_word(bw);
    assert forall|t: int| wi * spw <= t < wi * spw + jcount implies extract_padded(words, bw, t)
        == data[t] by {
        let j2 = t - wi * spw;
        lemma_div_parts(t, spw, wi, j2);
        assert(field_at(words[wi], bw, j2) == data[t] as u64);
        lemma_field_fits(words[wi] >> ((j2 * (bw as int)) as u64), bw);
    };
}

/// The padded word count in quotient-remainder form.
proof fn lemma_words_needed_padded(n: int, bw: u64)
    requires
        n >= 0,
        1 <= bw <= 32,
    ensures
        words_needed(n, bw, PackingConvention::Padded) == n / syms_per_word(bw) + (
        if n % syms_per_word(bw) == 0 {
            0int
        } else {
            1int
        }),
{
    lemma_spw(bw);
    let spw = syms_per_word(bw);
    let q = n / spw;
    let r = n % spw;
    vstd::arithmetic::div_mod::lemma_fundamental_div_mod(n, spw);
    assert(n == spw * q + r);
    if r == 0 {
        assert(n + spw - 1 == q * spw + (spw - 1)) by (nonlinear_arith)
            requires
                n == spw * q,
        ;
        lemma_div_parts(n + spw - 1, spw, q, spw - 1);
    } else {
        assert(n + spw - 1 == (q + 1) * spw + (r - 1)) by (nonlinear_arith)
            requires
                n == spw * q + r,
        ;
        lemma_div_parts(n + spw - 1, spw, q + 1, r - 1);
    }
}

/// Pack `data` into words at width `num_bits` under the padded convention.
fn pack_padded(data: &Vec<u32>, num_bits: u8) -> (words: Vec<u64>)
    requires
        1 <= num_bits <= 32,
        forall|i: int|
            0 <= i < data@.len() ==> (#[trigger] data@[i] as u64) < (1u64 << (num_bits as u64)),
    ensures
        words@.len() == words_needed(
            data@.len() as int,
            num_bits as u64,
            PackingConvention::Padded,
        ),
        unpacked_seq(words@, PackingConvention::Padded, num_bits as u64, data@.len() as int)
            == data@,
{
    let bw = num_bits as u64;
    proof {
        lemma_spw(bw);
        assert(0u64 < (1u64 << 0u64)) by (bit_vector);
    }
    let spw = 64 / (num_bits as usize);
    let n = data.len();
    let mut words: Vec<u64> = Vec::new();
    let mut acc: u64 = 0;
    let mut k: usize = 0;
    while k < n
        invariant
            1 <= num_bits <= 32,
            bw == num_bits as u64,
            spw as int == syms_per_word(bw),
            2 <= spw <= 64,
            n == data@.len(),
            k <= n,
            forall|i: int|
                0 <= i < data@.len() ==> (#[trigger] data@[i] as u64) < (1u64 << (num_bits
                    as u64)),
            words@.len() == k as int / spw as int,
            k as int % spw as int == k as int - words@.len() * spw as int,
            acc < (1u64 << (((k as int % spw as int) * (bw as int)) as u64)),
            forall|j2: int|
                0 <= j2 < k as int % spw as int ==> #[trigger] field_at(acc, bw, j2)
                    == data@[words@.len() * spw as int + j2] as u64,
            forall|t: int|
                0 <= t < words@.len() * spw as int ==> extract_padded(words@, bw, t) == data@[t],
        decreases n - k,
    {
        let ghost wi = k as int / spw as int;
        let ghost j = k as int % spw as int;
        let j_exec = k % spw;
        proof {
            vstd::arithmetic::div_mod::lemma_fundamental_div_mod(k as int, spw as int);
            lemma_slot_bounds(bw, j);
        }
        let s: u64 = (j_exec * (num_bits as usize)) as u64;
        let v = data[k];
        proof {
            lemma_field_insert(acc, v as u64, s, bw);
        }
        let acc2 = acc | ((v as u64) << s);
        proof {
            assert forall|j2: int| 0 <= j2 < j implies #[trigger] field_at(acc2, bw, j2)
                == data@[wi * spw as int + j2] as u64 by {
                assert(field_at(acc, bw, j2) == data@[wi * spw as int + j2] as u64);
                lemma_slot_bounds(bw, j2);
                assert(j2 * (bw as int) + bw <= j * (bw as int)) by (nonlinear_arith)
                    requires
                        0 <= j2 < j,
                        bw >= 1,
                ;
                lemma_field_preserved(acc, v as u64, s, (j2 * (bw as int)) as u64, bw, bw);
            };
            assert(field_at(acc2, bw, j) == v as u64);
        }
        acc = acc2;
        if j_exec == spw - 1 {
            let ghost words_pre = words@;
            words.push(acc);
            acc = 0;
            proof {
                assert(0u64 < (1u64 << 0u64)) by (bit_vector);
                lemma_extract_prefix_push(words_pre, acc2, data@, bw);
                lemma_committed_word(words@, data@, bw, wi, spw as int);
                assert(k as int + 1 == (wi + 1) * spw as int) by (nonlinear_arith)
                    requires
                        k as int == wi * spw as int + j,
                        j == spw as int - 1,
                ;
                lemma_div_parts(k as int + 1, spw as int, wi + 1, 0);
                assert forall|t: int| 0 <= t < words@.len() * spw as int implies extract_padded(
                    words@,
                    bw,
                    t,
                ) == data@[t] by {
                    if t < wi * spw as int {
                    } else {
                    }
                };
            }
        } else {
            proof {
                lemma_div_parts(k as int + 1, spw as int, wi, j + 1);
                assert((j + 1) * (bw as int) == j * (bw as int) + bw) by (nonlinear_arith);
                lemma_slot_bounds(bw, j + 1);
            }
        }
        k = k + 1;
    }
    proof {
        lemma_words_needed_padded(n as int, bw);
    }
    if k % spw != 0 {
        let ghost wi = n as int / spw as int;
        let ghost jr = n as int % spw as int;
        let ghost words_pre = words@;
        words.push(acc);
        proof {
            lemma_extract_prefix_push(words_pre, acc, data@, bw);
            lemma_committed_word(words@, data@, bw, wi, jr);
            assert forall|t: int| 0 <= t < n as int implies extract_padded(words@, bw, t)
                == data@[t] by {
                if t < wi * spw as int {
                } else {
                    assert(wi * spw as int <= t < wi * spw as int + jr);
                }
            };
        }
    }
    proof {
        assert(unpacked_seq(words@, PackingConvention::Padded, bw, n as int) =~= data@);
    }
    words
}


/// A count of symbols fits in the words its width requires.
proof fn lemma_capacity(n: int, bw: u64, convention: PackingConvention)
    requires
        n >= 0,
        1 <= bw <= 32,
    ensures
        convention == PackingConvention::Padded ==> n <= words_needed(n, bw, convention)
            * syms_per_word(bw),
        convention == PackingConvention::Dense ==> n * (bw as int) <= words_needed(
            n,
            bw,
            convention,
        ) * 64,
{
    lemma_spw(bw);
    match convention {
        PackingConvention::Padded => {
            let spw = syms_per_word(bw);
            lemma_words_needed_padded(n, bw);
            vstd::arithmetic::div_mod::lemma_fundamental_div_mod(n, spw);
            let q = n / spw;
            let r = n % spw;
            if r == 0 {
                assert(q * spw == n) by (nonlinear_arith)
                    requires
                        n == spw * q,
                ;
            } else {
                assert((q + 1) * spw >= n) by (nonlinear_arith)
                    requires
                        n == spw * q + r,
                        r < spw,
                ;
            }
        },
        PackingConvention::Dense => {
            let m = n * (bw as int);
            vstd::arithmetic::div_mod::lemma_fundamental_div_mod(m + 63, 64);
            let q = (m + 63) / 64;
            assert(m <= q * 64) by (nonlinear_arith)
                requires
                    m + 63 == 64 * q + (m + 63) % 64,
                    (m + 63) % 64 < 64,
            ;
        },
    }
}

/// Read one field out of a word stream.
fn extract_at(words: &Vec<u64>, num_bits: u8, convention: PackingConvention, k: usize) -> (v: u32)
    requires
        1 <= num_bits <= 32,
        k as int * (num_bits as int) + 63 <= usize::MAX,
        convention == PackingConvention::Padded ==> (k as int) < words@.len() * syms_per_word(
            num_bits as u64,
        ),
        convention == PackingConvention::Dense ==> (k as int + 1) * (num_bits as int)
            <= words@.len() * 64,
    ensures
        v == extract_sym(words@, convention, num_bits as u64, k as int),
{
    let bw = num_bits as u64;
    proof {
        lemma_spw(bw);
        assert((1u64 << bw) >= 1) by (bit_vector)
            requires
                bw <= 32,
        ;
    }
    let mask: u64 = (1u64 << bw) - 1;
    match convention {
        PackingConvention::Padded => {
            let spw = 64 / (num_bits as usize);
            let wi = k / spw;
            let j = k % spw;
            proof {
                lemma_div_lt(k as int, spw as int, words@.len() as int);
                vstd::arithmetic::div_mod::lemma_fundamental_div_mod(k as int, spw as int);
                lemma_slot_bounds(bw, j as int);
            }
            let sh = (j * (num_bits as usize)) as u64;
            let v64 = (words[wi] >> sh) & mask;
            proof {
                lemma_field_fits(words@[wi as int] >> sh, bw);
            }
            v64 as u32
        },
        PackingConvention::Dense => {
            let p = k * (num_bits as usize);
            let wi = p / 64;
            let off = p % 64;
            proof {
                vstd::arithmetic::div_mod::lemma_fundamental_div_mod(p as int, 64);
                assert((wi as int) * 64 <= p as int) by (nonlinear_arith)
                    requires
                        p as int == 64 * (wi as int) + (off as int),
                        off as int >= 0,
                ;
                assert((k as int + 1) * (bw as int) == k as int * (bw as int) + bw)
                    by (nonlinear_arith);
                assert(p as int + (bw as int) <= words@.len() * 64);
                if wi as int >= words@.len() {
                    assert(p as int >= words@.len() * 64) by (nonlinear_arith)
                        requires
                            (wi as int) * 64 <= p as int,
                            wi as int >= words@.len(),
                    ;
                }
            }
            if off + (num_bits as usize) <= 64 {
                let v64 = (words[wi] >> (off as u64)) & mask;
                proof {
                    lemma_field_fits(words@[wi as int] >> (off as u64), bw);
                }
                v64 as u32
            } else {
                proof {
                    if wi as int + 1 >= words@.len() {
                        assert(p as int + (bw as int) > (wi as int + 1) * 64);
                        assert((wi as int + 1) * 64 >= words@.len() * 64) by (nonlinear_arith)
                            requires
                                wi as int + 1 >= words@.len(),
                        ;
                    }
                }
                let lo = words[wi] >> (off as u64);
                let hi = words[wi + 1] << ((64 - off) as u64);
                let v64 = (lo | hi) & mask;
                proof {
                    lemma_field_fits(lo | hi, bw);
                }
                v64 as u32
            }
        },
    }
}

/// Unpack `count` symbols of width `num_bits` from a word stream, or report
/// that too few words are available.
pub fn unpack(
    words: &Vec<u64>,
    num_bits: u8,
    convention: PackingConvention,
    count: usize,
) -> (r: Result<Vec<u32>, PipelineError>)
    requires
        1 <= num_bits <= 32,
        count as int * (num_bits as int) + 63 <= usize::MAX,
    ensures
        r is Ok <==> words@.len() >= words_needed(count as int, num_bits as u64, convention),
        r is Ok ==> r->Ok_0@ == unpacked_seq(words@, convention, num_bits as u64, count as int),
        r is Err ==> r == Err::<Vec<u32>, PipelineError>(PipelineError::UnderflowOnDecode),
{
    let bw = num_bits as u64;
    proof {
        lemma_spw(bw);
    }
    let needed: usize = match convention {
        PackingConvention::Padded => {
            let spw = 64 / (num_bits as usize);
            proof {
                assert(count as int <= count as int * (bw as int)) by (nonlinear_arith)
                    requires
                        bw >= 1,
                        count as int >= 0,
                ;
                assert(count as int + (spw as int) - 1 <= usize::MAX);
            }
            (count + (spw - 1)) / spw
        },
        PackingConvention::Dense => (count * (num_bits as usize) + 63) / 64,
    };
    if words.len() < needed {
        return Err(PipelineError::UnderflowOnDecode);
    }
    proof {
        lemma_capacity(count as int, bw, convention);
        if convention == PackingConvention::Padded {
            assert(count as int <= words@.len() * syms_per_word(bw)) by (nonlinear_arith)
                requires
                    count as int <= (needed as int) * syms_per_word(bw),
                    needed as int <= words@.len(),
                    syms_per_word(bw) > 0,
            ;
        } else {
            assert(count as int * (bw as int) <= words@.len() * 64) by (nonlinear_arith)
                requires
                    count as int * (bw as int) <= (needed as int) * 64,
                    needed as int <= words@.len(),
            ;
        }
    }
    let mut out: Vec<u32> = Vec::new();
    let mut k: usize = 0;
    while k < count
        invariant
            1 <= num_bits <= 32,
            bw == num_bits as u64,
            count as int * (num_bits as int) + 63 <= usize::MAX,
            convention == PackingConvention::Padded ==> count as int <= words@.len()
                * syms_per_word(bw),
            convention == PackingConvention::Dense ==> count as int * (bw as int) <= words@.len()
                * 64,
            k <= count,
            out@.len() == k,
            forall|t: int|
                0 <= t < k ==> out@[t] == extract_sym(words@, convention, bw, t),
        decreases count - k,
    {
        proof {
            if convention == PackingConvention::Dense {
                assert((k as int + 1) * (bw as int) <= count as int * (bw as int))
                    by (nonlinear_arith)
                    requires
                        k as int + 1 <= count as int,
                        bw >= 1,
                ;
                assert(k as int * (bw as int) + 63 <= count as int * (bw as int) + 63)
                    by (nonlinear_arith)
                    requires
                        k as int <= count as int,
                        bw >= 1,
                ;
            } else {
                assert(k as int * (bw as int) <= count as int * (bw as int)) by (nonlinear_arith)
                    requires
                        k as int <= count as int,
                        bw >= 1,
                ;
            }
        }
        let v = extract_at(words, num_bits, convention, k);
        out.push(v);
        k = k + 1;
    }
    proof {
        assert(out@ =~= unpacked_seq(words@, convention, bw, count as int));
    }
    Ok(out)
}


/// Reads fixed-width symbols out of a packed stream of signed 64-bit words,
/// as the tree-format "long array" field stores them: padded convention,
/// least-significant bits first, one call per symbol.
pub struct PackedIntegerArrayIter {
    words: Vec<i64>,
    num_bits: u8,
    pos: usize,
}

impl PackedIntegerArrayIter {
    /// The reader's words, as the unsigned values whose bits they carry.
    pub closed spec fn word_seq(&self) -> Seq<u64> {
        self.words@.map_values(|w: i64| w as u64)
    }

    /// The symbol width.
    pub closed spec fn bits(&self) -> u8 {
        self.num_bits
    }

    /// How many symbols have been read so far.
    pub closed spec fn produced(&self) -> int {
        self.pos as int
    }

    /// A usable reader: a valid bit width and a stream short enough that a
    /// symbol count fits the machine.
    pub closed spec fn wf(&self) -> bool {
        1 <= self.num_bits <= 32 && self.words@.len() * 64 <= usize::MAX && self.pos as int
            <= self.words@.len() * syms_per_word(self.num_bits as u64)
    }

    /// A reader over `words`, rejecting an invalid bit width instead of
    /// assuming it: a width of 0 or more than 32 is reported as
    /// [`PipelineError::InvalidBitWidth`].
    pub fn try_new(words: Vec<i64>, num_bits: u8) -> (r: Result<
        PackedIntegerArrayIter,
        PipelineError,
    >)
        requires
            words@.len() * 64 <= usize::MAX,
        ensures
            r is Ok <==> 1 <= num_bits <= 32,
            r is Ok ==> ({
                let it = r->Ok_0;
                it.wf() && it.word_seq() == words@.map_values(|w: i64| w as u64) && it.bits()
                    == num_bits && it.produced() == 0
            }),
            r is Err ==> r == Err::<PackedIntegerArrayIter, PipelineError>(
                PipelineError::InvalidBitWidth,
            ),
    {
        if num_bits < 1 || num_bits > 32 {
            return Err(PipelineError::InvalidBitWidth);
        }
        Ok(PackedIntegerArrayIter::new(words, num_bits))
    }

    /// A reader over `words` at `num_bits` per symbol, positioned at the
    /// first symbol.  A width of 0 or more than 32 is a programming error.
    pub fn new(words: Vec<i64>, num_bits: u8) -> (it: PackedIntegerArrayIter)
        requires
            1 <= num_bits <= 32,
            words@.len() * 64 <= usize::MAX,
        ensures
            it.wf(),
            it.word_seq() == words@.map_values(|w: i64| w as u64),
            it.bits() == num_bits,
            it.produced() == 0,
    {
        proof {
            lemma_spw(num_bits as u64);
            assert(0 <= words@.len() * syms_per_word(num_bits as u64)) by (nonlinear_arith)
                requires
                    words@.len() >= 0,
                    syms_per_word(num_bits as u64) >= 0,
            ;
        }
        PackedIntegerArrayIter { words, num_bits, pos: 0 }
    }

    /// The next symbol, or nothing once every whole field of every word has
    /// been read.
    pub fn next(&mut self) -> (r: Option<u32>)
        requires
            old(self).wf(),
        ensures
            final(self).wf(),
            final(self).word_seq() == old(self).word_seq(),
            final(self).bits() == old(self).bits(),
            old(self).produced() < old(self).word_seq().len() * syms_per_word(
                old(self).bits() as u64,
            ) ==> r == Some(
                extract_padded(
                    old(self).word_seq(),
                    old(self).bits() as u64,
                    old(self).produced(),
                ),
            ) && final(self).produced() == old(self).produced() + 1,
            old(self).produced() >= old(self).word_seq().len() * syms_per_word(
                old(self).bits() as u64,
            ) ==> r == Option::<u32>::None && final(self).produced() == old(self).produced(),
    {
        let bw = self.num_bits as u64;
        proof {
            lemma_spw(bw);
        }
        let spw = 64 / (self.num_bits as usize);
        let wi = self.pos / spw;
        let ghost len = self.words@.len() as int;
        let ghost posg = self.pos as int;
        let ghost rem = self.pos as int % (spw as int);
        proof {
            vstd::arithmetic::div_mod::lemma_fundamental_div_mod(self.pos as int, spw as int);
            if wi as int >= len {
                assert(posg >= len * (spw as int)) by (nonlinear_arith)
                    requires
                        posg == (spw as int) * (wi as int) + rem,
                        rem >= 0,
                        (wi as int) >= len,
                        (spw as int) > 0,
                ;
            } else {
                assert(posg < len * (spw as int)) by (nonlinear_arith)
                    requires
                        posg == (spw as int) * (wi as int) + rem,
                        rem < (spw as int),
                        (wi as int) < len,
                        (spw as int) > 0,
                ;
                assert(len * (spw as int) <= len * 64) by (nonlinear_arith)
                    requires
                        (spw as int) <= 64,
                        len >= 0,
                ;
            }
        }
        if wi >= self.words.len() {
            return None;
        }
        let j = self.pos % spw;
        proof {
            lemma_slot_bounds(bw, j as int);
            assert((1u64 << bw) >= 1) by (bit_vector)
                requires
                    bw <= 32,
            ;
        }
        let mask: u64 = (1u64 << bw) - 1;
        let sh = (j * (self.num_bits as usize)) as u64;
        let w = self.words[wi] as u64;
        let v64 = (w >> sh) & mask;
        proof {
            assert(self.word_seq()[wi as int] == w);
            lemma_field_fits(w >> sh, bw);
        }
        self.pos = self.pos + 1;
        Some(v64 as u32)
    }
}

/// Setting bits at or above `off` of the second word of a straddling field
/// leaves the field's two-word read unchanged, as long as the field's high
/// part ends at or below `off`.
proof fn lemma_second_word_preserved(w1: u64, w2: u64, v: u64, offt: u64, off: u64, bw: u64)
    by (bit_vector)
    requires
        1 <= bw <= 32,
        offt < 64,
        offt + bw > 64,
        off < 64,
        offt + bw - 64 <= off,
    ensures
        ((w1 >> offt) | ((w2 | (v << off)) << ((64 - offt) as u64))) & mask64(bw) == ((w1 >> offt)
            | (w2 << ((64 - offt) as u64))) & mask64(bw),
{
}

/// Writing a straddling field: the low part tops up the current word, the
/// high part seeds the next word, and the two-word read returns the field.
proof fn lemma_straddle_insert(w: u64, v: u64, off: u64, bw: u64)
    by (bit_vector)
    requires
        1 <= bw <= 32,
        off < 64,
        off + bw > 64,
        w < (1u64 << off),
        v < (1u64 << bw),
    ensures
        (((w | (v << off)) >> off) | ((v >> ((64 - off) as u64)) << ((64 - off) as u64)))
            & mask64(bw) == v,
        (v >> ((64 - off) as u64)) < (1u64 << ((off + bw - 64) as u64)),
{
}

/// Pack `data` into words at width `num_bits` under the dense convention.
fn pack_dense(data: &Vec<u32>, num_bits: u8) -> (words: Vec<u64>)
    requires
        1 <= num_bits <= 32,
        data@.len() * (num_bits as int) + 63 <= usize::MAX,
        forall|i: int|
            0 <= i < data@.len() ==> (#[trigger] data@[i] as u64) < (1u64 << (num_bits as u64)),
    ensures
        words@.len() == words_needed(data@.len() as int, num_bits as u64, PackingConvention::Dense),
        unpacked_seq(words@, PackingConvention::Dense, num_bits as u64, data@.len() as int)
            == data@,
{
    let bw = num_bits as u64;
    let n = data.len();
    proof {
        lemma_spw(bw);
        lemma_capacity(n as int, bw, PackingConvention::Dense);
        assert(0u64 < (1u64 << 0u64)) by (bit_vector);
    }
    let nwords = (n * (num_bits as usize) + 63) / 64;
    let mut words: Vec<u64> = Vec::new();
    let mut i: usize = 0;
    while i < nwords
        invariant
            i <= nwords,
            words@.len() == i,
            forall|t: int| 0 <= t < i ==> words@[t] == 0u64,
        decreases nwords - i,
    {
        words.push(0u64);
        i = i + 1;
    }
    let mut k: usize = 0;
    while k < n
        invariant
            1 <= num_bits <= 32,
            bw == num_bits as u64,
            n == data@.len(),
            n as int * (bw as int) + 63 <= usize::MAX,
            k <= n,
            words@.len() == nwords,
            nwords as int == words_needed(n as int, bw, PackingConvention::Dense),
            n as int * (bw as int) <= (nwords as int) * 64,
            forall|i2: int|
                0 <= i2 < data@.len() ==> (#[trigger] data@[i2] as u64) < (1u64 << (num_bits
                    as u64)),
            forall|t: int|
                0 <= t < k ==> extract_dense(words@, bw, t) == data@[t],
            forall|wj: int|
                k as int * (bw as int) <= wj * 64 < (nwords as int) * 64 ==> words@[wj] == 0u64,
            (k as int * (bw as int)) % 64 != 0 ==> words@[k as int * (bw as int) / 64] < (1u64
                << (((k as int * (bw as int)) % 64) as u64)),
            (k as int * (bw as int)) % 64 == 0 && k as int * (bw as int) < (nwords as int) * 64
                ==> words@[k as int * (bw as int) / 64] == 0u64,
        decreases n - k,
    {
        let v = data[k];
        proof {
            assert((k as int + 1) * (bw as int) == k as int * (bw as int) + bw)
                by (nonlinear_arith);
            assert((k as int + 1) * (bw as int) <= n as int * (bw as int)) by (nonlinear_arith)
                requires
                    (k as int) + 1 <= n as int,
                    bw >= 1,
            ;
        }
        let p = k * (num_bits as usize);
        let wi = p / 64;
        let off = p % 64;
        let ghost words_pre = words@;
        proof {
            assert(0u64 < (1u64 << 0u64)) by (bit_vector);
            vstd::arithmetic::div_mod::lemma_fundamental_div_mod(p as int, 64);
            assert((wi as int) * 64 <= p as int) by (nonlinear_arith)
                requires
                    p as int == 64 * (wi as int) + (off as int),
                    off as int >= 0,
            ;
            if wi as int >= nwords as int {
                assert(p as int >= (nwords as int) * 64) by (nonlinear_arith)
                    requires
                        (wi as int) * 64 <= p as int,
                        wi as int >= nwords as int,
                ;
            }
            if off == 0 {
                assert(words_pre[wi as int] == 0u64) by {
                    assert(p as int == (wi as int) * 64);
                }
            }
            assert(words_pre[wi as int] < (1u64 << (off as u64)));
        }
        let w0 = words[wi];
        let w1 = w0 | ((v as u64) << (off as u64));
        words.set(wi, w1);
        if off + (num_bits as usize) > 64 {
            proof {
                if wi as int + 1 >= nwords as int {
                    assert((wi as int + 1) * 64 >= (nwords as int) * 64) by (nonlinear_arith)
                        requires
                            wi as int + 1 >= nwords as int,
                    ;
                }
                assert(((wi as int + 1)) * 64 == (wi as int) * 64 + 64) by (nonlinear_arith);
                assert(words@[wi as int + 1] == 0u64) by {
                    assert(k as int * (bw as int) <= (wi as int + 1) * 64 < (nwords as int)
                        * 64);
                }
            }
            let spill = (v as u64) >> ((64 - off) as u64);
            words.set(wi + 1, spill);
            proof {
                lemma_straddle_insert(w0, v as u64, off as u64, bw);
            }
        }
        proof {
            let ghost wnow = words@;
            assert forall|t: int| 0 <= t < k + 1 implies extract_dense(wnow, bw, t)
                == data@[t] by {
                let pt = t * (bw as int);
                let wit = pt / 64;
                let offt = pt % 64;
                vstd::arithmetic::div_mod::lemma_fundamental_div_mod(pt, 64);
                assert(pt >= 0 && pt + bw <= p as int + bw) by (nonlinear_arith)
                    requires
                        0 <= t <= k as int,
                        pt == t * (bw as int),
                        p as int == k as int * (bw as int),
                        bw >= 1,
                ;
                vstd::arithmetic::div_mod::lemma_div_pos_is_pos(pt, 64);
                assert((wit) * 64 <= pt) by (nonlinear_arith)
                    requires
                        pt == 64 * wit + offt,
                        offt >= 0,
                ;
                if t == k {
                    if off + (num_bits as usize) > 64 {
                        assert(extract_dense(wnow, bw, t) == ((((wnow[wi as int] as u64) >> (
                        off as u64)) | ((wnow[wi as int + 1] as u64) << ((64 - off) as u64)))
                            & mask64(bw)) as u32);
                        lemma_straddle_insert(w0, v as u64, off as u64, bw);
                        lemma_field_fits(v as u64, bw);
                        assert((v as u64) & mask64(bw) == v as u64) by (bit_vector)
                            requires
                                1 <= bw <= 32,
                                (v as u64) < (1u64 << bw),
                        ;
                    } else {
                        lemma_field_insert(w0, v as u64, off as u64, bw);
                    }
                } else {
                    assert(pt + bw <= p as int) by (nonlinear_arith)
                        requires
                            0 <= t < k as int,
                            pt == t * (bw as int),
                            p as int == k as int * (bw as int),
                            bw >= 1,
                    ;
                    if offt + bw <= 64 {
                        if wit == wi as int {
                            assert(offt + bw <= off as int);
                            lemma_field_preserved(
                                w0,
                                v as u64,
                                off as u64,
                                offt as u64,
                                bw,
                                bw,
                            );
                        } else {
                            assert(wit < wi as int) by (nonlinear_arith)
                                requires
                                    wit != wi as int,
                                    64 * wit <= pt,
                                    pt + bw <= p as int,
                                    p as int == 64 * (wi as int) + (off as int),
                                    (off as int) < 64,
                                    bw >= 1,
                                    wit >= 0,
                            ;
                        }
                    } else {
                        assert(64 * (wit + 1) < pt + bw) by (nonlinear_arith)
                            requires
                                64 * wit + offt == pt,
                                offt + bw > 64,
                        ;
                        assert(wit + 1 <= wi as int) by (nonlinear_arith)
                            requires
                                64 * (wit + 1) < pt + bw,
                                pt + bw <= p as int,
                                p as int == 64 * (wi as int) + (off as int),
                                off < 64,
                        ;
                        if wit + 1 == wi as int {
                            assert(pt + bw - 64 * (wit + 1) <= off as int);
                            assert(offt + bw - 64 == pt + bw - 64 * (wit + 1));
                            lemma_second_word_preserved(
                                words_pre[wit],
                                w0,
                                v as u64,
                                offt as u64,
                                off as u64,
                                bw,
                            );
                            assert(wnow[wit] == words_pre[wit]);
                            assert(wnow[wit + 1] == w0 | ((v as u64) << (off as u64)));
                        }
                    }
                }
            };
        }
        proof {
            let pn = p as int + bw;
            if (off as int) + bw < 64 {
                lemma_div_parts(pn, 64, wi as int, off as int + bw);
                lemma_field_insert(w0, v as u64, off as u64, bw);
            } else if (off as int) + bw == 64 {
                lemma_div_parts(pn, 64, wi as int + 1, 0);
            } else {
                lemma_div_parts(pn, 64, wi as int + 1, off as int + bw - 64);
                lemma_straddle_insert(w0, v as u64, off as u64, bw);
            }
            assert forall|wj: int|
                pn <= wj * 64 < (nwords as int) * 64 implies words@[wj] == 0u64 by {
                assert(k as int * (bw as int) <= wj * 64);
                assert(words_pre[wj] == 0u64);
                assert((wi as int) * 64 < wj * 64);
                assert((wi as int) < wj);
                if (off as int) + bw > 64 {
                    assert((wi as int + 1) * 64 < pn);
                    assert((wi as int) + 1 < wj);
                }
            };
        }
        k = k + 1;
        proof {
            assert(k as int * (bw as int) == p as int + bw);
        }
    }
    proof {
        assert(unpacked_seq(words@, PackingConvention::Dense, bw, n as int) =~= data@);
    }
    words
}

/// Pack a block of symbols into a word stream at the given width and
/// convention: the exact inverse of unpacking, emitting the minimal number
/// of words.  A width of 0 or more than 32 is a programming error.
pub fn pack(data: &Vec<u32>, num_bits: u8, convention: PackingConvention) -> (words: Vec<u64>)
    requires
        1 <= num_bits <= 32,
        data@.len() * (num_bits as int) + 63 <= usize::MAX,
        forall|i: int|
            0 <= i < data@.len() ==> (#[trigger] data@[i] as nat) < vstd::arithmetic::power2::pow2(
                num_bits as nat,
            ),
    ensures
        words@.len() == words_needed(data@.len() as int, num_bits as u64, convention),
        unpacked_seq(words@, convention, num_bits as u64, data@.len() as int) == data@,
{
    proof {
        vstd::bits::lemma_u64_pow2_no_overflow(num_bits as nat);
        vstd::bits::lemma_u64_shl_is_mul(1u64, num_bits as u64);
        assert forall|i: int| 0 <= i < data@.len() implies (#[trigger] data@[i] as u64) < (1u64
            << (num_bits as u64)) by {
            assert((data@[i] as nat) < vstd::arithmetic::power2::pow2(num_bits as nat));
        };
    }
    match convention {
        PackingConvention::Padded => pack_padded(data, num_bits),
        PackingConvention::Dense => pack_dense(data, num_bits),
    }
}

} // verus!
