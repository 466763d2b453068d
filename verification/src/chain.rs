//! Ordered composition of transformers: an explicit list applied as a fold,
//! with the reversal applying the list in strictly reversed order.
//!
//! The composition generalizes pairwise chaining to any number of stages.
//! On the invertible stages the chain as a whole round-trips, which
//! `lemma_chain_round_trip` states and proves by induction over the list.

use vstd::prelude::*;

use crate::BLOCK_LEN;
use crate::PipelineError;
use crate::integertransformers::DeltaLeft;
use crate::integertransformers::HilbertCurve;
use crate::integertransformers::HilbertCurveAdaptive;
use crate::integertransformers::Identity;
use crate::integertransformers::IntegerTransformer;
use crate::integertransformers::MoveToFront;
use crate::integertransformers::MoveToFrontLookbehind;
use crate::integertransformers::ZOrderCurve;
use crate::integertransformers::initial_state;
use crate::integertransformers::lemma_initial_state;
use crate::integertransformers::lemma_lookbehind_round_trip;
use crate::integertransformers::lemma_move_to_front_round_trip;
use crate::integertransformers::lemma_mtf_codec;
use crate::integertransformers::lemma_mtfl_encode_len;
use crate::integertransformers::lemma_zorder_round_trip;

verus! {

/// One transformer stage in an ordered composition.
#[derive(Clone, Copy, Debug, PartialEq, Eq, Structural)]
pub enum TransformKind {
    Identity,
    DeltaLeft,
    MoveToFront,
    MoveToFrontLookbehind,
    ZOrderCurve,
    HilbertCurve,
    HilbertCurveAdaptive,
}

/// Which inputs the stage accepts.
pub open spec fn kind_accepts(kind: TransformKind, data: Seq<u32>, palette_size: u32) -> bool {
    match kind {
        TransformKind::Identity => Identity::accepts(data, palette_size),
        TransformKind::DeltaLeft => DeltaLeft::accepts(data, palette_size),
        TransformKind::MoveToFront => MoveToFront::accepts(data, palette_size),
        TransformKind::MoveToFrontLookbehind => MoveToFrontLookbehind::accepts(data, palette_size),
        TransformKind::ZOrderCurve => ZOrderCurve::accepts(data, palette_size),
        TransformKind::HilbertCurve => HilbertCurve::accepts(data, palette_size),
        TransformKind::HilbertCurveAdaptive => HilbertCurveAdaptive::accepts(data, palette_size),
    }
}

/// The stage's transformed block and palette size.
pub open spec fn kind_transformed(kind: TransformKind, data: Seq<u32>, palette_size: u32) -> (
    Seq<u32>,
    u32,
) {
    match kind {
        TransformKind::Identity => Identity::transformed(data, palette_size),
        TransformKind::DeltaLeft => DeltaLeft::transformed(data, palette_size),
        TransformKind::MoveToFront => MoveToFront::transformed(data, palette_size),
        TransformKind::MoveToFrontLookbehind => MoveToFrontLookbehind::transformed(
            data,
            palette_size,
        ),
        TransformKind::ZOrderCurve => ZOrderCurve::transformed(data, palette_size),
        TransformKind::HilbertCurve => HilbertCurve::transformed(data, palette_size),
        TransformKind::HilbertCurveAdaptive => HilbertCurveAdaptive::transformed(
            data,
            palette_size,
        ),
    }
}

/// Which inputs the stage's reversal accepts.
pub open spec fn kind_rev_accepts(kind: TransformKind, data: Seq<u32>, palette_size: u32) -> bool {
    match kind {
        TransformKind::Identity => Identity::rev_accepts(data, palette_size),
        TransformKind::DeltaLeft => DeltaLeft::rev_accepts(data, palette_size),
        TransformKind::MoveToFront => MoveToFront::rev_accepts(data, palette_size),
        TransformKind::MoveToFrontLookbehind => MoveToFrontLookbehind::rev_accepts(
            data,
            palette_size,
        ),
        TransformKind::ZOrderCurve => ZOrderCurve::rev_accepts(data, palette_size),
        TransformKind::HilbertCurve => HilbertCurve::rev_accepts(data, palette_size),
        TransformKind::HilbertCurveAdaptive => HilbertCurveAdaptive::rev_accepts(
            data,
            palette_size,
        ),
    }
}

/// The stage's restored block and palette size.
pub open spec fn kind_reversed(kind: TransformKind, data: Seq<u32>, palette_size: u32) -> (
    Seq<u32>,
    u32,
) {
    match kind {
        TransformKind::Identity => Identity::reversed(data, palette_size),
        TransformKind::DeltaLeft => DeltaLeft::reversed(data, palette_size),
        TransformKind::MoveToFront => MoveToFront::reversed(data, palette_size),
        TransformKind::MoveToFrontLookbehind => MoveToFrontLookbehind::reversed(
            data,
            palette_size,
        ),
        TransformKind::ZOrderCurve => ZOrderCurve::reversed(data, palette_size),
        TransformKind::HilbertCurve => HilbertCurve::reversed(data, palette_size),
        TransformKind::HilbertCurveAdaptive => HilbertCurveAdaptive::reversed(data, palette_size),
    }
}

/// The fold of a list of stages over a block, first stage first; nothing
/// when some stage rejects its input or a palette size leaves the supported
/// range.
pub open spec fn chain_transform(
    kinds: Seq<TransformKind>,
    data: Seq<u32>,
    palette_size: u32,
) -> Option<(Seq<u32>, u32)>
    decreases kinds.len(),
{
    if kinds.len() == 0 {
        Some((data, palette_size))
    } else if !(1 <= palette_size <= 0x8000_0000) || !kind_accepts(kinds[0], data, palette_size) {
        None
    } else {
        let (d1, p1) = kind_transformed(kinds[0], data, palette_size);
        chain_transform(kinds.drop_first(), d1, p1)
    }
}

/// The fold of the reversals over a block, in strictly reversed stage order.
pub open spec fn chain_reverse(
    kinds: Seq<TransformKind>,
    data: Seq<u32>,
    palette_size: u32,
) -> Option<(Seq<u32>, u32)>
    decreases kinds.len(),
{
    if kinds.len() == 0 {
        Some((data, palette_size))
    } else if !(1 <= palette_size <= 0x8000_0002) || !kind_rev_accepts(
        kinds.last(),
        data,
        palette_size,
    ) {
        None
    } else {
        let (d1, p1) = kind_reversed(kinds.last(), data, palette_size);
        chain_reverse(kinds.drop_last(), d1, p1)
    }
}

/// Apply one stage in place.
pub fn apply_transform(
    kind: TransformKind,
    data: &mut Vec<u32>,
    palette_size: &mut u32,
) -> (r: Result<(), PipelineError>)
    requires
        old(data)@.len() == BLOCK_LEN,
        1 <= *old(palette_size) <= 0x8000_0000,
    ensures
        final(data)@.len() == BLOCK_LEN,
        r is Ok <==> kind_accepts(kind, old(data)@, *old(palette_size)),
        r is Ok ==> (final(data)@, *final(palette_size)) == kind_transformed(
            kind,
            old(data)@,
            *old(palette_size),
        ),
        r is Ok ==> *old(palette_size) <= *final(palette_size) <= 0x8000_0002,
        r is Err ==> final(data)@ == old(data)@ && *final(palette_size) == *old(palette_size)
            && r == Err::<(), PipelineError>(PipelineError::SymbolOutOfRange),
{
    match kind {
        TransformKind::Identity => Identity::transform(data, palette_size),
        TransformKind::DeltaLeft => DeltaLeft::transform(data, palette_size),
        TransformKind::MoveToFront => MoveToFront::transform(data, palette_size),
        TransformKind::MoveToFrontLookbehind => MoveToFrontLookbehind::transform(
            data,
            palette_size,
        ),
        TransformKind::ZOrderCurve => ZOrderCurve::transform(data, palette_size),
        TransformKind::HilbertCurve => HilbertCurve::transform(data, palette_size),
        TransformKind::HilbertCurveAdaptive => HilbertCurveAdaptive::transform(data, palette_size),
    }
}

/// Undo one stage in place.
pub fn apply_reverse(
    kind: TransformKind,
    data: &mut Vec<u32>,
    palette_size: &mut u32,
) -> (r: Result<(), PipelineError>)
    requires
        old(data)@.len() == BLOCK_LEN,
        1 <= *old(palette_size) <= 0x8000_0002,
    ensures
        final(data)@.len() == BLOCK_LEN,
        r is Ok <==> kind_rev_accepts(kind, old(data)@, *old(palette_size)),
        r is Ok ==> (final(data)@, *final(palette_size)) == kind_reversed(
            kind,
            old(data)@,
            *old(palette_size),
        ),
        r is Err ==> final(data)@ == old(data)@ && *final(palette_size) == *old(palette_size)
            && (r == Err::<(), PipelineError>(PipelineError::SymbolOutOfRange) || r == Err::<
                (),
                PipelineError,
            >(PipelineError::NotInvertible)),
{
    match kind {
        TransformKind::Identity => Identity::reverse(data, palette_size),
        TransformKind::DeltaLeft => DeltaLeft::reverse(data, palette_size),
        TransformKind::MoveToFront => MoveToFront::reverse(data, palette_size),
        TransformKind::MoveToFrontLookbehind => MoveToFrontLookbehind::reverse(
            data,
            palette_size,
        ),
        TransformKind::ZOrderCurve => ZOrderCurve::reverse(data, palette_size),
        TransformKind::HilbertCurve => HilbertCurve::reverse(data, palette_size),
        TransformKind::HilbertCurveAdaptive => HilbertCurveAdaptive::reverse(data, palette_size),
    }
}

/// Restore a block from a saved copy.
fn restore_block(data: &mut Vec<u32>, copy: &Vec<u32>)
    requires
        old(data)@.len() == copy@.len(),
    ensures
        final(data)@ == copy@,
{
    let mut k: usize = 0;
    while k < copy.len()
        invariant
            data@.len() == copy@.len(),
            k <= copy@.len(),
            forall|i: int| 0 <= i < k ==> data@[i] == copy@[i],
        decreases copy@.len() - k,
    {
        let v = copy[k];
        data.set(k, v);
        k = k + 1;
    }
    proof {
        assert(data@ =~= copy@);
    }
}

/// Apply an ordered list of stages to a block, first stage first.  On any
/// stage's failure the block and palette size are restored and the error
/// surfaced.
pub fn transform_chain(
    kinds: &Vec<TransformKind>,
    data: &mut Vec<u32>,
    palette_size: &mut u32,
) -> (r: Result<(), PipelineError>)
    requires
        old(data)@.len() == BLOCK_LEN,
    ensures
        final(data)@.len() == BLOCK_LEN,
        r is Ok <==> chain_transform(kinds@, old(data)@, *old(palette_size)) is Some,
        r is Ok ==> Some((final(data)@, *final(palette_size))) == chain_transform(
            kinds@,
            old(data)@,
            *old(palette_size),
        ),
        r is Err ==> final(data)@ == old(data)@ && *final(palette_size) == *old(palette_size)
            && r == Err::<(), PipelineError>(PipelineError::SymbolOutOfRange),
{
    let copy = crate::integertransformers::clone_block(data);
    let ps0 = *palette_size;
    proof {
        assert(kinds@.skip(0) =~= kinds@);
    }
    let mut i: usize = 0;
    while i < kinds.len()
        invariant
            copy@ == old(data)@,
            ps0 == *old(palette_size),
            copy@.len() == BLOCK_LEN,
            data@.len() == BLOCK_LEN,
            i <= kinds@.len(),
            chain_transform(kinds@, copy@, ps0) == chain_transform(
                kinds@.skip(i as int),
                data@,
                *palette_size,
            ),
        decreases kinds@.len() - i,
    {
        let kind = kinds[i];
        proof {
            assert(kinds@.skip(i as int)[0] == kinds@[i as int]);
            assert(kinds@.skip(i as int).drop_first() =~= kinds@.skip(i as int + 1));
        }
        if *palette_size < 1 || *palette_size > 0x8000_0000 {
            restore_block(data, &copy);
            *palette_size = ps0;
            return Err(PipelineError::SymbolOutOfRange);
        }
        match apply_transform(kind, data, palette_size) {
            Ok(()) => {},
            Err(e) => {
                restore_block(data, &copy);
                *palette_size = ps0;
                return Err(e);
            },
        }
        i = i + 1;
    }
    proof {
        assert(kinds@.skip(kinds@.len() as int) =~= Seq::<TransformKind>::empty());
    }
    Ok(())
}

/// Undo an ordered list of stages, last stage first.  On any stage's failure
/// the block and palette size are restored and the error surfaced.
pub fn reverse_chain(
    kinds: &Vec<TransformKind>,
    data: &mut Vec<u32>,
    palette_size: &mut u32,
) -> (r: Result<(), PipelineError>)
    requires
        old(data)@.len() == BLOCK_LEN,
    ensures
        final(data)@.len() == BLOCK_LEN,
        r is Ok <==> chain_reverse(kinds@, old(data)@, *old(palette_size)) is Some,
        r is Ok ==> Some((final(data)@, *final(palette_size))) == chain_reverse(
            kinds@,
            old(data)@,
            *old(palette_size),
        ),
        r is Err ==> final(data)@ == old(data)@ && *final(palette_size) == *old(palette_size)
            && (r == Err::<(), PipelineError>(PipelineError::SymbolOutOfRange) || r == Err::<
                (),
                PipelineError,
            >(PipelineError::NotInvertible)),
{
    let copy = crate::integertransformers::clone_block(data);
    let ps0 = *palette_size;
    proof {
        assert(kinds@.take(kinds@.len() as int) =~= kinds@);
    }
    let mut i: usize = kinds.len();
    while i > 0
        invariant
            copy@ == old(data)@,
            ps0 == *old(palette_size),
            copy@.len() == BLOCK_LEN,
            data@.len() == BLOCK_LEN,
            i <= kinds@.len(),
            chain_reverse(kinds@, copy@, ps0) == chain_reverse(
                kinds@.take(i as int),
                data@,
                *palette_size,
            ),
        decreases i,
    {
        let kind = kinds[i - 1];
        proof {
            assert(kinds@.take(i as int).last() == kinds@[i as int - 1]);
            assert(kinds@.take(i as int).drop_last() =~= kinds@.take(i as int - 1));
        }
        if *palette_size < 1 || *palette_size > 0x8000_0002 {
            restore_block(data, &copy);
            *palette_size = ps0;
            return Err(PipelineError::SymbolOutOfRange);
        }
        match apply_reverse(kind, data, palette_size) {
            Ok(()) => {},
            Err(e) => {
                restore_block(data, &copy);
                *palette_size = ps0;
                return Err(e);
            },
        }
        i = i - 1;
    }
    proof {
        assert(kinds@.take(0) =~= Seq::<TransformKind>::empty());
    }
    Ok(())
}

/// The stages whose reversal is a faithful inverse.  The delta recoding and
/// the adaptive curve choice record no side channel for their reversal; the
/// plain curve reordering inverts in execution but its inverse is known only
/// call by call, so the list-level law leaves it out.
pub open spec fn kind_invertible(kind: TransformKind) -> bool {
    match kind {
        TransformKind::Identity => true,
        TransformKind::MoveToFront => true,
        TransformKind::MoveToFrontLookbehind => true,
        TransformKind::ZOrderCurve => true,
        _ => false,
    }
}

/// One invertible stage round-trips, keeps the block length, and keeps the
/// palette size in the supported range.
proof fn lemma_kind_round_trip(kind: TransformKind, data: Seq<u32>, palette_size: u32)
    requires
        kind_invertible(kind),
        data.len() == BLOCK_LEN,
        1 <= palette_size <= 0x8000_0000,
        kind_accepts(kind, data, palette_size),
    ensures
        ({
            let (td, tps) = kind_transformed(kind, data, palette_size);
            td.len() == BLOCK_LEN && 1 <= tps <= 0x8000_0002 && kind_rev_accepts(kind, td, tps)
                && kind_reversed(kind, td, tps) == (data, palette_size)
        }),
{
    match kind {
        TransformKind::Identity => {},
        TransformKind::MoveToFront => {
            lemma_move_to_front_round_trip(data, palette_size);
            lemma_initial_state(palette_size);
            lemma_mtf_codec(data, initial_state(palette_size));
        },
        TransformKind::MoveToFrontLookbehind => {
            lemma_lookbehind_round_trip(data, palette_size);
            lemma_initial_state(palette_size);
            lemma_mtfl_encode_len(data, palette_size, 0, initial_state(palette_size));
        },
        TransformKind::ZOrderCurve => {
            lemma_zorder_round_trip(data, palette_size);
        },
        _ => {},
    }
}

/// Reversing a concatenation of stage lists reverses the second list first.
proof fn lemma_chain_reverse_concat(
    a: Seq<TransformKind>,
    b: Seq<TransformKind>,
    data: Seq<u32>,
    palette_size: u32,
)
    ensures
        chain_reverse(a + b, data, palette_size) == (match chain_reverse(b, data, palette_size) {
            Some((d1, p1)) => chain_reverse(a, d1, p1),
            None => None,
        }),
    decreases b.len(),
{
    if b.len() == 0 {
        assert(a + b =~= a);
    } else {
        assert((a + b).last() == b.last());
        assert((a + b).drop_last() =~= a + b.drop_last());
        if 1 <= palette_size <= 0x8000_0002 && kind_rev_accepts(b.last(), data, palette_size) {
            let (d1, p1) = kind_reversed(b.last(), data, palette_size);
            lemma_chain_reverse_concat(a, b.drop_last(), d1, p1);
        }
    }
}

/// The composition round-trips: for any list of invertible stages that
/// accepts a block, reversing the chain on the chain's output restores the
/// original block and palette size exactly.
pub proof fn lemma_chain_round_trip(kinds: Seq<TransformKind>, data: Seq<u32>, palette_size: u32)
    requires
        data.len() == BLOCK_LEN,
        forall|i: int| 0 <= i < kinds.len() ==> kind_invertible(#[trigger] kinds[i]),
        chain_transform(kinds, data, palette_size) is Some,
    ensures
        ({
            let (td, tps) = chain_transform(kinds, data, palette_size)->Some_0;
            chain_reverse(kinds, td, tps) == Some((data, palette_size))
        }),
    decreases kinds.len(),
{
    if kinds.len() > 0 {
        let k0 = kinds[0];
        let rest = kinds.drop_first();
        assert(kind_invertible(k0));
        let (d1, p1) = kind_transformed(k0, data, palette_size);
        lemma_kind_round_trip(k0, data, palette_size);
        assert(forall|i: int|
            0 <= i < rest.len() ==> kind_invertible(#[trigger] rest[i]) && rest[i] == kinds[i
                + 1]);
        lemma_chain_round_trip(rest, d1, p1);
        let (td, tps) = chain_transform(kinds, data, palette_size)->Some_0;
        assert(chain_transform(rest, d1, p1) == Some((td, tps)));
        assert(chain_reverse(rest, td, tps) == Some((d1, p1)));
        assert(kinds =~= seq![k0] + rest);
        lemma_chain_reverse_concat(seq![k0], rest, td, tps);
        let single = seq![k0];
        assert(single.len() == 1);
        assert(single.last() == k0);
        assert(single.drop_last() =~= Seq::<TransformKind>::empty());
        assert(kind_rev_accepts(k0, d1, p1) && 1 <= p1 <= 0x8000_0002);
        assert(chain_reverse(single, d1, p1) == chain_reverse(
            single.drop_last(),
            kind_reversed(k0, d1, p1).0,
            kind_reversed(k0, d1, p1).1,
        ));
        assert(kind_reversed(k0, d1, p1) == (data, palette_size));
        assert(chain_reverse(Seq::<TransformKind>::empty(), data, palette_size) == Some(
            (data, palette_size),
        ));
    }
}

} // verus!
