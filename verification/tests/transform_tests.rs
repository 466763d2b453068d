use blockpack::PipelineError;
use blockpack::chain::TransformKind;
use blockpack::chain::reverse_chain;
use blockpack::chain::transform_chain;
use blockpack::integertransformers::DeltaLeft;
use blockpack::integertransformers::HilbertCurve;
use blockpack::integertransformers::HilbertCurveAdaptive;
use blockpack::integertransformers::Identity;
use blockpack::integertransformers::IntegerTransformer;
use blockpack::integertransformers::MoveToFront;
use blockpack::integertransformers::MoveToFrontLookbehind;
use blockpack::integertransformers::ZOrderCurve;
use blockpack::integertransformers::interleave_idx;
use blockpack::integertransformers::uninterleave_idx;

fn sample_block(palette_size: u32) -> Vec<u32> {
    let mut data = Vec::new();
    for i in 0..4096u64 {
        data.push(((i * i + i / 7) % palette_size as u64) as u32);
    }
    data
}

fn round_trip<T: IntegerTransformer>(block: &Vec<u32>, palette_size: u32) {
    let mut data = block.clone();
    let mut ps = palette_size;
    T::transform(&mut data, &mut ps).unwrap();
    T::reverse(&mut data, &mut ps).unwrap();
    assert_eq!(&data, block);
    assert_eq!(ps, palette_size);
}

#[test]
fn identity_round_trip() {
    round_trip::<Identity>(&sample_block(40), 40);
}

#[test]
fn move_to_front_round_trip() {
    round_trip::<MoveToFront>(&sample_block(40), 40);
    round_trip::<MoveToFront>(&sample_block(1), 1);
}

#[test]
fn lookbehind_round_trip() {
    let block = sample_block(40);
    let mut data = block.clone();
    let mut ps = 40;
    MoveToFrontLookbehind::transform(&mut data, &mut ps).unwrap();
    assert_eq!(ps, 42, "palette grows by exactly 2");
    MoveToFrontLookbehind::reverse(&mut data, &mut ps).unwrap();
    assert_eq!(data, block);
    assert_eq!(ps, 40);
}

#[test]
fn zorder_round_trip() {
    round_trip::<ZOrderCurve>(&sample_block(40), 40);
}

#[test]
fn hilbert_round_trip() {
    round_trip::<HilbertCurve>(&sample_block(40), 40);
}

#[test]
fn move_to_front_all_zero_block_is_all_zero_ranks() {
    // 4096 copies of value 0 at palette size 2: every rank is 0.
    let mut data = vec![0u32; 4096];
    let mut ps = 2;
    MoveToFront::transform(&mut data, &mut ps).unwrap();
    assert_eq!(ps, 2);
    assert!(data.iter().all(|&v| v == 0));
}

#[test]
fn move_to_front_ranks_stay_below_palette_size() {
    let mut data = sample_block(23);
    let mut ps = 23;
    MoveToFront::transform(&mut data, &mut ps).unwrap();
    assert_eq!(ps, 23);
    assert!(data.iter().all(|&v| v < 23), "no escape symbols in plain move-to-front");
}

#[test]
fn move_to_front_rejects_out_of_range_symbol() {
    let mut data = vec![0u32; 4096];
    data[17] = 9;
    let original = data.clone();
    let mut ps = 9;
    let r = MoveToFront::transform(&mut data, &mut ps);
    assert_eq!(r.unwrap_err(), PipelineError::SymbolOutOfRange);
    assert_eq!(data, original, "a rejected block is left unchanged");
    assert_eq!(ps, 9);
}

#[test]
fn move_to_front_recency_ranks() {
    // First occurrences emit the value's initial ascending rank; repeats of
    // the most recent value emit 0.
    let mut data = vec![0u32; 4096];
    data[0] = 2;
    data[1] = 2;
    data[2] = 0;
    data[3] = 1;
    data[4] = 0;
    let mut ps = 3;
    MoveToFront::transform(&mut data, &mut ps).unwrap();
    assert_eq!(&data[..5], &[2, 0, 1, 2, 1]);
}

#[test]
fn lookbehind_emits_escape_for_value_sixteen_back() {
    // Position 16 repeats position 0's value while it no longer has rank 0,
    // so the escape symbol `palette_size` is emitted there.
    let mut data = vec![0u32; 4096];
    data[0] = 5;
    for i in 1..16 {
        data[i] = (i % 5) as u32;
    }
    data[16] = 5;
    let mut ps = 6;
    MoveToFrontLookbehind::transform(&mut data, &mut ps).unwrap();
    assert_eq!(ps, 8);
    assert_eq!(data[16], 6, "escape symbol for the value 16 back");
}

#[test]
fn delta_left_widens_palette_and_wraps() {
    let mut data = vec![0u32; 4096];
    data[0] = 3;
    data[1] = 1;
    data[2] = 9;
    let mut ps = 10;
    DeltaLeft::transform(&mut data, &mut ps).unwrap();
    assert_eq!(ps, 16, "palette widened to the full 4-bit range");
    assert_eq!(data[0], 3);
    assert_eq!(data[1], (1u32.wrapping_sub(3)) & 15);
    assert_eq!(data[2], 8);
    assert_eq!(data[3], (0u32.wrapping_sub(9)) & 15);
}

#[test]
fn delta_left_reverse_is_not_invertible() {
    let mut data = vec![0u32; 4096];
    let mut ps = 16;
    let r = DeltaLeft::reverse(&mut data, &mut ps);
    assert_eq!(r.unwrap_err(), PipelineError::NotInvertible);
}

#[test]
fn hilbert_adaptive_reverse_is_not_invertible() {
    let mut data = vec![0u32; 4096];
    let mut ps = 2;
    let r = HilbertCurveAdaptive::reverse(&mut data, &mut ps);
    assert_eq!(r.unwrap_err(), PipelineError::NotInvertible);
}

#[test]
fn hilbert_adaptive_keeps_flat_order_when_it_has_more_runs() {
    // A block whose flat order is all runs: the curve cannot beat it, so the
    // adaptive transform keeps the block unchanged.
    let mut data = Vec::new();
    for i in 0..4096u32 {
        data.push(i / 2048);
    }
    let original = data.clone();
    let mut ps = 2;
    HilbertCurveAdaptive::transform(&mut data, &mut ps).unwrap();
    assert_eq!(ps, 2);
    assert_eq!(data, original);
}

#[test]
fn zorder_interleaving_is_a_bijection_on_the_cube() {
    let mut seen = vec![false; 4096];
    for i in 0..4096u32 {
        let j = interleave_idx(i);
        assert!(j < 4096);
        assert!(!seen[j as usize]);
        seen[j as usize] = true;
        assert_eq!(uninterleave_idx(j), i);
    }
}

#[test]
fn zorder_groups_neighbouring_cells() {
    // Cell (x=1, y=0, z=0) is flat index 1 and Morton index 1;
    // cell (x=0, y=1, z=0) is flat index 256 and Morton index 4;
    // cell (x=0, y=0, z=1) is flat index 16 and Morton index 2.
    assert_eq!(interleave_idx(0), 0);
    assert_eq!(interleave_idx(1), 1);
    assert_eq!(interleave_idx(256), 4);
    assert_eq!(interleave_idx(16), 2);
}

#[test]
fn chain_applies_stages_in_order_and_reverses_them() {
    let block = sample_block(40);
    let kinds = vec![
        TransformKind::ZOrderCurve,
        TransformKind::MoveToFront,
        TransformKind::MoveToFrontLookbehind,
    ];
    let mut data = block.clone();
    let mut ps = 40;
    transform_chain(&kinds, &mut data, &mut ps).unwrap();
    assert_eq!(ps, 42);
    reverse_chain(&kinds, &mut data, &mut ps).unwrap();
    assert_eq!(data, block);
    assert_eq!(ps, 40);
}

#[test]
fn chain_restores_input_when_a_stage_fails() {
    let block = sample_block(40);
    let kinds = vec![TransformKind::MoveToFront, TransformKind::DeltaLeft];
    let mut data = block.clone();
    let mut ps = 30;  // some symbols are >= 30, so move-to-front rejects
    let r = transform_chain(&kinds, &mut data, &mut ps);
    assert_eq!(r.unwrap_err(), PipelineError::SymbolOutOfRange);
    assert_eq!(data, block);
    assert_eq!(ps, 30);
}

#[test]
fn chain_with_curve_stages_round_trips_in_execution() {
    let block = sample_block(40);
    let kinds = vec![TransformKind::HilbertCurve, TransformKind::MoveToFront];
    let mut data = block.clone();
    let mut ps = 40;
    transform_chain(&kinds, &mut data, &mut ps).unwrap();
    reverse_chain(&kinds, &mut data, &mut ps).unwrap();
    assert_eq!(data, block);
    assert_eq!(ps, 40);
}

#[test]
fn hilbert_order_visits_adjacent_cells() {
    // Label every cell with its flat index, permute into Hilbert order, and
    // check the defining property of the curve: consecutive positions hold
    // cells that are grid neighbours (and the order is not the flat order).
    let mut data: Vec<u32> = (0..4096).collect();
    let ramp = data.clone();
    let mut ps = 4096;
    HilbertCurve::transform(&mut data, &mut ps).unwrap();
    assert_ne!(data, ramp, "the curve order differs from the flat order");
    for j in 0..4095 {
        let a = data[j] as i32;
        let b = data[j + 1] as i32;
        let (ax, az, ay) = (a % 16, (a / 16) % 16, a / 256);
        let (bx, bz, by) = (b % 16, (b / 16) % 16, b / 256);
        let dist = (ax - bx).abs() + (ay - by).abs() + (az - bz).abs();
        assert_eq!(dist, 1, "positions {} and {} are not neighbours", j, j + 1);
    }
}
