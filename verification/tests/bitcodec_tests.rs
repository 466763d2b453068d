use blockpack::bitcodec::PackedIntegerArrayIter;
use blockpack::bitcodec::PackingConvention;
use blockpack::bitcodec::pack;
use blockpack::bitcodec::unpack;
use blockpack::PipelineError;

fn ramp_block() -> Vec<u32> {
    let mut data = Vec::new();
    for i in 0..4096u32 {
        data.push(i % 16);
    }
    data
}

#[test]
fn ramp_at_width_four_fills_exactly_256_words() {
    // 4096 symbols at 4 bits are 16 per word: 256 words, no padding waste.
    let data = ramp_block();
    let padded = pack(&data, 4, PackingConvention::Padded);
    assert_eq!(padded.len(), 256);
    let dense = pack(&data, 4, PackingConvention::Dense);
    assert_eq!(dense.len(), 256);
    // The two conventions agree when the width divides 64 evenly.
    assert_eq!(padded, dense);
}

#[test]
fn pack_unpack_round_trip_all_widths_padded() {
    for width in 4..=32u8 {
        let mut data = Vec::new();
        for i in 0..4096u64 {
            data.push(((i * 2654435761) % (1u64 << width)) as u32);
        }
        let words = pack(&data, width, PackingConvention::Padded);
        let back = unpack(&words, width, PackingConvention::Padded, 4096).unwrap();
        assert_eq!(back, data, "padded round trip at width {}", width);
    }
}

#[test]
fn pack_unpack_round_trip_all_widths_dense() {
    for width in 4..=32u8 {
        let mut data = Vec::new();
        for i in 0..4096u64 {
            data.push(((i * 0x9e3779b9) % (1u64 << width)) as u32);
        }
        let words = pack(&data, width, PackingConvention::Dense);
        let back = unpack(&words, width, PackingConvention::Dense, 4096).unwrap();
        assert_eq!(back, data, "dense round trip at width {}", width);
    }
}

#[test]
fn dense_uses_fewer_words_when_width_does_not_divide() {
    let data = vec![5u32; 4096];
    let padded = pack(&data, 5, PackingConvention::Padded);
    let dense = pack(&data, 5, PackingConvention::Dense);
    // 12 five-bit fields per padded word; contiguous bits when dense.
    assert_eq!(padded.len(), (4096 + 11) / 12);
    assert_eq!(dense.len(), (4096 * 5 + 63) / 64);
    assert!(dense.len() < padded.len());
}

#[test]
fn unpack_reports_underflow_on_short_stream() {
    let data = ramp_block();
    let mut words = pack(&data, 4, PackingConvention::Padded);
    words.pop();
    let r = unpack(&words, 4, PackingConvention::Padded, 4096);
    assert_eq!(r.unwrap_err(), PipelineError::UnderflowOnDecode);
}

#[test]
fn iterator_reads_fields_in_order() {
    // One word at 4 bits holds 16 fields, least-significant first.
    let word: i64 = 0x0fedcba987654321u64 as i64;
    let mut it = PackedIntegerArrayIter::new(vec![word], 4);
    let mut got = Vec::new();
    while let Some(v) = it.next() {
        got.push(v);
    }
    assert_eq!(
        got,
        vec![1, 2, 3, 4, 5, 6, 7, 8, 9, 10, 11, 12, 13, 14, 15, 0]
    );
}

#[test]
fn iterator_skips_word_padding() {
    // At 5 bits only 12 fields fit; the top 4 bits of each word are padding.
    let mut fields = Vec::new();
    for i in 0..24u64 {
        fields.push((i % 32) as u32);
    }
    let words_u64 = pack(&fields, 5, PackingConvention::Padded);
    let words: Vec<i64> = words_u64.iter().map(|w| *w as i64).collect();
    let mut it = PackedIntegerArrayIter::new(words, 5);
    for i in 0..24u32 {
        assert_eq!(it.next(), Some(i % 32));
    }
    assert_eq!(it.next(), None);
}

#[test]
fn iterator_matches_unpack() {
    let data = ramp_block();
    let words_u64 = pack(&data, 13, PackingConvention::Padded);
    let unpacked = unpack(&words_u64, 13, PackingConvention::Padded, 4096).unwrap();
    let words: Vec<i64> = words_u64.iter().map(|w| *w as i64).collect();
    let mut it = PackedIntegerArrayIter::new(words, 13);
    for v in unpacked {
        assert_eq!(it.next(), Some(v));
    }
}

#[test]
fn bit_width_has_floor_four_and_covers_palette() {
    assert_eq!(blockpack::bit_width(1), 4);
    assert_eq!(blockpack::bit_width(2), 4);
    assert_eq!(blockpack::bit_width(16), 4);
    assert_eq!(blockpack::bit_width(17), 5);
    assert_eq!(blockpack::bit_width(32), 5);
    assert_eq!(blockpack::bit_width(33), 6);
    assert_eq!(blockpack::bit_width(256), 8);
    assert_eq!(blockpack::bit_width(257), 9);
    assert_eq!(blockpack::bit_width(0x8000_0000), 31);
}

#[test]
fn try_new_rejects_invalid_bit_widths() {
    match PackedIntegerArrayIter::try_new(vec![0i64], 0) {
        Err(e) => assert_eq!(e, PipelineError::InvalidBitWidth),
        Ok(_) => panic!("width 0 accepted"),
    }
    match PackedIntegerArrayIter::try_new(vec![0i64], 33) {
        Err(e) => assert_eq!(e, PipelineError::InvalidBitWidth),
        Ok(_) => panic!("width 33 accepted"),
    }
    match PackedIntegerArrayIter::try_new(vec![0x21i64], 4) {
        Ok(mut it) => {
            assert_eq!(it.next(), Some(1));
            assert_eq!(it.next(), Some(2));
        }
        Err(_) => panic!("width 4 rejected"),
    }
}
