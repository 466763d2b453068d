use blockpack::PipelineError;
use blockpack::bitcodec::PackingConvention;
use blockpack::bitcodec::pack;
use blockpack::bytecompressors::ByteCompressor;
use blockpack::bytecompressors::Identity as IdentityCompressor;
use blockpack::bytecompressors::LZMA;
use blockpack::bytecompressors::Zlib;
use blockpack::integercoders::ArithmeticCoding;
use blockpack::integercoders::Bytewise;
use blockpack::integercoders::IntegerCoder;
use blockpack::integertransformers::Identity;
use blockpack::integertransformers::MoveToFront;
use blockpack::integertransformers::MoveToFrontLookbehind;
use blockpack::integertransformers::ZOrderCurve;
use blockpack::pipeline::compress_block;
use blockpack::pipeline::process_block;
use blockpack::pipeline::round_trip_block;

fn sample_block(palette_size: u32) -> Vec<u32> {
    let mut data = Vec::new();
    for i in 0..4096u64 {
        data.push(((i * 31 + i / 5) % palette_size as u64) as u32);
    }
    data
}

#[test]
fn bytewise_coding_round_trips() {
    let data = sample_block(200);
    let mut encoded = Vec::new();
    Bytewise::encode(&data, &mut encoded, 200);
    assert_eq!(encoded.len(), 4096);
    let mut decoded = Vec::new();
    Bytewise::decode(&encoded, &mut decoded, 200).unwrap();
    assert_eq!(decoded, data);
}

#[test]
fn bytewise_decode_reads_first_block_and_ignores_the_rest() {
    let mut bytes: Vec<u8> = (0..4096u32).map(|i| (i % 200) as u8).collect();
    bytes.extend_from_slice(&[0xFF; 10]);
    let mut decoded = Vec::new();
    Bytewise::decode(&bytes, &mut decoded, 200).unwrap();
    assert_eq!(decoded.len(), 4096);
    for i in 0..4096usize {
        assert_eq!(decoded[i], (i as u32) % 200);
    }
}

#[test]
fn bytewise_decode_reports_underflow() {
    let short = vec![0u8; 4095];
    let mut decoded = Vec::new();
    let r = Bytewise::decode(&short, &mut decoded, 200);
    assert_eq!(r.unwrap_err(), PipelineError::UnderflowOnDecode);
}

#[test]
fn arithmetic_coding_round_trips() {
    for palette_size in [2u32, 3, 16, 40, 257, 4096] {
        let data = sample_block(palette_size);
        let mut encoded = Vec::new();
        ArithmeticCoding::encode(&data, &mut encoded, palette_size);
        let mut decoded = Vec::new();
        ArithmeticCoding::decode(&encoded, &mut decoded, palette_size).unwrap();
        assert_eq!(decoded, data, "palette size {}", palette_size);
    }
}

#[test]
fn arithmetic_coding_of_certain_symbols_is_near_minimal() {
    // 4096 copies of value 0 at palette size 2: every symbol is nearly
    // certain, so the stream stays within a few bytes of flush overhead.
    let data = vec![0u32; 4096];
    let mut encoded = Vec::new();
    ArithmeticCoding::encode(&data, &mut encoded, 2);
    assert!(encoded.len() <= 16, "got {} bytes", encoded.len());
    let mut decoded = Vec::new();
    ArithmeticCoding::decode(&encoded, &mut decoded, 2).unwrap();
    assert_eq!(decoded, data);
}

#[test]
fn identity_compressor_passes_bytes_through() {
    let bytes: Vec<u8> = (0..=255u8).collect();
    let mut out = Vec::new();
    IdentityCompressor::compress(&bytes, &mut out);
    assert_eq!(out, bytes);
    let mut back = Vec::new();
    IdentityCompressor::decompress(&out, &mut back).unwrap();
    assert_eq!(back, bytes);
}

#[test]
fn zlib_compressor_round_trips() {
    let bytes: Vec<u8> = (0..8192u32).map(|i| (i % 7) as u8).collect();
    let mut compressed = Vec::new();
    Zlib::compress(&bytes, &mut compressed);
    assert!(compressed.len() < bytes.len());
    let mut back = Vec::new();
    Zlib::decompress(&compressed, &mut back).unwrap();
    assert_eq!(back, bytes);
}

#[test]
fn zlib_decompress_reports_failure_on_garbage() {
    let garbage = vec![0xA5u8; 64];
    let mut back = Vec::new();
    let r = Zlib::decompress(&garbage, &mut back);
    assert_eq!(r.unwrap_err(), PipelineError::CompressorFailure);
    assert!(back.is_empty(), "a failed decompression writes nothing");
}

#[test]
fn xz_compressor_round_trips() {
    let bytes: Vec<u8> = (0..8192u32).map(|i| (i % 11) as u8).collect();
    let mut compressed = Vec::new();
    LZMA::compress(&bytes, &mut compressed);
    let mut back = Vec::new();
    LZMA::decompress(&compressed, &mut back).unwrap();
    assert_eq!(back, bytes);
}

#[test]
fn xz_decompress_reports_failure_on_garbage() {
    let garbage = vec![0x5Au8; 64];
    let mut back = Vec::new();
    let r = LZMA::decompress(&garbage, &mut back);
    assert_eq!(r.unwrap_err(), PipelineError::CompressorFailure);
}

#[test]
fn bytewise_identity_artifact_is_always_4096_bytes() {
    // The fixed reference point: content-independent size.
    for palette_size in [2u32, 100, 256] {
        let blocks = [sample_block(palette_size), vec![0u32; 4096]];
        for data in &blocks {
            let out = compress_block::<Identity, Bytewise, IdentityCompressor>(
                data,
                palette_size,
            )
            .unwrap();
            assert_eq!(out.len(), 4096);
        }
    }
}

#[test]
fn compress_block_rejects_out_of_range_symbols() {
    let mut data = vec![0u32; 4096];
    data[99] = 7;
    let r = compress_block::<Identity, Bytewise, IdentityCompressor>(&data, 7);
    assert_eq!(r.unwrap_err(), PipelineError::SymbolOutOfRange);
}

#[test]
fn round_trip_gate_passes_for_every_combination() {
    let data = sample_block(40);
    round_trip_block::<Identity, ArithmeticCoding, IdentityCompressor>(&data, 40).unwrap();
    round_trip_block::<Identity, ArithmeticCoding, Zlib>(&data, 40).unwrap();
    round_trip_block::<Identity, ArithmeticCoding, LZMA>(&data, 40).unwrap();
    round_trip_block::<Identity, Bytewise, IdentityCompressor>(&data, 40).unwrap();
    round_trip_block::<Identity, Bytewise, Zlib>(&data, 40).unwrap();
    round_trip_block::<MoveToFront, ArithmeticCoding, Zlib>(&data, 40).unwrap();
    round_trip_block::<MoveToFront, Bytewise, IdentityCompressor>(&data, 40).unwrap();
    round_trip_block::<MoveToFront, Bytewise, LZMA>(&data, 40).unwrap();
    round_trip_block::<MoveToFrontLookbehind, ArithmeticCoding, Zlib>(&data, 40).unwrap();
    round_trip_block::<MoveToFrontLookbehind, Bytewise, IdentityCompressor>(&data, 40).unwrap();
    round_trip_block::<ZOrderCurve, ArithmeticCoding, Zlib>(&data, 40).unwrap();
    round_trip_block::<ZOrderCurve, Bytewise, IdentityCompressor>(&data, 40).unwrap();
}

#[test]
fn process_block_skips_trivial_sections() {
    let words = vec![0u64; 256];
    let r = process_block::<Identity, Bytewise, IdentityCompressor>(&words, 1).unwrap();
    assert!(r.is_none());
    let r = process_block::<Identity, Bytewise, IdentityCompressor>(&words, 0).unwrap();
    assert!(r.is_none());
}

#[test]
fn process_block_runs_the_pipeline_on_packed_words() {
    let data = sample_block(16);
    let words = pack(&data, 4, PackingConvention::Padded);
    let out = process_block::<Identity, Bytewise, IdentityCompressor>(&words, 16)
        .unwrap()
        .unwrap();
    let expected: Vec<u8> = data.iter().map(|&v| v as u8).collect();
    assert_eq!(out, expected);
}

#[test]
fn process_block_reports_underflow_on_short_streams() {
    let words = vec![0u64; 100];
    let r = process_block::<Identity, Bytewise, IdentityCompressor>(&words, 16);
    assert_eq!(r.unwrap_err(), PipelineError::UnderflowOnDecode);
}

#[test]
fn process_block_reports_symbols_beyond_the_palette() {
    let data = vec![9u32; 4096];
    let words = pack(&data, 4, PackingConvention::Padded);
    let r = process_block::<Identity, Bytewise, IdentityCompressor>(&words, 8);
    assert_eq!(r.unwrap_err(), PipelineError::SymbolOutOfRange);
}

#[test]
fn transformed_blocks_compress_better_on_repetitive_input() {
    // A sanity check of the design intent: move-to-front turns local
    // repetition into small ranks, which the entropy coder exploits.
    let mut data = Vec::new();
    for i in 0..4096u64 {
        data.push(((i / 64) % 40) as u32);
    }
    let plain = compress_block::<Identity, ArithmeticCoding, IdentityCompressor>(&data, 40)
        .unwrap();
    let mtf = compress_block::<MoveToFront, ArithmeticCoding, IdentityCompressor>(&data, 40)
        .unwrap();
    assert!(mtf.len() <= plain.len());
}
