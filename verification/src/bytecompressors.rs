//! Generic byte compressors: the final, symbol-agnostic pipeline stage.
//!
//! A compressor turns the coder's output bytes into an opaque artifact and
//! back.  Three interchangeable strategies are offered: a pass-through
//! baseline, a deflate-family compressor and a dictionary-based (LZMA-family)
//! compressor, both at their maximum effort setting.  A failed decompression
//! is surfaced as [`PipelineError::CompressorFailure`], never replaced by
//! identity output.

use vstd::prelude::*;

use crate::PipelineError;

verus! {

/// The bytes that the deflate-family compressor produces, at its maximum
/// effort setting, for the given input bytes.  The compression is a pure
/// function of the input; this name stands for its result.
pub uninterp spec fn zlib_of(data: Seq<u8>) -> Seq<u8>;

/// The bytes that the LZMA-family compressor produces, at its maximum effort
/// setting, for the given input bytes.  The compression is a pure function of
/// the input; this name stands for its result.
pub uninterp spec fn xz_of(data: Seq<u8>) -> Seq<u8>;

/// What the deflate-family decompressor makes of the given bytes: the
/// decoded bytes, or nothing when it reports a format error.  A pure
/// function of the input; this name stands for its result.
pub uninterp spec fn zlib_decoded(data: Seq<u8>) -> Option<Seq<u8>>;

/// What the LZMA-family decompressor makes of the given bytes: the decoded
/// bytes, or nothing when it reports a format error.  A pure function of the
/// input; this name stands for its result.
pub uninterp spec fn xz_decoded(data: Seq<u8>) -> Option<Seq<u8>>;

/// `std::io::Error`, the error type that the underlying streaming
/// decompressors report format errors with.
#[verifier::external_type_specification]
#[verifier::external_body]
pub struct ExIoError(std::io::Error);

/// Relies on flate2's read::ZlibEncoder at Compression::best: it writes the
/// zlib encoding of its input, a pure function of the input bytes, here named
/// `zlib_of`.  Reading an in-memory slice to an owned buffer cannot fail.
#[verifier::external_body]
fn zlib_compress_raw(data: &Vec<u8>) -> (r: Vec<u8>)
    ensures
        r@ == zlib_of(data@),
{
    let mut out: Vec<u8> = Vec::new();
    let mut encoder = flate2::read::ZlibEncoder::new(&data[..], flate2::Compression::best());
    std::io::Read::read_to_end(&mut encoder, &mut out).unwrap();
    out
}

/// Relies on flate2's read::ZlibDecoder: what it decodes, or that it reports
/// a format error, is a pure function of the input bytes, here named
/// `zlib_decoded`; and zlib compression is lossless, so decoding any output
/// of the encoder succeeds and returns the encoder's exact input.
#[verifier::external_body]
fn zlib_decompress_raw(data: &Vec<u8>) -> (r: Result<Vec<u8>, std::io::Error>)
    ensures
        r is Ok <==> zlib_decoded(data@) is Some,
        r is Ok ==> r->Ok_0@ == zlib_decoded(data@)->Some_0,
        r is Ok ==> forall|s: Seq<u8>| data@ == zlib_of(s) ==> r->Ok_0@ == s,
        r is Err ==> forall|s: Seq<u8>| data@ != zlib_of(s),
{
    let mut out: Vec<u8> = Vec::new();
    let mut decoder = flate2::read::ZlibDecoder::new(&data[..]);
    match std::io::Read::read_to_end(&mut decoder, &mut out) {
        Ok(_) => Ok(out),
        Err(e) => Err(e),
    }
}

/// Relies on xz2's read::XzEncoder at preset 9: it writes the xz encoding of
/// its input, a pure function of the input bytes, here named `xz_of`.
/// Reading an in-memory slice to an owned buffer cannot fail.
#[verifier::external_body]
fn xz_compress_raw(data: &Vec<u8>) -> (r: Vec<u8>)
    ensures
        r@ == xz_of(data@),
{
    let mut out: Vec<u8> = Vec::new();
    let mut encoder = xz2::read::XzEncoder::new(&data[..], 9);
    std::io::Read::read_to_end(&mut encoder, &mut out).unwrap();
    out
}

/// Relies on xz2's read::XzDecoder: what it decodes, or that it reports a
/// format error, is a pure function of the input bytes, here named
/// `xz_decoded`; and xz compression is lossless, so decoding any output of
/// the encoder succeeds and returns the encoder's exact input.
#[verifier::external_body]
fn xz_decompress_raw(data: &Vec<u8>) -> (r: Result<Vec<u8>, std::io::Error>)
    ensures
        r is Ok <==> xz_decoded(data@) is Some,
        r is Ok ==> r->Ok_0@ == xz_decoded(data@)->Some_0,
        r is Ok ==> forall|s: Seq<u8>| data@ == xz_of(s) ==> r->Ok_0@ == s,
        r is Err ==> forall|s: Seq<u8>| data@ != xz_of(s),
{
    let mut out: Vec<u8> = Vec::new();
    let mut decoder = xz2::read::XzDecoder::new(&data[..]);
    match std::io::Read::read_to_end(&mut decoder, &mut out) {
        Ok(_) => Ok(out),
        Err(e) => Err(e),
    }
}

/// A generic, symbol-agnostic byte compressor.
///
/// `compress` appends to `dest` the compressed form of `data`, a pure
/// function of the input bytes.  `decompress` appends the original bytes
/// back: decompressing any value that `compress` produced succeeds and
/// restores the exact input.  A format error on other inputs is reported as
/// [`PipelineError::CompressorFailure`] and leaves `dest` untouched.
pub trait ByteCompressor {
    /// The compressed form of `data`.
    spec fn compressed(data: Seq<u8>) -> Seq<u8>;

    /// Whether the underlying decompressor decodes `data` at all.
    spec fn decodable(data: Seq<u8>) -> bool;

    /// What the underlying decompressor makes of a decodable `data`.
    spec fn decompressed(data: Seq<u8>) -> Seq<u8>;

    /// Append the compressed form of `data` to `dest`.
    fn compress(data: &Vec<u8>, dest: &mut Vec<u8>)
        ensures
            final(dest)@ == old(dest)@ + Self::compressed(data@),
    ;

    /// Append the decompressed form of `data` to `dest`.
    ///
    /// Succeeds exactly on the streams the decompressor decodes, and then
    /// appends exactly what it decoded: a failure is never replaced by
    /// substituted output, and success never reports anything but the
    /// decoder's own result.
    fn decompress(data: &Vec<u8>, dest: &mut Vec<u8>) -> (r: Result<(), PipelineError>)
        ensures
            r is Ok <==> Self::decodable(data@),
            r is Ok ==> final(dest)@ == old(dest)@ + Self::decompressed(data@),
            forall|s: Seq<u8>|
                data@ == Self::compressed(s) ==> r is Ok && final(dest)@ == old(dest)@ + s,
            r is Err ==> r == Err::<(), PipelineError>(PipelineError::CompressorFailure)
                && final(dest)@ == old(dest)@,
    ;
}

/// The pass-through baseline: its artifact is the input itself.
pub struct Identity;

impl ByteCompressor for Identity {
    open spec fn compressed(data: Seq<u8>) -> Seq<u8> {
        data
    }

    open spec fn decodable(data: Seq<u8>) -> bool {
        true
    }

    open spec fn decompressed(data: Seq<u8>) -> Seq<u8> {
        data
    }

    fn compress(data: &Vec<u8>, dest: &mut Vec<u8>) {
        dest.extend_from_slice(data.as_slice());
    }

    fn decompress(data: &Vec<u8>, dest: &mut Vec<u8>) -> (r: Result<(), PipelineError>) {
        dest.extend_from_slice(data.as_slice());
        Ok(())
    }
}

/// The deflate-family compressor at maximum effort.
pub struct Zlib;

impl ByteCompressor for Zlib {
    open spec fn compressed(data: Seq<u8>) -> Seq<u8> {
        zlib_of(data)
    }

    open spec fn decodable(data: Seq<u8>) -> bool {
        zlib_decoded(data) is Some
    }

    open spec fn decompressed(data: Seq<u8>) -> Seq<u8> {
        zlib_decoded(data)->Some_0
    }

    fn compress(data: &Vec<u8>, dest: &mut Vec<u8>) {
        let out = zlib_compress_raw(data);
        dest.extend_from_slice(out.as_slice());
    }

    fn decompress(data: &Vec<u8>, dest: &mut Vec<u8>) -> (r: Result<(), PipelineError>) {
        match zlib_decompress_raw(data) {
            Ok(out) => {
                dest.extend_from_slice(out.as_slice());
                Ok(())
            },
            Err(_) => Err(PipelineError::CompressorFailure),
        }
    }
}

/// The dictionary-based (LZMA-family) compressor at maximum effort.
pub struct LZMA;

impl ByteCompressor for LZMA {
    open spec fn compressed(data: Seq<u8>) -> Seq<u8> {
        xz_of(data)
    }

    open spec fn decodable(data: Seq<u8>) -> bool {
        xz_decoded(data) is Some
    }

    open spec fn decompressed(data: Seq<u8>) -> Seq<u8> {
        xz_decoded(data)->Some_0
    }

    fn compress(data: &Vec<u8>, dest: &mut Vec<u8>) {
        let out = xz_compress_raw(data);
        dest.extend_from_slice(out.as_slice());
    }

    fn decompress(data: &Vec<u8>, dest: &mut Vec<u8>) -> (r: Result<(), PipelineError>) {
        match xz_decompress_raw(data) {
            Ok(out) => {
                dest.extend_from_slice(out.as_slice());
                Ok(())
            },
            Err(_) => Err(PipelineError::CompressorFailure),
        }
    }
}

} // verus!
