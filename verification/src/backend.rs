//! The entropy backend: a pair of pure `compress`/`decompress` operations.
//! The backend here is LZMA2 in an XZ stream (preset 9 extreme, CRC32
//! check).  Verified code sees it only through the `NativeCompressor` and
//! `NativeDecompressor` traits, whose single promise is losslessness: what
//! `compress` returns, the matching decoder turns back into the input.

use vstd::prelude::*;
use std::io::Read;
use std::io::Write;

verus! {

/// What decoding an XZ stream yields: a function of the stream bytes alone
/// (`None` when they are not a well-formed stream).
pub uninterp spec fn xz_inflate(c: Seq<u8>) -> Option<Seq<u8>>;

/// The CRC-32 (IEEE) checksum of a byte sequence.
pub uninterp spec fn crc32_of(d: Seq<u8>) -> u32;

/// Relies on crc32fast::hash: the CRC-32 (IEEE) of the bytes, a function of
/// the bytes alone.
#[verifier::external_body]
pub fn crc32(data: &Vec<u8>) -> (r: u32)
    ensures
        r == crc32_of(data@),
{
    crc32fast::hash(data.as_slice())
}

/// Relies on num_cpus::get, which returns at least 1.
#[verifier::external_body]
fn cpu_count() -> (r: usize)
    ensures
        r >= 1,
{
    num_cpus::get()
}

/// Relies on xz2's single-threaded stream encoder: the output is an XZ
/// stream (hence non-empty) that decodes back to the input.  liblzma
/// rejects dictionaries below 4 KiB or above 1.5 GiB, so those are ruled
/// out here.
#[verifier::external_body]
fn xz_compress_once(data: &Vec<u8>, dict_size: u32) -> (r: Vec<u8>)
    requires
        4096 <= dict_size <= 0x60000000,
    ensures
        xz_inflate(r@) == Some(data@),
        r@.len() > 0,
{
    let mut opts = xz2::stream::LzmaOptions::new_preset(9 | 0x80000000).expect("lzma preset");
    opts.dict_size(dict_size);
    let mut filters = xz2::stream::Filters::new();
    filters.lzma2(&opts);
    let stream = xz2::stream::Stream::new_stream_encoder(&filters, xz2::stream::Check::Crc32)
        .expect("lzma init");
    let mut enc = xz2::write::XzEncoder::new_stream(Vec::new(), stream);
    enc.write_all(data).expect("lzma write");
    enc.finish().expect("lzma finish")
}

/// Relies on xz2's multi-threaded stream encoder: the output is an XZ
/// stream (hence non-empty) that decodes back to the input.  liblzma
/// rejects dictionaries below 4 KiB or above 1.5 GiB and thread counts of
/// zero or beyond its fixed maximum, so those are ruled out here.
#[verifier::external_body]
fn xz_compress_multi(data: &Vec<u8>, dict_size: u32, threads: u32) -> (r: Vec<u8>)
    requires
        4096 <= dict_size <= 0x60000000,
        1 <= threads <= 16384,
    ensures
        xz_inflate(r@) == Some(data@),
        r@.len() > 0,
{
    let mut opts = xz2::stream::LzmaOptions::new_preset(9 | 0x80000000).expect("lzma preset");
    opts.dict_size(dict_size);
    let mut filters = xz2::stream::Filters::new();
    filters.lzma2(&opts);
    let stream = xz2::stream::MtStreamBuilder::new().threads(threads).filters(filters).check(
        xz2::stream::Check::Crc32,
    ).encoder().expect("lzma mt init");
    let mut enc = xz2::write::XzEncoder::new_stream(Vec::new(), stream);
    enc.write_all(data).expect("lzma mt write");
    enc.finish().expect("lzma mt finish")
}

/// Relies on xz2's stream decoder: decoding is a function of the stream
/// bytes alone; a malformed stream is an error, never a wrong answer.
#[verifier::external_body]
fn xz_decompress_raw(data: &Vec<u8>) -> (r: Option<Vec<u8>>)
    ensures
        match r {
            Some(v) => xz_inflate(data@) == Some(v@),
            None => xz_inflate(data@) is None,
        },
{
    let mut dec = xz2::read::XzDecoder::new(data.as_slice());
    let cap = std::cmp::min(data.len().saturating_mul(6), 2 * 1024 * 1024 * 1024);
    let mut out = Vec::with_capacity(cap);
    match dec.read_to_end(&mut out) {
        Ok(_) => Some(out),
        Err(_) => None,
    }
}

/// A backend compressor.  `inflate` is the decoding function that its
/// decompressor side computes; `compress` must produce bytes that decode to
/// the input.
pub trait NativeCompressor {
    spec fn inflate(&self, c: Seq<u8>) -> Option<Seq<u8>>;

    fn compress(&self, data: &Vec<u8>) -> (r: Vec<u8>)
        ensures
            self.inflate(r@) == Some(data@),
    ;
}

/// A backend decompressor computing its `inflate` function; empty input
/// yields empty output.
pub trait NativeDecompressor {
    spec fn inflate(&self, c: Seq<u8>) -> Option<Seq<u8>>;

    fn decompress(&self, data: &Vec<u8>) -> (r: Option<Vec<u8>>)
        ensures
            match r {
                Some(v) => self.inflate(data@) == Some(v@),
                None => self.inflate(data@) is None,
            },
    ;
}

/// The decoding function of the LZMA backend pair: empty bytes stand for an
/// empty payload, anything else is an XZ stream.
pub open spec fn lzma_model(c: Seq<u8>) -> Option<Seq<u8>> {
    if c.len() == 0 {
        Some(Seq::<u8>::empty())
    } else {
        xz_inflate(c)
    }
}

/// The in-process LZMA compressor backend.
pub struct LzmaBackend {
    pub multithread: bool,
    pub dict_size: u32,
}

impl LzmaBackend {
    pub fn new(multithread: bool, dict_size: u32) -> (r: LzmaBackend)
        ensures
            r == (LzmaBackend { multithread, dict_size }),
    {
        LzmaBackend { multithread, dict_size }
    }
}

impl NativeCompressor for LzmaBackend {
    open spec fn inflate(&self, c: Seq<u8>) -> Option<Seq<u8>> {
        lzma_model(c)
    }

    fn compress(&self, data: &Vec<u8>) -> (r: Vec<u8>) {
        if data.len() == 0 {
            let r: Vec<u8> = Vec::new();
            proof {
                assert(data@ =~= Seq::<u8>::empty());
                assert(r@ =~= Seq::<u8>::empty());
            }
            return r;
        }
        // The encoder accepts dictionaries of 4 KiB up to 1.5 GiB only;
        // anything outside is clamped rather than rejected.
        let dict = if self.dict_size < 4096 {
            4096
        } else if self.dict_size > 0x60000000 {
            0x60000000
        } else {
            self.dict_size
        };
        // Multi-threading pays off only when the data exceeds one dictionary.
        let effective_multithread = if self.multithread && (data.len() as u64) < (
        dict as u64) {
            false
        } else {
            self.multithread
        };
        if !effective_multithread {
            xz_compress_once(data, dict)
        } else {
            let threads = cpu_count();
            let t32 = if threads > 16384 {
                16384u32
            } else {
                threads as u32
            };
            xz_compress_multi(data, dict, t32)
        }
    }
}

/// The in-process LZMA decompressor backend.
pub struct LzmaDecompressorBackend;

impl NativeDecompressor for LzmaDecompressorBackend {
    open spec fn inflate(&self, c: Seq<u8>) -> Option<Seq<u8>> {
        lzma_model(c)
    }

    fn decompress(&self, data: &Vec<u8>) -> (r: Option<Vec<u8>>) {
        if data.len() == 0 {
            let out: Vec<u8> = Vec::new();
            proof {
                assert(data@ =~= Seq::<u8>::empty());
                assert(out@ =~= Seq::<u8>::empty());
            }
            return Some(out);
        }
        xz_decompress_raw(data)
    }
}

/// A compressor and a decompressor that compute the same decoding function,
/// so that what one writes the other reads back.
pub open spec fn matched_backends<C: NativeCompressor, D: NativeDecompressor>(
    c: &C,
    d: &D,
) -> bool {
    forall|s: Seq<u8>| #[trigger] c.inflate(s) == d.inflate(s)
}

} // verus!
