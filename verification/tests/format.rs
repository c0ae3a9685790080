// The container format, the row-range reader, and the error conditions.

use cast::backend::{LzmaBackend, LzmaDecompressorBackend};
use cast::compressor::CASTCompressor;
use cast::container::parse_footer;
use cast::decompressor::CASTDecompressor;
use cast::deserializer::decode_block;
use cast::CastError;

const DICT: u32 = 1 << 20;

fn make_archive(input: &[u8], chunk_rows: usize) -> Vec<u8> {
    let mut comp = CASTCompressor::new(LzmaBackend::new(false, DICT));
    comp.set_chunk_size(chunk_rows);
    comp.compress_archive(&input.to_vec())
}

fn read_rows(archive: &[u8], a: u64, b: u64) -> Vec<u8> {
    let dec = CASTDecompressor::new(LzmaDecompressorBackend);
    dec.decompress_archive(&archive.to_vec(), Some((a, b))).expect("row read")
}

#[test]
fn row_range_inside_one_block() {
    let mut x: Vec<u8> = Vec::new();
    for i in 0..10u32 {
        x.extend_from_slice(format!("row number {}\n", i).as_bytes());
    }
    let archive = make_archive(&x, 100);
    // Rows are 0-based and the range is inclusive.
    assert_eq!(read_rows(&archive, 3, 5), b"row number 3\nrow number 4\nrow number 5\n".to_vec());
    assert_eq!(read_rows(&archive, 0, 0), b"row number 0\n".to_vec());
    assert_eq!(read_rows(&archive, 9, 9), b"row number 9\n".to_vec());
}

#[test]
fn row_range_across_blocks() {
    let mut x: Vec<u8> = Vec::new();
    let mut expected: Vec<u8> = Vec::new();
    for i in 0..10000u32 {
        let line = format!("LOG i={}\n", i + 1);
        if (5000..5100).contains(&i) {
            expected.extend_from_slice(line.as_bytes());
        }
        x.extend_from_slice(line.as_bytes());
    }
    let archive = make_archive(&x, 1000);
    let (metas, _fs) = parse_footer(&archive).expect("footer");
    assert_eq!(metas.len(), 10);
    assert_eq!(read_rows(&archive, 5000, 5099), expected);
}

#[test]
fn footer_integrity() {
    let mut x: Vec<u8> = Vec::new();
    for i in 0..50u32 {
        x.extend_from_slice(format!("entry {}\n", i).as_bytes());
    }
    let archive = make_archive(&x, 10);
    let n = archive.len();
    // The archive ends in the magic trailer.
    assert_eq!(&archive[n - 5..], &[b'C', b'A', b'S', b'T', 0x01]);
    let (metas, footer_start) = parse_footer(&archive).expect("footer");
    assert!((footer_start as usize) < n);
    assert_eq!(metas.len(), 5);
    // Entries are ordered, non-overlapping, and inside the payload.
    let mut cursor = 0u64;
    for m in &metas {
        assert_eq!(m.start_offset, cursor);
        cursor = m.start_offset + m.compressed_size;
        assert!(cursor <= footer_start);
        assert_eq!(m.kind, 0);
        assert_eq!(m.num_rows, 10);
    }
    assert_eq!(cursor, footer_start);
}

#[test]
fn binary_input_is_passthrough() {
    // A PNG-style header followed by pseudo-random bytes rich in control
    // characters.
    let mut x: Vec<u8> = vec![0x89, b'P', b'N', b'G', 0x0d, 0x0a, 0x1a, 0x0a];
    let mut state = 0x12345678u32;
    for _ in 0..2048 {
        state = state.wrapping_mul(1664525).wrapping_add(1013904223);
        x.push((state >> 24) as u8);
    }
    let archive = make_archive(&x, 10);
    let (metas, _fs) = parse_footer(&archive).expect("footer");
    assert!(!metas.is_empty());
    assert_eq!(metas[0].kind, 1);
    let dec = CASTDecompressor::new(LzmaDecompressorBackend);
    assert_eq!(dec.decompress_archive(&archive, None).expect("decode"), x);
}

#[test]
fn stray_placeholder_makes_whole_archive_passthrough() {
    let mut x: Vec<u8> = Vec::new();
    for i in 0..100u32 {
        if i == 49 {
            x.extend_from_slice("middle \u{E000} line\n".as_bytes());
        } else {
            x.extend_from_slice(format!("ordinary line {}\n", i).as_bytes());
        }
    }
    let archive = make_archive(&x, 10);
    let (metas, _fs) = parse_footer(&archive).expect("footer");
    for m in &metas {
        assert_eq!(m.kind, 1);
    }
    let dec = CASTDecompressor::new(LzmaDecompressorBackend);
    assert_eq!(dec.decompress_archive(&archive, None).expect("decode"), x);
}

#[test]
fn bad_magic_is_rejected() {
    let dec = CASTDecompressor::new(LzmaDecompressorBackend);
    assert_eq!(dec.decompress_archive(&b"hello".to_vec(), None), Err(CastError::BadMagic));
    let mut junk = vec![0u8; 20];
    junk[19] = 0x02;
    assert_eq!(dec.decompress_archive(&junk, None), Err(CastError::BadMagic));
}

#[test]
fn corrupted_footer_offset_is_rejected() {
    // A valid magic trailer whose footer offset points past the file.
    let mut junk: Vec<u8> = Vec::new();
    junk.extend_from_slice(&9999u64.to_le_bytes());
    junk.extend_from_slice(&[b'C', b'A', b'S', b'T', 0x01]);
    let dec = CASTDecompressor::new(LzmaDecompressorBackend);
    assert_eq!(dec.decompress_archive(&junk, None), Err(CastError::CorruptedFooter));
}

#[test]
fn block_framing_errors() {
    // Too short for the fixed header.
    assert_eq!(decode_block(&vec![2u8, 0, 0], 0, None), Err(CastError::BlockTooShort));
    // Registry length overruns the block.
    let mut b = vec![2u8];
    b.extend_from_slice(&100u32.to_le_bytes());
    b.extend_from_slice(&0u32.to_le_bytes());
    assert_eq!(decode_block(&b, 0, None), Err(CastError::CorruptedHeader));
    // Registry bytes that are not UTF-8.
    let mut b2 = vec![2u8];
    b2.extend_from_slice(&2u32.to_le_bytes());
    b2.extend_from_slice(&0u32.to_le_bytes());
    b2.extend_from_slice(&[0xff, 0xfe]);
    assert_eq!(decode_block(&b2, 0, None), Err(CastError::RegistryNotUtf8));
    // A two-byte id stream with an odd length.
    let mut b3 = vec![0u8];
    b3.extend_from_slice(&1u32.to_le_bytes());
    b3.extend_from_slice(&3u32.to_le_bytes());
    b3.push(b'x');
    b3.extend_from_slice(&[0, 0, 0]);
    assert_eq!(decode_block(&b3, 0, None), Err(CastError::IdStreamMisaligned));
    // An empty blob decodes to nothing.
    assert_eq!(decode_block(&Vec::new(), 0, None), Ok(Vec::new()));
}

#[test]
fn crc_mismatch_is_fatal() {
    let x = b"some stable content 123\n".to_vec();
    let mut comp = CASTCompressor::new(LzmaBackend::new(false, DICT));
    let (c_reg, c_ids, c_vars, flag, _m) = comp.compress(&x);
    let crc = crc32fast::hash(&x);
    let dec = CASTDecompressor::new(LzmaDecompressorBackend);
    assert_eq!(
        dec.decompress(&c_reg, &c_ids, &c_vars, crc ^ 1, flag),
        Err(CastError::CrcMismatch)
    );
    assert_eq!(dec.decompress(&c_reg, &c_ids, &c_vars, crc, flag), Ok(x));
}

#[test]
fn backend_failure_is_fatal() {
    let dec = CASTDecompressor::new(LzmaDecompressorBackend);
    let garbage = vec![1u8, 2, 3, 4, 5];
    assert_eq!(dec.decompress(&Vec::new(), &Vec::new(), &garbage, 0, 255),
        Err(CastError::BackendFailure));
}

#[test]
fn error_messages_name_the_fault() {
    assert_eq!(CastError::BadMagic.message(), "missing magic footer");
    assert_eq!(CastError::CrcMismatch.message(), "crc check failed");
}
