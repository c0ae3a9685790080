// Round-trip behaviour of the full pipeline, through the real LZMA backend.

use cast::backend::{LzmaBackend, LzmaDecompressorBackend};
use cast::compressor::CASTCompressor;
use cast::container::estimate_avg_row_size;
use cast::decompressor::{
    compress_then_decompress, compress_then_decompress_archive, CASTDecompressor,
};
use cast::tokenizer::{parse_line_manual, ParsingMode};

const DICT: u32 = 1 << 20;

fn solid_roundtrip(input: &[u8]) -> Vec<u8> {
    let c = LzmaBackend::new(false, DICT);
    let d = LzmaDecompressorBackend;
    compress_then_decompress(c, d, &input.to_vec())
}

fn archive_roundtrip(input: &[u8], chunk_rows: usize) -> Vec<u8> {
    let mut comp = CASTCompressor::new(LzmaBackend::new(false, DICT));
    comp.set_chunk_size(chunk_rows);
    let archive = comp.compress_archive(&input.to_vec());
    let dec = CASTDecompressor::new(LzmaDecompressorBackend);
    dec.decompress_archive(&archive, None).expect("archive decode")
}

#[test]
fn roundtrip_empty() {
    assert_eq!(solid_roundtrip(b""), b"".to_vec());
    assert_eq!(archive_roundtrip(b"", 10), b"".to_vec());
}

#[test]
fn roundtrip_single_line() {
    let x = b"hello world 42\n";
    assert_eq!(solid_roundtrip(x), x.to_vec());
    assert_eq!(archive_roundtrip(x, 10), x.to_vec());
}

#[test]
fn roundtrip_last_line_unterminated() {
    let x = b"alpha 1\nbeta 2\ngamma 3";
    assert_eq!(solid_roundtrip(x), x.to_vec());
    assert_eq!(archive_roundtrip(x, 2), x.to_vec());
}

#[test]
fn roundtrip_latin1_bytes() {
    let mut x: Vec<u8> = Vec::new();
    for i in 0..=255u8 {
        if i != 0xEE {
            x.push(i);
        }
        if i % 16 == 15 {
            x.push(b'\n');
        }
    }
    assert_eq!(solid_roundtrip(&x), x);
    assert_eq!(archive_roundtrip(&x, 4), x);
}

#[test]
fn roundtrip_all_bytes() {
    let mut x: Vec<u8> = Vec::new();
    for i in 0..=255u8 {
        x.push(i);
        x.push(b' ');
    }
    x.push(b'\n');
    assert_eq!(solid_roundtrip(&x), x);
}

#[test]
fn roundtrip_separator_bytes_literal() {
    // The stuffing bytes 0x00, 0x01, 0x02 appearing literally in cells.
    let x = b"a=\x00 b=\x01 c=\x02 d=7\nA=\x02\x01\x00 end 9\n";
    assert_eq!(solid_roundtrip(x), x.to_vec());
    assert_eq!(archive_roundtrip(x, 1), x.to_vec());
}

#[test]
fn roundtrip_empty_lines_and_crlf() {
    let x = b"first 1\r\n\n\nsecond 2\r\n";
    assert_eq!(solid_roundtrip(x), x.to_vec());
    assert_eq!(archive_roundtrip(x, 2), x.to_vec());
}

#[test]
fn collision_placeholder_roundtrip() {
    // U+E000 in the input forces passthrough but stays lossless.
    let mut x = b"line one 1\nline ".to_vec();
    x.extend_from_slice("\u{E000}".as_bytes());
    x.extend_from_slice(b" two 2\nline three 3\n");
    assert_eq!(solid_roundtrip(&x), x);
    assert_eq!(archive_roundtrip(&x, 2), x);
}

#[test]
fn collision_separator_roundtrip() {
    let mut x = b"start 5\n".to_vec();
    x.extend_from_slice("\u{E001}".as_bytes());
    x.push(b'\n');
    assert_eq!(solid_roundtrip(&x), x);
    assert_eq!(archive_roundtrip(&x, 2), x);
}

#[test]
fn quoted_doubled_quote_roundtrip() {
    // `""` inside a quoted field stands for a literal quote.
    let x = b"field \"a\"\"b\" tail 3\n";
    assert_eq!(solid_roundtrip(x), x.to_vec());
    assert_eq!(archive_roundtrip(x, 10), x.to_vec());
}

#[test]
fn repeated_identical_lines_single_template() {
    let mut x: Vec<u8> = Vec::new();
    for _ in 0..100 {
        x.extend_from_slice(b"GET /index HTML 200\n");
    }
    let mut comp = CASTCompressor::new(LzmaBackend::new(false, DICT));
    let (c_reg, c_ids, c_vars, flag, _mode) = comp.compress(&x);
    // Exactly one template: the id stream is omitted (flag low bits 3).
    assert_eq!(flag & 0x7f, 3);
    assert!(c_reg.is_empty());
    assert!(c_ids.is_empty());
    let dec = CASTDecompressor::new(LzmaDecompressorBackend);
    let crc = crc32fast::hash(&x);
    let out = dec.decompress(&c_reg, &c_ids, &c_vars, crc, flag).expect("decode");
    assert_eq!(out, x);
}

#[test]
fn key_value_lines_few_templates() {
    let mut x: Vec<u8> = Vec::new();
    for i in 0..10000u64 {
        x.extend_from_slice(format!("user={} ts={}\n", 42 + i, 1700000001 + i).as_bytes());
    }
    let mut comp = CASTCompressor::new(LzmaBackend::new(false, DICT));
    let (_r, _i, c_vars, flag, _mode) = comp.compress(&x);
    // One skeleton covers every row.
    assert_eq!(flag & 0x7f, 3);
    assert_eq!(solid_roundtrip(&x), x);
    assert!(c_vars.len() < x.len());
}

#[test]
fn aggressive_mode_roundtrip() {
    // Highly variable words push the sampler into Aggressive mode.
    let mut x: Vec<u8> = Vec::new();
    for i in 0..500u32 {
        x.extend_from_slice(format!("evt-{:x} host{} ok\n", i * 2654435761, i % 7).as_bytes());
    }
    assert_eq!(solid_roundtrip(&x), x);
    assert_eq!(archive_roundtrip(&x, 100), x);
}

#[test]
fn multithread_backend_roundtrip() {
    let mut x: Vec<u8> = Vec::new();
    for i in 0..20000u32 {
        x.extend_from_slice(format!("payload line {} of the stream\n", i).as_bytes());
    }
    let c = LzmaBackend::new(true, 1 << 16);
    let d = LzmaDecompressorBackend;
    assert_eq!(compress_then_decompress(c, d, &x), x);
}

#[test]
fn archive_roundtrip_carrier_all_paths() {
    // The verified archive round trip, on a text stream and a binary
    // stream.
    let mut text: Vec<u8> = Vec::new();
    for i in 0..500u32 {
        text.extend_from_slice(format!("record {} ok\n", i).as_bytes());
    }
    let c = LzmaBackend::new(false, DICT);
    assert_eq!(compress_then_decompress_archive(c, LzmaDecompressorBackend, &text), text);
    let bin: Vec<u8> = (0..=255u8).cycle().take(5000).collect();
    let c2 = LzmaBackend::new(false, DICT);
    assert_eq!(compress_then_decompress_archive(c2, LzmaDecompressorBackend, &bin), bin);
}

#[test]
fn latin1_archive_is_passthrough() {
    // The archive writer routes non-UTF-8 input to passthrough groups; the
    // solid pipeline carries the per-block Latin-1 flag.
    let mut x: Vec<u8> = Vec::new();
    for i in 0..100u32 {
        x.push(0xE9);
        x.extend_from_slice(format!(" ligne {}\n", i).as_bytes());
    }
    let archive = {
        let mut comp = CASTCompressor::new(LzmaBackend::new(false, DICT));
        comp.set_chunk_size(10);
        comp.compress_archive(&x)
    };
    let (metas, _fs) = cast::container::parse_footer(&archive).expect("footer");
    for m in &metas {
        assert_eq!(m.kind, 1);
    }
    assert_eq!(archive_roundtrip(&x, 10), x);
}

#[test]
fn average_row_size_sampling() {
    assert_eq!(estimate_avg_row_size(&Vec::new()), 200);
    // Four lines of 10 bytes each.
    let x = b"123456789\n123456789\n123456789\n123456789\n".to_vec();
    assert_eq!(estimate_avg_row_size(&x), 10);
    // A single unterminated line.
    assert_eq!(estimate_avg_row_size(&b"abc".to_vec()), 3);
}

#[test]
fn parser_appends_and_keeps_buffers_on_collision() {
    let mut vars: Vec<Vec<u8>> = vec![b"seed".to_vec()];
    let mut skel: Vec<u8> = b"prefix".to_vec();
    // A collision leaves both buffers untouched.
    let bad = "x \u{E000}\n".as_bytes().to_vec();
    assert!(!parse_line_manual(&bad, ParsingMode::Strict, &mut vars, &mut skel));
    assert_eq!(vars, vec![b"seed".to_vec()]);
    assert_eq!(skel, b"prefix".to_vec());
    // Success appends after the old contents.
    let good = b"v=7\n".to_vec();
    assert!(parse_line_manual(&good, ParsingMode::Strict, &mut vars, &mut skel));
    assert_eq!(vars.len(), 2);
    assert_eq!(vars[0], b"seed".to_vec());
    assert_eq!(vars[1], b"7".to_vec());
    assert!(skel.starts_with(b"prefix"));
}
