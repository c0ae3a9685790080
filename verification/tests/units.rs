// Unit behaviour of the tokenizer, the registry, the remapping, the
// Latin-1 codec, the oracle, and the trusted backend wrappers.

use cast::backend::{crc32, LzmaBackend, LzmaDecompressorBackend, NativeCompressor,
    NativeDecompressor};
use cast::column::ColumnBuffer;
use cast::latin1::{decode_python_latin1, encode_back_to_latin1, is_utf8_exec};
use cast::oracle::is_likely_binary;
use cast::registry::TemplateRegistry;
use cast::serializer::remap_unified;
use cast::tokenizer::{
    count_ph_exec, is_aggr_char, is_digit, is_hex_digit, match_aggr_token, match_strict_hex,
    match_strict_number, parse_line_manual, ParsingMode,
};

#[test]
fn digit_classes() {
    assert!(is_digit(b'0') && is_digit(b'9') && !is_digit(b'a'));
    assert!(is_hex_digit(b'f') && is_hex_digit(b'A') && !is_hex_digit(b'g'));
    assert!(is_aggr_char(b'z') && is_aggr_char(b'-') && is_aggr_char(b':') && !is_aggr_char(b' '));
}

#[test]
fn strict_number_matching() {
    assert_eq!(match_strict_number(&b"-12.5x".to_vec(), 0), 5);
    assert_eq!(match_strict_number(&b"007 ".to_vec(), 0), 3);
    assert_eq!(match_strict_number(&b"x42".to_vec(), 0), 0);
    assert_eq!(match_strict_number(&b"x42".to_vec(), 1), 2);
    // A trailing dot is structural, not part of the number.
    assert_eq!(match_strict_number(&b"3.".to_vec(), 0), 1);
    assert_eq!(match_strict_number(&b"-".to_vec(), 0), 0);
}

#[test]
fn strict_hex_matching() {
    assert_eq!(match_strict_hex(&b"0xff,".to_vec(), 0), 4);
    assert_eq!(match_strict_hex(&b"0x".to_vec(), 0), 0);
    assert_eq!(match_strict_hex(&b"0xg".to_vec(), 0), 0);
    assert_eq!(match_strict_hex(&b"0xDEADBEEF".to_vec(), 0), 10);
}

#[test]
fn aggressive_token_matching() {
    assert_eq!(match_aggr_token(&b"abc-1.2:x end".to_vec(), 0), 9);
    assert_eq!(match_aggr_token(&b" lead".to_vec(), 0), 0);
}

#[test]
fn parse_extracts_quoted_content() {
    let line = b"k \"a\"\"b\" 9\n".to_vec();
    let mut vars: Vec<Vec<u8>> = Vec::new();
    let mut skel: Vec<u8> = Vec::new();
    assert!(parse_line_manual(&line, ParsingMode::Strict, &mut vars, &mut skel));
    assert_eq!(vars.len(), 2);
    // The doubled quote stays inside the extracted content.
    assert_eq!(vars[0], b"a\"\"b".to_vec());
    assert_eq!(vars[1], b"9".to_vec());
    // The skeleton keeps the quotes around one placeholder.
    let ph = "\u{E000}".as_bytes();
    let mut expected = b"k \"".to_vec();
    expected.extend_from_slice(ph);
    expected.extend_from_slice(b"\" ");
    expected.extend_from_slice(ph);
    expected.push(b'\n');
    assert_eq!(skel, expected);
    assert_eq!(count_ph_exec(&skel), 2);
}

#[test]
fn parse_rejects_reserved_codepoints() {
    let mut vars: Vec<Vec<u8>> = Vec::new();
    let mut skel: Vec<u8> = Vec::new();
    let bad = "x \u{E000} y\n".as_bytes().to_vec();
    assert!(!parse_line_manual(&bad, ParsingMode::Strict, &mut vars, &mut skel));
    let bad2 = "x \u{E001} y\n".as_bytes().to_vec();
    assert!(!parse_line_manual(&bad2, ParsingMode::Aggressive, &mut vars, &mut skel));
}

#[test]
fn column_buffer_cells() {
    let mut cb = ColumnBuffer::new();
    cb.push(&b"one".to_vec());
    cb.push(&b"".to_vec());
    cb.push(&b"three".to_vec());
    assert_eq!(cb.len(), 3);
    assert_eq!(cb.get(0), b"one".to_vec());
    assert_eq!(cb.get(1), b"".to_vec());
    assert_eq!(cb.get(2), b"three".to_vec());
    cb.clear();
    assert_eq!(cb.len(), 0);
}

#[test]
fn registry_intern_and_rows() {
    let mut reg = TemplateRegistry::new();
    let (id0, created0) = reg.intern(&"GET \u{E000}".as_bytes().to_vec());
    let (id1, created1) = reg.intern(&"PUT \u{E000}".as_bytes().to_vec());
    let (id0b, created0b) = reg.intern(&"GET \u{E000}".as_bytes().to_vec());
    assert_eq!((id0, created0), (0, true));
    assert_eq!((id1, created1), (1, true));
    assert_eq!((id0b, created0b), (0, false));
    assert_eq!(reg.num_templates(), 2);
    reg.push_row(0, &vec![b"a".to_vec()]);
    reg.push_row(0, &vec![b"b".to_vec()]);
    reg.clear();
    assert_eq!(reg.num_templates(), 0);
}

#[test]
fn remapping_orders_by_frequency() {
    // Template 1 is used three times, template 0 once: after remapping the
    // most frequent one has id 0.
    let mut reg = TemplateRegistry::new();
    let skel_rare = "rare \u{E000}".as_bytes().to_vec();
    let skel_hot = "hot \u{E000}".as_bytes().to_vec();
    let (rare, _c) = reg.intern(&skel_rare);
    reg.push_row(rare, &vec![b"1".to_vec()]);
    let (hot, _c2) = reg.intern(&skel_hot);
    reg.push_row(hot, &vec![b"2".to_vec()]);
    reg.push_row(hot, &vec![b"3".to_vec()]);
    reg.push_row(hot, &vec![b"4".to_vec()]);
    let ids: Vec<u32> = vec![0, 1, 1, 1];
    let (_reg2, ids2) = remap_unified(&reg, &ids);
    let count0 = ids2.iter().filter(|&&t| t == 0).count();
    let count1 = ids2.iter().filter(|&&t| t == 1).count();
    assert_eq!(count0, 3);
    assert_eq!(count1, 1);
    // The hot template's rows keep their positions, renumbered to 0.
    assert_eq!(ids2, vec![1, 0, 0, 0]);
}

#[test]
fn latin1_codec_restores_every_byte() {
    let mut all: Vec<u8> = (0..=255u8).collect();
    all.push(0x41);
    let decoded = decode_python_latin1(&all);
    assert!(is_utf8_exec(&decoded));
    assert_eq!(encode_back_to_latin1(&decoded), all);
}

#[test]
fn binary_guard_thresholds() {
    let text = b"plain text lines only\nwith nothing strange\n".to_vec();
    assert!(!is_likely_binary(&text));
    let mut bin: Vec<u8> = Vec::new();
    for i in 0..200u8 {
        bin.push(if i % 10 == 0 { 0x01 } else { b'a' });
    }
    assert!(is_likely_binary(&bin));
}

#[test]
fn crc32_wrapper_matches_reference_vector() {
    // The classic check value for CRC-32 (IEEE).
    assert_eq!(crc32(&b"123456789".to_vec()), 0xCBF43926);
    assert_eq!(crc32(&Vec::new()), 0);
}

#[test]
fn lzma_backend_inverts_and_compresses() {
    let mut data: Vec<u8> = Vec::new();
    for i in 0..4000u32 {
        data.extend_from_slice(format!("abcabcabc {} ", i % 3).as_bytes());
    }
    let c = LzmaBackend::new(false, 1 << 20);
    let packed = c.compress(&data);
    // A real transformation, not a copy.
    assert_ne!(packed, data);
    assert!(packed.len() < data.len());
    let d = LzmaDecompressorBackend;
    assert_eq!(d.decompress(&packed), Some(data));
    assert_eq!(d.decompress(&Vec::new()), Some(Vec::new()));
    assert_eq!(d.decompress(&vec![9u8, 9, 9]), None);
}

#[test]
fn remapping_breaks_ties_by_creation_order() {
    // Equal frequencies: the earlier-created template keeps the smaller id.
    let mut reg = TemplateRegistry::new();
    let first = "one \u{E000}".as_bytes().to_vec();
    let second = "two \u{E000}".as_bytes().to_vec();
    let (a, _) = reg.intern(&first);
    reg.push_row(a, &vec![b"1".to_vec()]);
    let (b, _) = reg.intern(&second);
    reg.push_row(b, &vec![b"2".to_vec()]);
    reg.push_row(a, &vec![b"3".to_vec()]);
    reg.push_row(b, &vec![b"4".to_vec()]);
    let ids: Vec<u32> = vec![0, 1, 0, 1];
    let (_reg2, ids2) = remap_unified(&reg, &ids);
    assert_eq!(ids2, vec![0, 1, 0, 1]);
}
