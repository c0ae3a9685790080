//! Latin-1 handling: input that is not valid UTF-8 is read byte-as-codepoint
//! (each byte becomes the Unicode scalar of the same value), transformed as
//! text, and encoded back to the original bytes after reconstruction.

use vstd::prelude::*;

verus! {

/// Whether `b` is a UTF-8 continuation byte.
pub open spec fn is_cont(b: u8) -> bool {
    0x80 <= b <= 0xbf
}

/// Whether `s` is valid UTF-8.
pub open spec fn is_utf8(s: Seq<u8>) -> bool
    decreases s.len(),
{
    if s.len() == 0 {
        true
    } else if s[0] < 0x80 {
        is_utf8(s.skip(1))
    } else if 0xc2 <= s[0] <= 0xdf {
        s.len() >= 2 && is_cont(s[1]) && is_utf8(s.skip(2))
    } else if s[0] == 0xe0 {
        s.len() >= 3 && 0xa0 <= s[1] <= 0xbf && is_cont(s[2]) && is_utf8(s.skip(3))
    } else if (0xe1 <= s[0] <= 0xec) || s[0] == 0xee || s[0] == 0xef {
        s.len() >= 3 && is_cont(s[1]) && is_cont(s[2]) && is_utf8(s.skip(3))
    } else if s[0] == 0xed {
        s.len() >= 3 && 0x80 <= s[1] <= 0x9f && is_cont(s[2]) && is_utf8(s.skip(3))
    } else if s[0] == 0xf0 {
        s.len() >= 4 && 0x90 <= s[1] <= 0xbf && is_cont(s[2]) && is_cont(s[3]) && is_utf8(
            s.skip(4),
        )
    } else if 0xf1 <= s[0] <= 0xf3 {
        s.len() >= 4 && is_cont(s[1]) && is_cont(s[2]) && is_cont(s[3]) && is_utf8(s.skip(4))
    } else if s[0] == 0xf4 {
        s.len() >= 4 && 0x80 <= s[1] <= 0x8f && is_cont(s[2]) && is_cont(s[3]) && is_utf8(
            s.skip(4),
        )
    } else {
        false
    }
}

/// Checks whether `data` is valid UTF-8.
pub fn is_utf8_exec(data: &Vec<u8>) -> (r: bool)
    ensures
        r == is_utf8(data@),
{
    let len = data.len();
    let mut i: usize = 0;
    proof {
        assert(data@.skip(0) =~= data@);
    }
    while i < len
        invariant
            i <= len,
            len == data@.len(),
            is_utf8(data@) == is_utf8(data@.skip(i as int)),
        decreases len - i,
    {
        let ghost t = data@.skip(i as int);
        let b = data[i];
        if b < 0x80 {
            proof {
                assert(t.skip(1) =~= data@.skip(i + 1));
            }
            i = i + 1;
        } else if 0xc2 <= b && b <= 0xdf {
            if len - i < 2 || !(0x80 <= data[i + 1] && data[i + 1] <= 0xbf) {
                return false;
            }
            proof {
                assert(t.skip(2) =~= data@.skip(i + 2));
            }
            i = i + 2;
        } else if b == 0xe0 {
            if len - i < 3 || !(0xa0 <= data[i + 1] && data[i + 1] <= 0xbf) || !(0x80 <= data[i
                + 2] && data[i + 2] <= 0xbf) {
                return false;
            }
            proof {
                assert(t.skip(3) =~= data@.skip(i + 3));
            }
            i = i + 3;
        } else if (0xe1 <= b && b <= 0xec) || b == 0xee || b == 0xef {
            if len - i < 3 || !(0x80 <= data[i + 1] && data[i + 1] <= 0xbf) || !(0x80 <= data[i
                + 2] && data[i + 2] <= 0xbf) {
                return false;
            }
            proof {
                assert(t.skip(3) =~= data@.skip(i + 3));
            }
            i = i + 3;
        } else if b == 0xed {
            if len - i < 3 || !(0x80 <= data[i + 1] && data[i + 1] <= 0x9f) || !(0x80 <= data[i
                + 2] && data[i + 2] <= 0xbf) {
                return false;
            }
            proof {
                assert(t.skip(3) =~= data@.skip(i + 3));
            }
            i = i + 3;
        } else if b == 0xf0 {
            if len - i < 4 || !(0x90 <= data[i + 1] && data[i + 1] <= 0xbf) || !(0x80 <= data[i
                + 2] && data[i + 2] <= 0xbf) || !(0x80 <= data[i + 3] && data[i + 3] <= 0xbf) {
                return false;
            }
            proof {
                assert(t.skip(4) =~= data@.skip(i + 4));
            }
            i = i + 4;
        } else if 0xf1 <= b && b <= 0xf3 {
            if len - i < 4 || !(0x80 <= data[i + 1] && data[i + 1] <= 0xbf) || !(0x80 <= data[i
                + 2] && data[i + 2] <= 0xbf) || !(0x80 <= data[i + 3] && data[i + 3] <= 0xbf) {
                return false;
            }
            proof {
                assert(t.skip(4) =~= data@.skip(i + 4));
            }
            i = i + 4;
        } else if b == 0xf4 {
            if len - i < 4 || !(0x80 <= data[i + 1] && data[i + 1] <= 0x8f) || !(0x80 <= data[i
                + 2] && data[i + 2] <= 0xbf) || !(0x80 <= data[i + 3] && data[i + 3] <= 0xbf) {
                return false;
            }
            proof {
                assert(t.skip(4) =~= data@.skip(i + 4));
            }
            i = i + 4;
        } else {
            return false;
        }
    }
    proof {
        assert(data@.skip(len as int) =~= Seq::<u8>::empty());
    }
    true
}

/// The UTF-8 bytes of the codepoint with the value of one Latin-1 byte.
pub open spec fn lat_byte(b: u8) -> Seq<u8> {
    if b < 0x80 {
        seq![b]
    } else {
        seq![(0xc0 | (b >> 6)) as u8, (0x80 | (b & 0x3f)) as u8]
    }
}

/// Byte-as-codepoint decoding of a whole buffer.
pub open spec fn latin1_decode(s: Seq<u8>) -> Seq<u8>
    decreases s.len(),
{
    if s.len() == 0 {
        Seq::empty()
    } else {
        lat_byte(s[0]) + latin1_decode(s.skip(1))
    }
}

/// Encodes UTF-8 text whose codepoints all fit one byte back to those bytes.
pub open spec fn latin1_encode(s: Seq<u8>) -> Seq<u8>
    decreases s.len(),
{
    if s.len() == 0 {
        Seq::empty()
    } else if s[0] < 0x80 {
        seq![s[0]] + latin1_encode(s.skip(1))
    } else if 0xc2 <= s[0] <= 0xc3 && s.len() >= 2 {
        seq![(((s[0] & 0x03) as u8) << 6 | (s[1] & 0x3f)) as u8] + latin1_encode(s.skip(2))
    } else {
        seq![s[0]] + latin1_encode(s.skip(1))
    }
}

/// Byte-as-codepoint decoding distributes over concatenation.
pub proof fn lemma_latin1_decode_add(a: Seq<u8>, b: Seq<u8>)
    ensures
        latin1_decode(a + b) == latin1_decode(a) + latin1_decode(b),
    decreases a.len(),
{
    if a.len() == 0 {
        assert(a + b =~= b);
        assert(latin1_decode(a) + latin1_decode(b) =~= latin1_decode(b));
    } else {
        lemma_latin1_decode_add(a.skip(1), b);
        assert((a + b).skip(1) =~= a.skip(1) + b);
        assert(lat_byte(a[0]) + (latin1_decode(a.skip(1)) + latin1_decode(b)) =~= (lat_byte(
            a[0],
        ) + latin1_decode(a.skip(1))) + latin1_decode(b));
    }
}

/// Encoding reverses byte-as-codepoint decoding exactly.
pub proof fn lemma_latin1_roundtrip(s: Seq<u8>)
    ensures
        latin1_encode(latin1_decode(s)) == s,
    decreases s.len(),
{
    if s.len() == 0 {
        assert(latin1_encode(latin1_decode(s)) =~= s);
    } else {
        lemma_latin1_roundtrip(s.skip(1));
        let b = s[0];
        let d = latin1_decode(s);
        if b < 0x80 {
            assert(d =~= seq![b] + latin1_decode(s.skip(1)));
            assert(d.skip(1) =~= latin1_decode(s.skip(1)));
            assert(latin1_encode(d) =~= seq![b] + s.skip(1));
            assert(seq![b] + s.skip(1) =~= s);
        } else {
            let c0 = (0xc0 | (b >> 6)) as u8;
            let c1 = (0x80 | (b & 0x3f)) as u8;
            assert(b >= 0x80 ==> 0xc2 <= (0xc0 | (b >> 6)) && (0xc0 | (b >> 6)) <= 0xc3
                && (0x80 | (b & 0x3f)) >= 0x80 && ((((0xc0 | (b >> 6)) as u8 & 0x03) as u8) << 6
                | ((0x80 | (b & 0x3f)) as u8 & 0x3f)) == b) by (bit_vector);
            assert(d =~= seq![c0, c1] + latin1_decode(s.skip(1)));
            assert(d.skip(2) =~= latin1_decode(s.skip(1)));
            assert(!(d[0] < 0x80));
            assert(latin1_encode(d) =~= seq![b] + s.skip(1));
            assert(seq![b] + s.skip(1) =~= s);
        }
    }
}

/// Decodes a buffer byte-as-codepoint to UTF-8 text.
pub fn decode_python_latin1(data: &Vec<u8>) -> (r: Vec<u8>)
    ensures
        r@ == latin1_decode(data@),
{
    let len = data.len();
    let mut out: Vec<u8> = Vec::new();
    let mut i: usize = 0;
    proof {
        assert(latin1_decode(data@.take(0)) =~= Seq::<u8>::empty());
    }
    while i < len
        invariant
            i <= len,
            len == data@.len(),
            out@ == latin1_decode(data@.take(i as int)),
        decreases len - i,
    {
        let b = data[i];
        if b < 0x80 {
            out.push(b);
        } else {
            out.push(0xc0 | (b >> 6));
            out.push(0x80 | (b & 0x3f));
        }
        proof {
            lemma_latin1_decode_add(data@.take(i as int), seq![data@[i as int]]);
            assert(data@.take(i + 1) =~= data@.take(i as int) + seq![data@[i as int]]);
            assert(seq![data@[i as int]].skip(1) =~= Seq::<u8>::empty());
            assert(latin1_decode(Seq::<u8>::empty()) =~= Seq::<u8>::empty());
            assert(latin1_decode(seq![data@[i as int]]) =~= lat_byte(data@[i as int]));
            assert(out@ =~= latin1_decode(data@.take(i + 1)));
        }
        i = i + 1;
    }
    proof {
        assert(data@.take(len as int) =~= data@);
    }
    out
}

/// Encodes reconstructed text back to Latin-1 bytes, one byte per codepoint.
pub fn encode_back_to_latin1(utf8_data: &Vec<u8>) -> (r: Vec<u8>)
    ensures
        r@ == latin1_encode(utf8_data@),
{
    let len = utf8_data.len();
    let mut out: Vec<u8> = Vec::new();
    let mut i: usize = 0;
    proof {
        assert(utf8_data@.skip(0) =~= utf8_data@);
    }
    while i < len
        invariant
            i <= len,
            len == utf8_data@.len(),
            out@ + latin1_encode(utf8_data@.skip(i as int)) == latin1_encode(utf8_data@),
        decreases len - i,
    {
        let ghost t = utf8_data@.skip(i as int);
        let b = utf8_data[i];
        if b < 0x80 {
            proof {
                assert(t.skip(1) =~= utf8_data@.skip(i + 1));
            }
            out.push(b);
            i = i + 1;
        } else if 0xc2 <= b && b <= 0xc3 && len - i >= 2 {
            proof {
                assert(t.skip(2) =~= utf8_data@.skip(i + 2));
                assert(t[1] == utf8_data@[i + 1]);
            }
            out.push((b & 0x03) << 6 | (utf8_data[i + 1] & 0x3f));
            i = i + 2;
        } else {
            proof {
                assert(t.skip(1) =~= utf8_data@.skip(i + 1));
            }
            out.push(b);
            i = i + 1;
        }
    }
    proof {
        assert(utf8_data@.skip(len as int) =~= Seq::<u8>::empty());
        assert(out@ =~= latin1_encode(utf8_data@));
    }
    out
}

} // verus!
