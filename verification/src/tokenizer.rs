//! The line tokenizer: splits one line into a skeleton and its variable
//! tokens, replacing each token by the placeholder codepoint `U+E000`
//! (`0xEE 0x80 0x80` in UTF-8).  The registry separator `U+E001`
//! (`0xEE 0x80 0x81`) and the placeholder itself are reserved: a line that
//! contains either one is rejected and the caller falls back to passthrough.

use vstd::prelude::*;

verus! {

/// The UTF-8 bytes of the in-line variable placeholder `U+E000`.
pub open spec fn ph() -> Seq<u8> {
    seq![0xEEu8, 0x80u8, 0x80u8]
}

/// The UTF-8 bytes of the registry separator `U+E001`.
pub open spec fn rsep() -> Seq<u8> {
    seq![0xEEu8, 0x80u8, 0x81u8]
}

/// Whether `n` occurs as a contiguous subsequence of `h`.
pub open spec fn contains_seq(h: Seq<u8>, n: Seq<u8>) -> bool {
    exists|i: int|
        0 <= i && i + n.len() <= h.len() && #[trigger] h.subrange(i, i + n.len() as int) == n
}

/// Number of placeholders in a skeleton, scanning left to right.
pub open spec fn count_ph(s: Seq<u8>) -> nat
    decreases s.len(),
{
    if s.len() >= 3 && s.subrange(0, 3) == ph() {
        1 + count_ph(s.skip(3))
    } else if s.len() > 0 {
        count_ph(s.skip(1))
    } else {
        0
    }
}

/// Rebuilds a line from a skeleton and its cells: every placeholder is
/// replaced by the next cell, all other skeleton bytes are kept.
pub open spec fn recon(skel: Seq<u8>, cells: Seq<Seq<u8>>) -> Seq<u8>
    decreases skel.len(),
{
    if skel.len() >= 3 && skel.subrange(0, 3) == ph() {
        (if cells.len() > 0 {
            cells[0]
        } else {
            Seq::empty()
        }) + recon(skel.skip(3), cells.skip(1))
    } else if skel.len() > 0 {
        seq![skel[0]] + recon(skel.skip(1), cells)
    } else {
        Seq::empty()
    }
}

/// The views of a vector of byte vectors.
pub open spec fn views_of(vs: Seq<Vec<u8>>) -> Seq<Seq<u8>> {
    vs.map_values(|v: Vec<u8>| v@)
}

/// Appending one byte to a skeleton whose placeholders are exhausted appends
/// that byte to the reconstruction, provided it does not complete a spurious
/// placeholder at the junction.
pub proof fn lemma_recon_snoc_byte(s: Seq<u8>, cells: Seq<Seq<u8>>, b: u8)
    requires
        count_ph(s) == cells.len(),
        b == 0x80 ==> !(s.len() >= 2 && s[s.len() - 2] == 0xEE && s[s.len() - 1] == 0x80),
    ensures
        recon(s + seq![b], cells) == recon(s, cells) + seq![b],
        count_ph(s + seq![b]) == count_ph(s),
    decreases s.len(),
{
    let sb = s + seq![b];
    if s.len() == 0 {
        assert(sb =~= seq![b]);
        assert(sb.skip(1) =~= Seq::<u8>::empty());
        assert(recon(Seq::<u8>::empty(), cells) =~= Seq::<u8>::empty());
        assert(count_ph(Seq::<u8>::empty()) == 0);
        assert(recon(sb, cells) =~= seq![b]);
        assert(recon(s, cells) + seq![b] =~= seq![b]);
    } else if s.len() >= 3 && s.subrange(0, 3) == ph() {
        assert(sb.len() >= 3 && sb.subrange(0, 3) =~= s.subrange(0, 3));
        assert(sb.skip(3) =~= s.skip(3) + seq![b]);
        if s.len() >= 5 {
            assert(s.skip(3)[s.skip(3).len() - 2] == s[s.len() - 2] && s.skip(3)[s.skip(
                3,
            ).len() - 1] == s[s.len() - 1]);
        }
        lemma_recon_snoc_byte(s.skip(3), cells.skip(1), b);
        assert(recon(sb, cells) =~= recon(s, cells) + seq![b]);
    } else {
        assert(!(s.len() >= 3 && s.subrange(0, 3) == ph()));
        if sb.len() >= 3 && sb.subrange(0, 3) == ph() {
            if s.len() >= 3 {
                assert(s.subrange(0, 3) =~= sb.subrange(0, 3));
                assert(false);
            } else {
                assert(s.len() == 2);
                assert(sb.subrange(0, 3)[0] == s[0] && sb.subrange(0, 3)[1] == s[1]
                    && sb.subrange(0, 3)[2] == b);
                assert(false);
            }
        }
        assert(sb.skip(1) =~= s.skip(1) + seq![b]);
        if s.len() >= 3 {
            assert(s.skip(1)[s.skip(1).len() - 2] == s[s.len() - 2] && s.skip(1)[s.skip(
                1,
            ).len() - 1] == s[s.len() - 1]);
        }
        lemma_recon_snoc_byte(s.skip(1), cells, b);
        assert(recon(sb, cells) =~= recon(s, cells) + seq![b]);
    }
}

/// Appending a placeholder and its cell appends the cell's bytes to the
/// reconstruction.
pub proof fn lemma_recon_snoc_ph(s: Seq<u8>, cells: Seq<Seq<u8>>, v: Seq<u8>)
    requires
        count_ph(s) == cells.len(),
    ensures
        recon(s + ph(), cells.push(v)) == recon(s, cells) + v,
        count_ph(s + ph()) == cells.len() + 1,
    decreases s.len(),
{
    let sp = s + ph();
    if s.len() == 0 {
        assert(sp =~= ph());
        assert(sp.subrange(0, 3) =~= ph());
        assert(sp.skip(3) =~= Seq::<u8>::empty());
        assert(recon(Seq::<u8>::empty(), cells.push(v).skip(1)) =~= Seq::<u8>::empty());
        assert(count_ph(Seq::<u8>::empty()) == 0);
        assert(cells.push(v)[0] == v);
        assert(recon(sp, cells.push(v)) =~= v);
        assert(recon(s, cells) + v =~= v);
    } else if s.len() >= 3 && s.subrange(0, 3) == ph() {
        assert(sp.len() >= 3 && sp.subrange(0, 3) =~= s.subrange(0, 3));
        assert(sp.skip(3) =~= s.skip(3) + ph());
        assert(cells.push(v).skip(1) =~= cells.skip(1).push(v));
        assert(cells.push(v)[0] == cells[0]);
        lemma_recon_snoc_ph(s.skip(3), cells.skip(1), v);
        assert(recon(sp, cells.push(v)) =~= recon(s, cells) + v);
    } else {
        // A placeholder cannot straddle the junction: its first byte is not
        // equal to either of its continuation bytes.
        if sp.len() >= 3 && sp.subrange(0, 3) == ph() {
            if s.len() >= 3 {
                assert(s.subrange(0, 3) =~= sp.subrange(0, 3));
                assert(false);
            } else if s.len() == 2 {
                assert(sp.subrange(0, 3)[2] == 0xEE);
                assert(false);
            } else {
                assert(sp.subrange(0, 3)[1] == 0xEE);
                assert(false);
            }
        }
        assert(sp.skip(1) =~= s.skip(1) + ph());
        lemma_recon_snoc_ph(s.skip(1), cells, v);
        assert(recon(sp, cells.push(v)) =~= recon(s, cells) + v);
    }
}

/// Appending a byte other than a completed separator tail keeps a skeleton
/// free of the registry separator.
pub proof fn lemma_no_rsep_snoc(s: Seq<u8>, b: u8)
    requires
        !contains_seq(s, rsep()),
        b == 0x81 ==> !(s.len() >= 2 && s[s.len() - 2] == 0xEE && s[s.len() - 1] == 0x80),
    ensures
        !contains_seq(s + seq![b], rsep()),
{
    let sb = s + seq![b];
    if contains_seq(sb, rsep()) {
        let j = choose|j: int| 0 <= j && j + 3 <= sb.len() && #[trigger] sb.subrange(j, j + 3) == rsep();
        if j + 3 <= s.len() {
            assert(s.subrange(j, j + 3) =~= sb.subrange(j, j + 3));
            assert(contains_seq(s, rsep()));
        } else {
            assert(j == s.len() - 2);
            assert(sb.subrange(j, j + 3)[0] == s[s.len() - 2]);
            assert(sb.subrange(j, j + 3)[1] == s[s.len() - 1]);
            assert(sb.subrange(j, j + 3)[2] == b);
        }
    }
}

/// Appending the placeholder bytes keeps a skeleton free of the registry
/// separator.
pub proof fn lemma_no_rsep_append_ph(s: Seq<u8>)
    requires
        !contains_seq(s, rsep()),
    ensures
        !contains_seq(s + ph(), rsep()),
{
    let sp = s + ph();
    if contains_seq(sp, rsep()) {
        let j = choose|j: int| 0 <= j && j + 3 <= sp.len() && #[trigger] sp.subrange(j, j + 3) == rsep();
        if j + 3 <= s.len() {
            assert(s.subrange(j, j + 3) =~= sp.subrange(j, j + 3));
            assert(contains_seq(s, rsep()));
        } else {
            // The window ends inside the appended placeholder, whose bytes
            // never provide the final 0x81.
            assert(sp.subrange(j, j + 3)[2] == sp[j + 2]);
            assert(sp[j + 2] == 0xEE || sp[j + 2] == 0x80);
        }
    }
}

/// The parsing mode: Strict extracts numbers and hex literals only,
/// Aggressive extracts maximal identifier-like runs.
#[derive(Clone, Copy, PartialEq, Eq, Structural, Debug)]
pub enum ParsingMode {
    Strict,
    Aggressive,
}

/// Whether `b` is an ASCII decimal digit.
pub open spec fn is_digit_spec(b: u8) -> bool {
    0x30 <= b <= 0x39
}

/// Whether `b` is an ASCII hexadecimal digit.
pub open spec fn is_hex_digit_spec(b: u8) -> bool {
    (0x30 <= b <= 0x39) || (0x61 <= b <= 0x66) || (0x41 <= b <= 0x46)
}

/// Whether `b` may appear in an Aggressive-mode token: `[A-Za-z0-9_.\-:]`.
pub open spec fn is_aggr_char_spec(b: u8) -> bool {
    (0x61 <= b <= 0x7a) || (0x41 <= b <= 0x5a) || (0x30 <= b <= 0x39) || b == 0x5f || b == 0x2e
        || b == 0x2d || b == 0x3a
}

pub fn is_digit(b: u8) -> (r: bool)
    ensures
        r == is_digit_spec(b),
{
    b >= 0x30 && b <= 0x39
}

pub fn is_hex_digit(b: u8) -> (r: bool)
    ensures
        r == is_hex_digit_spec(b),
{
    (b >= 0x30 && b <= 0x39) || (b >= 0x61 && b <= 0x66) || (b >= 0x41 && b <= 0x46)
}

pub fn is_aggr_char(b: u8) -> (r: bool)
    ensures
        r == is_aggr_char_spec(b),
{
    (b >= 0x61 && b <= 0x7a) || (b >= 0x41 && b <= 0x5a) || (b >= 0x30 && b <= 0x39) || b == 0x5f
        || b == 0x2e || b == 0x2d || b == 0x3a
}

/// End of the run of decimal digits from `i`.
pub open spec fn digit_run_end(s: Seq<u8>, i: int) -> int
    decreases s.len() - i,
{
    if 0 <= i && i < s.len() && is_digit_spec(s[i]) {
        digit_run_end(s, i + 1)
    } else {
        i
    }
}

/// End of the run of hexadecimal digits from `i`.
pub open spec fn hex_run_end(s: Seq<u8>, i: int) -> int
    decreases s.len() - i,
{
    if 0 <= i && i < s.len() && is_hex_digit_spec(s[i]) {
        hex_run_end(s, i + 1)
    } else {
        i
    }
}

/// End of the run of Aggressive-token bytes from `i`.
pub open spec fn aggr_run_end(s: Seq<u8>, i: int) -> int
    decreases s.len() - i,
{
    if 0 <= i && i < s.len() && is_aggr_char_spec(s[i]) {
        aggr_run_end(s, i + 1)
    } else {
        i
    }
}

/// Length of the Strict-mode decimal token at `start`: optional sign, at
/// least one digit, then an optional fractional part.
pub open spec fn strict_number_len(s: Seq<u8>, start: int) -> int {
    let p = if start < s.len() && s[start] == 0x2d {
        start + 1
    } else {
        start
    };
    if p < s.len() && is_digit_spec(s[p]) {
        let q = digit_run_end(s, p);
        if q + 1 < s.len() && s[q] == 0x2e && is_digit_spec(s[q + 1]) {
            digit_run_end(s, q + 2) - start
        } else {
            q - start
        }
    } else {
        0
    }
}

/// Length of the Strict-mode hex token at `start`: `0x` plus at least one
/// hexadecimal digit.
pub open spec fn strict_hex_len(s: Seq<u8>, start: int) -> int {
    if start + 3 <= s.len() && s[start] == 0x30 && s[start + 1] == 0x78 && is_hex_digit_spec(
        s[start + 2],
    ) {
        hex_run_end(s, start + 3) - start
    } else {
        0
    }
}

/// Length of the Aggressive-mode token at `start`.
pub open spec fn aggr_token_len(s: Seq<u8>, start: int) -> int {
    aggr_run_end(s, start) - start
}

proof fn lemma_run_end_bounds(s: Seq<u8>, i: int)
    requires
        0 <= i <= s.len(),
    ensures
        i <= digit_run_end(s, i) <= s.len(),
        i <= hex_run_end(s, i) <= s.len(),
        i <= aggr_run_end(s, i) <= s.len(),
    decreases s.len() - i,
{
    if i < s.len() {
        lemma_run_end_bounds(s, i + 1);
    }
}

/// Matches the Strict decimal grammar at position `from`.
pub fn match_strict_number(line: &Vec<u8>, from: usize) -> (r: usize)
    requires
        from <= line@.len(),
    ensures
        r == strict_number_len(line@, from as int),
        from + r <= line@.len(),
{
    let len = line.len();
    let mut i = from;
    if i < len && line[i] == 0x2d {
        i = i + 1;
    }
    if i >= len || !is_digit(line[i]) {
        return 0;
    }
    while i < len && is_digit(line[i])
        invariant
            from <= i <= len,
            len == line@.len(),
            digit_run_end(line@, i as int) == digit_run_end(
                line@,
                if from < len && line@[from as int] == 0x2d {
                    from + 1
                } else {
                    from as int
                },
            ),
        decreases len - i,
    {
        i = i + 1;
    }
    if len - i > 1 && line[i] == 0x2e {
        if is_digit(line[i + 1]) {
            i = i + 2;
            while i < len && is_digit(line[i])
                invariant
                    from <= i <= len,
                    len == line@.len(),
                    digit_run_end(line@, i as int) == strict_number_len(line@, from as int)
                        + from,
                decreases len - i,
            {
                i = i + 1;
            }
        }
    }
    i - from
}

/// Matches the Strict hex grammar at position `from`.
pub fn match_strict_hex(line: &Vec<u8>, from: usize) -> (r: usize)
    requires
        from <= line@.len(),
    ensures
        r == strict_hex_len(line@, from as int),
        from + r <= line@.len(),
{
    let len = line.len();
    if len - from < 3 {
        return 0;
    }
    if line[from] == 0x30 && line[from + 1] == 0x78 && is_hex_digit(line[from + 2]) {
        let mut i = from + 3;
        while i < len && is_hex_digit(line[i])
            invariant
                from + 3 <= i <= len,
                len == line@.len(),
                hex_run_end(line@, i as int) == hex_run_end(line@, from + 3),
            decreases len - i,
        {
            i = i + 1;
        }
        i - from
    } else {
        0
    }
}

/// Matches the maximal Aggressive token at position `from`.
pub fn match_aggr_token(line: &Vec<u8>, from: usize) -> (r: usize)
    requires
        from <= line@.len(),
    ensures
        r == aggr_token_len(line@, from as int),
        from + r <= line@.len(),
{
    let len = line.len();
    let mut i = from;
    while i < len && is_aggr_char(line[i])
        invariant
            from <= i <= len,
            len == line@.len(),
            aggr_run_end(line@, i as int) == aggr_run_end(line@, from as int),
        decreases len - i,
    {
        i = i + 1;
    }
    i - from
}

/// Whether the three bytes `p0 p1 p2` occur contiguously in `line`.
pub fn contains_three(line: &Vec<u8>, p0: u8, p1: u8, p2: u8) -> (r: bool)
    ensures
        r == contains_seq(line@, seq![p0, p1, p2]),
{
    let len = line.len();
    if len < 3 {
        proof {
            if contains_seq(line@, seq![p0, p1, p2]) {
                let j = choose|j: int|
                    0 <= j && j + 3 <= line@.len() && #[trigger] line@.subrange(j, j + 3) == seq![p0, p1, p2];
                assert(false);
            }
        }
        return false;
    }
    let mut i: usize = 0;
    while i <= len - 3
        invariant
            3 <= len == line@.len(),
            i <= len - 2,
            forall|j: int| 0 <= j < i ==> #[trigger] line@.subrange(j, j + 3) != seq![p0, p1, p2],
        decreases len - i,
    {
        if line[i] == p0 && line[i + 1] == p1 && line[i + 2] == p2 {
            proof {
                assert(line@.subrange(i as int, i + 3) =~= seq![p0, p1, p2]);
            }
            return true;
        }
        proof {
            if line@.subrange(i as int, i + 3) == seq![p0, p1, p2] {
                assert(line@.subrange(i as int, i + 3)[0] == line@[i as int]);
                assert(line@.subrange(i as int, i + 3)[1] == line@[i + 1]);
                assert(line@.subrange(i as int, i + 3)[2] == line@[i + 2]);
                assert(false);
            }
        }
        i = i + 1;
    }
    proof {
        if contains_seq(line@, seq![p0, p1, p2]) {
            let j = choose|j: int|
                0 <= j && j + 3 <= line@.len() && #[trigger] line@.subrange(j, j + 3) == seq![p0, p1, p2];
            assert(j < i);
        }
    }
    false
}

/// Appends the placeholder bytes to a skeleton.
fn push_ph(skel: &mut Vec<u8>)
    ensures
        final(skel)@ == old(skel)@ + ph(),
{
    skel.push(0xEE);
    skel.push(0x80);
    skel.push(0x80);
    assert(skel@ =~= old(skel)@ + ph());
}

/// The quoted-token scan of `s` from offset `k` past the `"` at `from`:
/// `""` stands for a literal quote, `\` makes the next byte insignificant,
/// and the token's whole length is returned when the quote closes.
pub open spec fn quote_scan(s: Seq<u8>, from: int, k: int) -> Option<int>
    decreases s.len() - from - k + 2,
{
    if k < 1 || from < 0 || k >= s.len() - from {
        None
    } else if s[from + k] == 0x22 {
        if k + 1 < s.len() - from && s[from + k + 1] == 0x22 {
            quote_scan(s, from, k + 2)
        } else {
            Some(k + 1)
        }
    } else if s[from + k] == 0x5c {
        if s.len() - from - k > 2 {
            quote_scan(s, from, k + 2)
        } else {
            None
        }
    } else {
        quote_scan(s, from, k + 1)
    }
}

/// The length of the quoted token at `from`, both quotes included, if the
/// quote closes.
pub open spec fn quote_len(s: Seq<u8>, from: int) -> Option<int> {
    quote_scan(s, from, 1)
}

/// A closing scan ends on a quote inside the sequence.
pub proof fn lemma_quote_scan_bounds(s: Seq<u8>, from: int, k: int)
    requires
        1 <= k,
        0 <= from,
        quote_scan(s, from, k) is Some,
    ensures
        k + 1 <= quote_scan(s, from, k).unwrap(),
        from + quote_scan(s, from, k).unwrap() <= s.len(),
        s[from + quote_scan(s, from, k).unwrap() - 1] == 0x22,
    decreases s.len() - from - k + 2,
{
    if k >= s.len() - from {
    } else if s[from + k] == 0x22 {
        if k + 1 < s.len() - from && s[from + k + 1] == 0x22 {
            lemma_quote_scan_bounds(s, from, k + 2);
        }
    } else if s[from + k] == 0x5c {
        if s.len() - from - k > 2 {
            lemma_quote_scan_bounds(s, from, k + 2);
        }
    } else {
        lemma_quote_scan_bounds(s, from, k + 1);
    }
}

/// The length of the variable token the mode matches at `i`: in Strict
/// mode a hexadecimal and then a decimal literal, in Aggressive mode the
/// maximal identifier run.
pub open spec fn tok_match_len(s: Seq<u8>, mode: ParsingMode, i: int) -> int {
    if mode == ParsingMode::Aggressive {
        aggr_token_len(s, i)
    } else {
        if strict_hex_len(s, i) > 0 {
            strict_hex_len(s, i)
        } else {
            strict_number_len(s, i)
        }
    }
}

/// Whether the tokenizer takes a whole quoted token at position `i`.
pub open spec fn tok_quoted(s: Seq<u8>, i: int) -> bool {
    &&& 0 <= i < s.len()
    &&& s[i] == 0x22
    &&& quote_len(s, i) is Some
    &&& 2 <= quote_len(s, i).unwrap()
    &&& i + quote_len(s, i).unwrap() <= s.len()
}

/// The skeleton the tokenizer builds from position `i` of `s` on: a quoted
/// token leaves its quotes around one placeholder, a matched token one
/// placeholder, and every other byte stands for itself.
pub open spec fn tok_skel(s: Seq<u8>, mode: ParsingMode, i: int) -> Seq<u8>
    decreases s.len() - i,
{
    if i < 0 || i >= s.len() {
        Seq::empty()
    } else if tok_quoted(s, i) {
        seq![0x22u8] + ph() + seq![0x22u8] + tok_skel(s, mode, i + quote_len(s, i).unwrap())
    } else {
        let m = tok_match_len(s, mode, i);
        if 0 < m && i + m <= s.len() {
            ph() + tok_skel(s, mode, i + m)
        } else {
            seq![s[i]] + tok_skel(s, mode, i + 1)
        }
    }
}

/// The variable cells the tokenizer extracts from position `i` of `s` on,
/// one per placeholder of `tok_skel`: a quoted token's content without its
/// outer quotes, or a matched token's bytes.
pub open spec fn tok_vars(s: Seq<u8>, mode: ParsingMode, i: int) -> Seq<Seq<u8>>
    decreases s.len() - i,
{
    if i < 0 || i >= s.len() {
        Seq::empty()
    } else if tok_quoted(s, i) {
        seq![s.subrange(i + 1, i + quote_len(s, i).unwrap() - 1)] + tok_vars(
            s,
            mode,
            i + quote_len(s, i).unwrap(),
        )
    } else {
        let m = tok_match_len(s, mode, i);
        if 0 < m && i + m <= s.len() {
            seq![s.subrange(i, i + m)] + tok_vars(s, mode, i + m)
        } else {
            tok_vars(s, mode, i + 1)
        }
    }
}

/// Scans a quoted string starting at the `"` at `from`.  Returns the length
/// of the quoted token (both quotes included) or `None` if it never closes.
/// Inside the quotes, `""` stands for a literal quote and `\` makes the next
/// byte insignificant.
fn scan_quoted(line: &Vec<u8>, from: usize) -> (r: Option<usize>)
    requires
        from < line@.len(),
        line@[from as int] == 0x22,
    ensures
        match r {
            Some(l) => 2 <= l && from + l <= line@.len() && line@[from + l - 1] == 0x22
                && quote_len(line@, from as int) == Some(l as int),
            None => quote_len(line@, from as int) is None,
        },
{
    let len = line.len();
    let mut k: usize = 1;
    loop
        invariant
            1 <= k,
            k <= len - from + 1,
            from < len,
            len == line@.len(),
            quote_scan(line@, from as int, k as int) == quote_len(line@, from as int),
        decreases len - from + 2 - k,
    {
        if k >= len - from {
            return None;
        }
        let curr = line[from + k];
        if curr == 0x22 {
            if k + 1 < len - from && line[from + k + 1] == 0x22 {
                k = k + 2;
            } else {
                proof {
                    lemma_quote_scan_bounds(line@, from as int, k as int);
                }
                return Some(k + 1);
            }
        } else if curr == 0x5c {
            if len - from - k > 2 {
                k = k + 2;
            } else {
                return None;
            }
        } else {
            k = k + 1;
        }
    }
}

/// Parses one line into fresh buffers; the factorisation core behind
/// `parse_line_manual`.
#[verifier::rlimit(100)]
#[verifier::spinoff_prover]
fn parse_line_fresh(
    line: &Vec<u8>,
    mode: ParsingMode,
    buffer_vars: &mut Vec<Vec<u8>>,
    buffer_skel: &mut Vec<u8>,
) -> (ok: bool)
    ensures
        ok == (!contains_seq(line@, ph()) && !contains_seq(line@, rsep())),
        ok ==> recon(final(buffer_skel)@, views_of(final(buffer_vars)@)) == line@,
        ok ==> count_ph(final(buffer_skel)@) == final(buffer_vars)@.len(),
        ok ==> !contains_seq(final(buffer_skel)@, rsep()),
        ok ==> final(buffer_skel)@ == tok_skel(line@, mode, 0),
        ok ==> views_of(final(buffer_vars)@) == tok_vars(line@, mode, 0),
{
    buffer_vars.clear();
    buffer_skel.clear();
    if contains_three(line, 0xEE, 0x80, 0x80) || contains_three(line, 0xEE, 0x80, 0x81) {
        return false;
    }
    let len = line.len();
    let mut i: usize = 0;
    // Length of the run of structural line bytes most recently copied to the
    // end of the skeleton; it rules out spurious placeholder or separator
    // matches at the junction when one more structural byte is pushed.
    let ghost mut run: int = 0;
    proof {
        if contains_seq(buffer_skel@, rsep()) {
            let j = choose|j: int|
                0 <= j && j + 3 <= buffer_skel@.len() && #[trigger] buffer_skel@.subrange(j, j + 3)
                    == rsep();
            assert(false);
        }
        assert(buffer_skel@ + tok_skel(line@, mode, 0) =~= tok_skel(line@, mode, 0));
        assert(views_of(buffer_vars@) + tok_vars(line@, mode, 0) =~= tok_vars(line@, mode, 0));
    }
    while i < len
        invariant
            i <= len,
            len == line@.len(),
            !contains_seq(line@, ph()),
            !contains_seq(line@, rsep()),
            recon(buffer_skel@, views_of(buffer_vars@)) == line@.take(i as int),
            count_ph(buffer_skel@) == buffer_vars@.len(),
            !contains_seq(buffer_skel@, rsep()),
            0 <= run <= i,
            run >= 2 ==> buffer_skel@.len() >= 2 && buffer_skel@[buffer_skel@.len() - 2]
                == line@[i - 2] && buffer_skel@[buffer_skel@.len() - 1] == line@[i - 1],
            run == 1 ==> buffer_skel@.len() >= 1 && buffer_skel@[buffer_skel@.len() - 1]
                == line@[i - 1] && (buffer_skel@.len() >= 2 ==> buffer_skel@[buffer_skel@.len()
                - 2] == 0x80 || buffer_skel@[buffer_skel@.len() - 2] == 0x22),
            run == 0 ==> buffer_skel@.len() == 0 || buffer_skel@[buffer_skel@.len() - 1] == 0x22
                || (buffer_skel@.len() >= 3 && buffer_skel@.subrange(
                buffer_skel@.len() - 3,
                buffer_skel@.len() as int,
            ) == ph()),
            tok_skel(line@, mode, 0) == buffer_skel@ + tok_skel(line@, mode, i as int),
            tok_vars(line@, mode, 0) == views_of(buffer_vars@) + tok_vars(
                line@,
                mode,
                i as int,
            ),
        decreases len - i,
    {
        let b = line[i];
        let mut quoted_len: usize = 0;
        if b == 0x22 {
            match scan_quoted(line, i) {
                Some(l) => {
                    quoted_len = l;
                },
                None => {},
            }
        }
        if quoted_len > 0 {
            // `"content"` becomes a variable holding the content, with the
            // quotes kept structural around one placeholder.
            let mut content: Vec<u8> = Vec::new();
            let mut j = i + 1;
            while j < i + quoted_len - 1
                invariant
                    i + 1 <= j <= i + quoted_len - 1,
                    2 <= quoted_len,
                    i + quoted_len <= len,
                    len == line@.len(),
                    content@ == line@.subrange(i + 1, j as int),
                decreases i + quoted_len - 1 - j,
            {
                content.push(line[j]);
                assert(content@ =~= line@.subrange(i + 1, j + 1));
                j = j + 1;
            }
            let ghost sk0 = buffer_skel@;
            let ghost cs0 = views_of(buffer_vars@);
            let ghost cv = content@;
            proof {
                lemma_recon_snoc_byte(sk0, cs0, 0x22);
                lemma_recon_snoc_ph(sk0 + seq![0x22u8], cs0, cv);
                lemma_recon_snoc_byte((sk0 + seq![0x22u8]) + ph(), cs0.push(cv), 0x22);
                lemma_no_rsep_snoc(sk0, 0x22);
                lemma_no_rsep_append_ph(sk0 + seq![0x22u8]);
                lemma_no_rsep_snoc((sk0 + seq![0x22u8]) + ph(), 0x22);
            }
            buffer_skel.push(0x22);
            push_ph(buffer_skel);
            buffer_skel.push(0x22);
            buffer_vars.push(content);
            proof {
                assert(views_of(buffer_vars@) =~= cs0.push(cv));
                assert(buffer_skel@ =~= (((sk0 + seq![0x22u8]) + ph()) + seq![0x22u8]));
                assert(line@.take((i + quoted_len) as int) =~= ((line@.take(i as int) + seq![
                    0x22u8,
                ]) + cv) + seq![0x22u8]) by {
                    assert(cv == line@.subrange(i + 1, i + quoted_len - 1));
                    assert(line@[i as int] == 0x22);
                    assert(line@[i + quoted_len - 1] == 0x22);
                }
                assert(recon(buffer_skel@, views_of(buffer_vars@)) == line@.take(
                    (i + quoted_len) as int,
                ));
                assert(tok_quoted(line@, i as int));
                assert(quote_len(line@, i as int).unwrap() == quoted_len as int);
                assert(tok_skel(line@, mode, i as int) == seq![0x22u8] + ph() + seq![0x22u8]
                    + tok_skel(line@, mode, (i + quoted_len) as int));
                assert(tok_vars(line@, mode, i as int) == seq![cv] + tok_vars(
                    line@,
                    mode,
                    (i + quoted_len) as int,
                ));
                assert(tok_skel(line@, mode, 0) =~= buffer_skel@ + tok_skel(
                    line@,
                    mode,
                    (i + quoted_len) as int,
                ));
                assert(tok_vars(line@, mode, 0) =~= views_of(buffer_vars@) + tok_vars(
                    line@,
                    mode,
                    (i + quoted_len) as int,
                ));
            }
            i = i + quoted_len;
            proof {
                run = 0;
            }
        } else {
            let mut matched_len: usize = 0;
            if mode == ParsingMode::Aggressive {
                if is_aggr_char(b) {
                    matched_len = match_aggr_token(line, i);
                }
            } else {
                matched_len = match_strict_hex(line, i);
                if matched_len == 0 {
                    matched_len = match_strict_number(line, i);
                }
            }
            proof {
                if mode == ParsingMode::Aggressive && !is_aggr_char_spec(line@[i as int]) {
                    assert(aggr_run_end(line@, i as int) == i);
                }
                assert(tok_match_len(line@, mode, i as int) == matched_len as int);
                assert(!tok_quoted(line@, i as int));
            }
            if matched_len > 0 {
                let mut token: Vec<u8> = Vec::new();
                let mut j = i;
                while j < i + matched_len
                    invariant
                        i <= j <= i + matched_len,
                        i + matched_len <= len,
                        len == line@.len(),
                        token@ == line@.subrange(i as int, j as int),
                    decreases i + matched_len - j,
                {
                    token.push(line[j]);
                    assert(token@ =~= line@.subrange(i as int, j + 1));
                    j = j + 1;
                }
                let ghost sk0 = buffer_skel@;
                let ghost cs0 = views_of(buffer_vars@);
                let ghost tv = token@;
                proof {
                    lemma_recon_snoc_ph(sk0, cs0, tv);
                    lemma_no_rsep_append_ph(sk0);
                }
                push_ph(buffer_skel);
                buffer_vars.push(token);
                proof {
                    assert(views_of(buffer_vars@) =~= cs0.push(tv));
                    assert(buffer_skel@ =~= sk0 + ph());
                    assert(line@.take((i + matched_len) as int) =~= line@.take(i as int) + tv);
                    assert(recon(buffer_skel@, views_of(buffer_vars@)) == line@.take(
                        (i + matched_len) as int,
                    ));
                    assert(tok_skel(line@, mode, i as int) == ph() + tok_skel(
                        line@,
                        mode,
                        (i + matched_len) as int,
                    ));
                    assert(tok_vars(line@, mode, i as int) == seq![tv] + tok_vars(
                        line@,
                        mode,
                        (i + matched_len) as int,
                    ));
                    assert(tok_skel(line@, mode, 0) =~= buffer_skel@ + tok_skel(
                        line@,
                        mode,
                        (i + matched_len) as int,
                    ));
                    assert(tok_vars(line@, mode, 0) =~= views_of(buffer_vars@) + tok_vars(
                        line@,
                        mode,
                        (i + matched_len) as int,
                    ));
                }
                i = i + matched_len;
                proof {
                    run = 0;
                }
            } else {
                let ghost sk0 = buffer_skel@;
                proof {
                    if (b == 0x80 || b == 0x81) && sk0.len() >= 2 && sk0[sk0.len() - 2] == 0xEE
                        && sk0[sk0.len() - 1] == 0x80 {
                        if run >= 2 {
                            assert(line@.subrange(i - 2, i - 2 + 3) =~= seq![
                                0xEEu8,
                                0x80u8,
                                b,
                            ]);
                            if b == 0x80 {
                                assert(contains_seq(line@, ph()));
                            } else {
                                assert(contains_seq(line@, rsep()));
                            }
                            assert(false);
                        } else if run == 1 {
                            assert(false);
                        } else {
                            assert(sk0.subrange(sk0.len() - 3, sk0.len() as int)[1] == 0x80);
                            assert(sk0.subrange(sk0.len() - 3, sk0.len() as int)[1] == sk0[
                                sk0.len() - 2]);
                            assert(false);
                        }
                    }
                    lemma_recon_snoc_byte(sk0, views_of(buffer_vars@), b);
                    lemma_no_rsep_snoc(sk0, b);
                }
                buffer_skel.push(b);
                proof {
                    assert(buffer_skel@ =~= sk0 + seq![b]);
                    assert(line@.take(i + 1) =~= line@.take(i as int) + seq![b]);
                    assert(tok_skel(line@, mode, i as int) == seq![b] + tok_skel(
                        line@,
                        mode,
                        i + 1,
                    ));
                    assert(tok_vars(line@, mode, i as int) == tok_vars(line@, mode, i + 1));
                    assert(tok_skel(line@, mode, 0) =~= buffer_skel@ + tok_skel(
                        line@,
                        mode,
                        i + 1,
                    ));
                    assert(tok_vars(line@, mode, 0) =~= views_of(buffer_vars@) + tok_vars(
                        line@,
                        mode,
                        i + 1,
                    ));
                }
                i = i + 1;
                proof {
                    run = run + 1;
                }
            }
        }
    }
    proof {
        assert(line@.take(len as int) =~= line@);
        assert(tok_skel(line@, mode, len as int) == Seq::<u8>::empty());
        assert(tok_vars(line@, mode, len as int) == Seq::<Seq<u8>>::empty());
        assert(buffer_skel@ =~= buffer_skel@ + tok_skel(line@, mode, len as int));
        assert(views_of(buffer_vars@) =~= views_of(buffer_vars@) + tok_vars(
            line@,
            mode,
            len as int,
        ));
    }
    true
}

/// Splits one line into its skeleton and variables, appending to the
/// caller's buffers.
///
/// Returns `false` exactly when the line contains one of the reserved
/// placeholder byte sequences — the buffers are then left untouched and
/// the caller must fall back to passthrough.  On success the buffers'
/// old contents are kept as a prefix, and what was appended is a lossless
/// factorisation of the line: reconstructing the appended skeleton with the
/// appended variables yields the line again, that skeleton holds one
/// placeholder per appended variable, and it is free of the registry
/// separator.
#[verifier::loop_isolation(false)]
pub fn parse_line_manual(
    line: &Vec<u8>,
    mode: ParsingMode,
    buffer_vars: &mut Vec<Vec<u8>>,
    buffer_skel: &mut Vec<u8>,
) -> (ok: bool)
    ensures
        ok == (!contains_seq(line@, ph()) && !contains_seq(line@, rsep())),
        !ok ==> *final(buffer_vars) == *old(buffer_vars) && *final(buffer_skel)
            == *old(buffer_skel),
        ok ==> final(buffer_skel)@.len() >= old(buffer_skel)@.len()
            && final(buffer_skel)@.take(old(buffer_skel)@.len() as int) == old(buffer_skel)@,
        ok ==> final(buffer_vars)@.len() >= old(buffer_vars)@.len() && (forall|k: int|
            0 <= k < old(buffer_vars)@.len() ==> final(buffer_vars)@[k]
                == old(buffer_vars)@[k]),
        ok ==> recon(
            final(buffer_skel)@.skip(old(buffer_skel)@.len() as int),
            views_of(final(buffer_vars)@.skip(old(buffer_vars)@.len() as int)),
        ) == line@,
        ok ==> count_ph(final(buffer_skel)@.skip(old(buffer_skel)@.len() as int))
            == final(buffer_vars)@.len() - old(buffer_vars)@.len(),
        ok ==> !contains_seq(
            final(buffer_skel)@.skip(old(buffer_skel)@.len() as int),
            rsep(),
        ),
        ok ==> final(buffer_skel)@.skip(old(buffer_skel)@.len() as int) == tok_skel(
            line@,
            mode,
            0,
        ),
        ok ==> views_of(final(buffer_vars)@.skip(old(buffer_vars)@.len() as int)) == tok_vars(
            line@,
            mode,
            0,
        ),
{
    let mut vars2: Vec<Vec<u8>> = Vec::new();
    let mut skel2: Vec<u8> = Vec::new();
    if !parse_line_fresh(line, mode, &mut vars2, &mut skel2) {
        return false;
    }
    let ghost old_skel = buffer_skel@;
    let ghost old_vars = buffer_vars@;
    crate::serializer::append_vec(buffer_skel, &skel2);
    let vn = vars2.len();
    let mut j: usize = 0;
    while j < vn
        invariant
            j <= vn,
            vn == vars2@.len(),
            buffer_vars@.len() == old_vars.len() + j,
            forall|k: int| 0 <= k < old_vars.len() ==> buffer_vars@[k] == old_vars[k],
            forall|k: int|
                0 <= k < j ==> (#[trigger] buffer_vars@[old_vars.len() + k])@ == vars2@[k]@,
        decreases vn - j,
    {
        let cell = crate::deserializer::copy_range(&vars2[j], 0, vars2[j].len());
        buffer_vars.push(cell);
        j = j + 1;
    }
    proof {
        assert(buffer_skel@.take(old_skel.len() as int) =~= old_skel);
        assert(buffer_skel@.skip(old_skel.len() as int) =~= skel2@);
        assert forall|k: int| 0 <= k < vars2@.len() implies #[trigger] views_of(
            buffer_vars@.skip(old_vars.len() as int),
        )[k] == views_of(vars2@)[k] by {
            assert(buffer_vars@.skip(old_vars.len() as int)[k] == buffer_vars@[old_vars.len()
                + k]);
        }
        assert(views_of(buffer_vars@.skip(old_vars.len() as int)) =~= views_of(vars2@));
    }
    true
}

/// Appends the reconstruction of one row to `out`: skeleton bytes verbatim,
/// each placeholder replaced by the next cell.
pub fn emit_row(out: &mut Vec<u8>, skel: &Vec<u8>, cells: &Vec<Vec<u8>>)
    requires
        count_ph(skel@) == cells@.len(),
    ensures
        final(out)@ == old(out)@ + recon(skel@, views_of(cells@)),
{
    let len = skel.len();
    let mut i: usize = 0;
    let mut c: usize = 0;
    proof {
        assert(skel@.skip(0) =~= skel@);
        assert(views_of(cells@).skip(0) =~= views_of(cells@));
    }
    while i < len
        invariant
            i <= len,
            c <= cells@.len(),
            len == skel@.len(),
            count_ph(skel@.skip(i as int)) == cells@.len() - c,
            out@ + recon(skel@.skip(i as int), views_of(cells@).skip(c as int)) == old(out)@
                + recon(skel@, views_of(cells@)),
        decreases len - i,
    {
        if len - i >= 3 && skel[i] == 0xEE && skel[i + 1] == 0x80 && skel[i + 2] == 0x80 {
            proof {
                assert(skel@.skip(i as int).subrange(0, 3) =~= ph());
                assert(skel@.skip(i as int).skip(3) =~= skel@.skip(i + 3));
                assert(count_ph(skel@.skip(i as int)) >= 1);
                assert(views_of(cells@).skip(c as int)[0] == cells@[c as int]@);
                assert(views_of(cells@).skip(c as int).skip(1) =~= views_of(cells@).skip(c + 1));
            }
            let cell = &cells[c];
            let clen = cell.len();
            let mut j: usize = 0;
            let ghost out_before = out@;
            while j < clen
                invariant
                    j <= clen,
                    c < cells@.len(),
                    clen == cells@[c as int]@.len(),
                    cell@ == cells@[c as int]@,
                    out@ == out_before + cells@[c as int]@.take(j as int),
                decreases clen - j,
            {
                let bb = cell[j];
                out.push(bb);
                assert(out@ =~= out_before + cells@[c as int]@.take(j + 1));
                j = j + 1;
            }
            proof {
                assert(cells@[c as int]@.take(clen as int) =~= cells@[c as int]@);
            }
            let tot = cells.len();
            assert(c < tot);
            c = c + 1;
            i = i + 3;
        } else {
            proof {
                let t = skel@.skip(i as int);
                if t.len() >= 3 && t.subrange(0, 3) == ph() {
                    assert(t.subrange(0, 3)[0] == skel@[i as int]);
                    assert(t.subrange(0, 3)[1] == skel@[i + 1]);
                    assert(t.subrange(0, 3)[2] == skel@[i + 2]);
                    assert(false);
                }
                assert(t.skip(1) =~= skel@.skip(i + 1));
            }
            out.push(skel[i]);
            i = i + 1;
        }
    }
    proof {
        assert(skel@.skip(len as int) =~= Seq::<u8>::empty());
        assert(out@ =~= old(out)@ + recon(skel@, views_of(cells@)));
    }
}

/// Counts the placeholders of a skeleton.
pub fn count_ph_exec(skel: &Vec<u8>) -> (r: usize)
    ensures
        r == count_ph(skel@),
{
    let len = skel.len();
    let mut i: usize = 0;
    let mut c: usize = 0;
    proof {
        assert(skel@.skip(0) =~= skel@);
    }
    while i < len
        invariant
            i <= len,
            len == skel@.len(),
            c + count_ph(skel@.skip(i as int)) == count_ph(skel@),
            c <= i,
        decreases len - i,
    {
        if len - i >= 3 && skel[i] == 0xEE && skel[i + 1] == 0x80 && skel[i + 2] == 0x80 {
            proof {
                assert(skel@.skip(i as int).subrange(0, 3) =~= ph());
                assert(skel@.skip(i as int).skip(3) =~= skel@.skip(i + 3));
            }
            c = c + 1;
            i = i + 3;
        } else {
            proof {
                let t = skel@.skip(i as int);
                if t.len() >= 3 && t.subrange(0, 3) == ph() {
                    assert(t.subrange(0, 3)[0] == skel@[i as int]);
                    assert(t.subrange(0, 3)[1] == skel@[i + 1]);
                    assert(t.subrange(0, 3)[2] == skel@[i + 2]);
                    assert(false);
                }
                assert(t.skip(1) =~= skel@.skip(i + 1));
            }
            i = i + 1;
        }
    }
    proof {
        assert(skel@.skip(len as int) =~= Seq::<u8>::empty());
    }
    c
}

} // verus!
