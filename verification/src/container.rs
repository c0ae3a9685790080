//! The container format: row-groups followed by a footer of
//! `(offset, size, rows, kind)` entries and a five-byte magic trailer, and
//! the line model of a text stream.

use vstd::prelude::*;
use crate::bytes_le::{from_le32, from_le64, le32, le64, push_le32, push_le64, read_le32, read_le64};
use crate::CastError;

verus! {

/// One footer entry: where a row-group's compressed bytes live, how many
/// rows it covers, and whether it is CAST-encoded (0) or raw passthrough
/// (1).
#[derive(Clone, Debug)]
pub struct RowGroupMetadata {
    pub start_offset: u64,
    pub compressed_size: u64,
    pub num_rows: u64,
    pub kind: u8,
}

/// The five magic bytes closing every archive.
pub open spec fn magic() -> Seq<u8> {
    seq![0x43u8, 0x41u8, 0x53u8, 0x54u8, 0x01u8]
}

/// The 25 bytes of one footer entry.
pub open spec fn entry_bytes(m: RowGroupMetadata) -> Seq<u8> {
    le64(m.start_offset) + le64(m.compressed_size) + le64(m.num_rows) + seq![m.kind]
}

/// The concatenated footer entries.
pub open spec fn entries_bytes(metas: Seq<RowGroupMetadata>) -> Seq<u8>
    decreases metas.len(),
{
    if metas.len() == 0 {
        Seq::empty()
    } else {
        entry_bytes(metas[0]) + entries_bytes(metas.skip(1))
    }
}

/// The whole footer: entry count, entries, payload length, magic.
pub open spec fn footer_bytes(metas: Seq<RowGroupMetadata>, footer_start: u64) -> Seq<u8> {
    le32(metas.len() as u32) + entries_bytes(metas) + le64(footer_start) + magic()
}

/// Entry encoding distributes over concatenation.
pub proof fn lemma_entries_bytes_add(a: Seq<RowGroupMetadata>, b: Seq<RowGroupMetadata>)
    ensures
        entries_bytes(a + b) == entries_bytes(a) + entries_bytes(b),
    decreases a.len(),
{
    if a.len() == 0 {
        assert(a + b =~= b);
        assert(entries_bytes(a) + entries_bytes(b) =~= entries_bytes(b));
    } else {
        lemma_entries_bytes_add(a.skip(1), b);
        assert((a + b).skip(1) =~= a.skip(1) + b);
        assert(entry_bytes(a[0]) + (entries_bytes(a.skip(1)) + entries_bytes(b)) =~= (
        entry_bytes(a[0]) + entries_bytes(a.skip(1))) + entries_bytes(b));
    }
}

/// Entry `k` occupies bytes `25k..25k+25` of the encoded entries.
pub proof fn lemma_entries_bytes_index(metas: Seq<RowGroupMetadata>, k: int)
    requires
        0 <= k < metas.len(),
    ensures
        entries_bytes(metas).len() == 25 * metas.len(),
        entries_bytes(metas).subrange(25 * k, 25 * k + 25) == entry_bytes(metas[k]),
    decreases metas.len(),
{
    lemma_entries_bytes_len(metas);
    if k == 0 {
        lemma_entries_bytes_len(metas.skip(1));
        assert(entries_bytes(metas).subrange(0, 25) =~= entry_bytes(metas[0]));
    } else {
        lemma_entries_bytes_index(metas.skip(1), k - 1);
        assert(entries_bytes(metas).subrange(25 * k, 25 * k + 25) =~= entries_bytes(
            metas.skip(1),
        ).subrange(25 * (k - 1), 25 * (k - 1) + 25));
        assert(metas.skip(1)[k - 1] == metas[k]);
    }
}

/// The encoded entries take 25 bytes each.
pub proof fn lemma_entries_bytes_len(metas: Seq<RowGroupMetadata>)
    ensures
        entries_bytes(metas).len() == 25 * metas.len(),
    decreases metas.len(),
{
    if metas.len() > 0 {
        lemma_entries_bytes_len(metas.skip(1));
    }
}

/// Appends the footer for the given entries.
#[verifier::loop_isolation(false)]
pub fn write_footer(out: &mut Vec<u8>, metas: &Vec<RowGroupMetadata>, footer_start: u64)
    requires
        metas@.len() <= 0xffffffff,
    ensures
        final(out)@ == old(out)@ + footer_bytes(metas@, footer_start),
{
    let n = metas.len();
    push_le32(out, n as u32);
    let ghost after_count = out@;
    let mut i: usize = 0;
    proof {
        assert(entries_bytes(metas@.take(0)) =~= Seq::<u8>::empty());
        assert(out@ =~= after_count + entries_bytes(metas@.take(0)));
    }
    while i < n
        invariant
            i <= n,
            out@ == after_count + entries_bytes(metas@.take(i as int)),
        decreases n - i,
    {
        let m = &metas[i];
        push_le64(out, m.start_offset);
        push_le64(out, m.compressed_size);
        push_le64(out, m.num_rows);
        out.push(m.kind);
        proof {
            lemma_entries_bytes_add(metas@.take(i as int), seq![metas@[i as int]]);
            assert(metas@.take(i + 1) =~= metas@.take(i as int) + seq![metas@[i as int]]);
            assert(seq![metas@[i as int]].skip(1) =~= Seq::<RowGroupMetadata>::empty());
            assert(entries_bytes(Seq::<RowGroupMetadata>::empty()) =~= Seq::<u8>::empty());
            assert(entries_bytes(seq![metas@[i as int]]) =~= entry_bytes(metas@[i as int]));
            assert(out@ =~= after_count + entries_bytes(metas@.take(i + 1)));
        }
        i = i + 1;
    }
    proof {
        assert(metas@.take(n as int) =~= metas@);
    }
    push_le64(out, footer_start);
    out.push(0x43);
    out.push(0x41);
    out.push(0x53);
    out.push(0x54);
    out.push(0x01);
    proof {
        assert(out@ =~= old(out)@ + footer_bytes(metas@, footer_start));
    }
}

/// The entry encoded at offset `off`.
pub open spec fn meta_at(bytes: Seq<u8>, off: int) -> RowGroupMetadata {
    RowGroupMetadata {
        start_offset: from_le64(bytes.subrange(off, off + 8)),
        compressed_size: from_le64(bytes.subrange(off + 8, off + 16)),
        num_rows: from_le64(bytes.subrange(off + 16, off + 24)),
        kind: bytes[off + 24],
    }
}

/// The archive is long enough for a footer and ends in the magic trailer.
pub open spec fn has_magic(bytes: Seq<u8>) -> bool {
    bytes.len() >= 13 && bytes.subrange(bytes.len() - 5, bytes.len() as int) == magic()
}

/// The footer offset and entry count at the archive's tail are consistent
/// with the archive's length.
pub open spec fn footer_geometry_ok(bytes: Seq<u8>) -> bool {
    let n = bytes.len() as int;
    let fs = from_le64(bytes.subrange(n - 13, n - 5)) as int;
    &&& fs <= n - 13
    &&& n - 13 - fs >= 4
    &&& 25 * (from_le32(bytes[fs], bytes[fs + 1], bytes[fs + 2], bytes[fs + 3]) as int) == n - 13
        - fs - 4
}

/// Reads the footer of an archive: the entry list and the payload length.
/// Fails with `BadMagic` exactly when the magic trailer is missing and with
/// `CorruptedFooter` exactly when the trailer is there but the footer
/// geometry is inconsistent; on any archive whose tail passes both, the
/// entries encoded there are returned, and on one whose tail is a
/// well-formed footer, exactly that footer.
#[verifier::loop_isolation(false)]
#[verifier::rlimit(100)]
pub fn parse_footer(archive: &Vec<u8>) -> (r: Result<(Vec<RowGroupMetadata>, u64), CastError>)
    ensures
        forall|pay: Seq<u8>, metas: Seq<RowGroupMetadata>|
            archive@ == pay + #[trigger] footer_bytes(metas, pay.len() as u64) && pay.len()
                <= 0xffff_ffff_ffff_ffff && metas.len() <= 0xffffffff ==> r is Ok && ({
                let (rm, fs) = r.unwrap();
                &&& rm@.len() == metas.len()
                &&& (forall|k: int| 0 <= k < metas.len() ==> rm@[k] == metas[k])
                &&& fs == pay.len()
            }),
        r is Ok ==> r.unwrap().1 as int <= archive@.len(),
        r is Err <==> !(has_magic(archive@) && footer_geometry_ok(archive@)),
        r == Err::<(Vec<RowGroupMetadata>, u64), CastError>(CastError::BadMagic) <==> !has_magic(
            archive@,
        ),
        r == Err::<(Vec<RowGroupMetadata>, u64), CastError>(CastError::CorruptedFooter)
            <==> (has_magic(archive@) && !footer_geometry_ok(archive@)),
{
    let n = archive.len();
    if n < 13 {
        proof {
            assert forall|pay: Seq<u8>, metas: Seq<RowGroupMetadata>|
                archive@ == pay + #[trigger] footer_bytes(metas, pay.len() as u64) && pay.len()
                    <= 0xffff_ffff_ffff_ffff && metas.len() <= 0xffffffff implies false by {
                lemma_entries_bytes_len(metas);
            }
        }
        return Err(CastError::BadMagic);
    }
    if !(archive[n - 5] == 0x43 && archive[n - 4] == 0x41 && archive[n - 3] == 0x53 && archive[n
        - 2] == 0x54 && archive[n - 1] == 0x01) {
        proof {
            assert forall|pay: Seq<u8>, metas: Seq<RowGroupMetadata>|
                archive@ == pay + #[trigger] footer_bytes(metas, pay.len() as u64) && pay.len()
                    <= 0xffff_ffff_ffff_ffff && metas.len() <= 0xffffffff implies false by {
                lemma_entries_bytes_len(metas);
                let fb = footer_bytes(metas, pay.len() as u64);
                assert(archive@[n - 5] == fb[fb.len() - 5]);
                assert(archive@[n - 4] == fb[fb.len() - 4]);
                assert(archive@[n - 3] == fb[fb.len() - 3]);
                assert(archive@[n - 2] == fb[fb.len() - 2]);
                assert(archive@[n - 1] == fb[fb.len() - 1]);
            }
            if archive@.subrange(n - 5, n as int) == magic() {
                assert(archive@.subrange(n - 5, n as int)[0] == archive@[n - 5]);
                assert(archive@.subrange(n - 5, n as int)[1] == archive@[n - 4]);
                assert(archive@.subrange(n - 5, n as int)[2] == archive@[n - 3]);
                assert(archive@.subrange(n - 5, n as int)[3] == archive@[n - 2]);
                assert(archive@.subrange(n - 5, n as int)[4] == archive@[n - 1]);
                assert(false);
            }
            assert(!has_magic(archive@));
        }
        return Err(CastError::BadMagic);
    }
    proof {
        assert(archive@.subrange(n - 5, n as int) =~= magic());
        assert(has_magic(archive@));
    }
    let fs = read_le64(archive, n - 13);
    // The footer must lie between the payload end and the magic trailer.
    if fs > (n - 13) as u64 {
        proof {
            assert forall|pay: Seq<u8>, metas: Seq<RowGroupMetadata>|
                archive@ == pay + #[trigger] footer_bytes(metas, pay.len() as u64) && pay.len()
                    <= 0xffff_ffff_ffff_ffff && metas.len() <= 0xffffffff implies false by {
                lemma_entries_bytes_len(metas);
                let fb = footer_bytes(metas, pay.len() as u64);
                assert(archive@.subrange(n - 13, n - 5) =~= fb.subrange(
                    fb.len() - 13,
                    fb.len() - 5,
                ));
                assert(fb.subrange(fb.len() - 13, fb.len() - 5) =~= le64(pay.len() as u64));
                crate::bytes_le::lemma_le64_inverse(pay.len() as u64);
            }
            assert(!footer_geometry_ok(archive@));
        }
        return Err(CastError::CorruptedFooter);
    }
    let fstart = fs as usize;
    if n - 13 - fstart < 4 {
        proof {
            assert forall|pay: Seq<u8>, metas: Seq<RowGroupMetadata>|
                archive@ == pay + #[trigger] footer_bytes(metas, pay.len() as u64) && pay.len()
                    <= 0xffff_ffff_ffff_ffff && metas.len() <= 0xffffffff implies false by {
                lemma_entries_bytes_len(metas);
                let fb = footer_bytes(metas, pay.len() as u64);
                assert(archive@.subrange(n - 13, n - 5) =~= fb.subrange(
                    fb.len() - 13,
                    fb.len() - 5,
                ));
                assert(fb.subrange(fb.len() - 13, fb.len() - 5) =~= le64(pay.len() as u64));
                crate::bytes_le::lemma_le64_inverse(pay.len() as u64);
            }
            assert(!footer_geometry_ok(archive@));
        }
        return Err(CastError::CorruptedFooter);
    }
    let count = read_le32(archive, fstart);
    let entries_len = n - 13 - fstart - 4;
    if (count as u64) * 25 != entries_len as u64 {
        proof {
            assert forall|pay: Seq<u8>, metas: Seq<RowGroupMetadata>|
                archive@ == pay + #[trigger] footer_bytes(metas, pay.len() as u64) && pay.len()
                    <= 0xffff_ffff_ffff_ffff && metas.len() <= 0xffffffff implies false by {
                lemma_entries_bytes_len(metas);
                let fb = footer_bytes(metas, pay.len() as u64);
                assert(archive@.subrange(n - 13, n - 5) =~= fb.subrange(
                    fb.len() - 13,
                    fb.len() - 5,
                ));
                assert(fb.subrange(fb.len() - 13, fb.len() - 5) =~= le64(pay.len() as u64));
                crate::bytes_le::lemma_le64_inverse(pay.len() as u64);
                assert(archive@[fstart as int] == fb[0] && archive@[fstart + 1] == fb[1]
                    && archive@[fstart + 2] == fb[2] && archive@[fstart + 3] == fb[3]);
                crate::bytes_le::lemma_le32_inverse(metas.len() as u32);
            }
            assert(!footer_geometry_ok(archive@));
        }
        return Err(CastError::CorruptedFooter);
    }
    proof {
        assert(footer_geometry_ok(archive@));
    }
    let cnt = count as usize;
    let mut metas_out: Vec<RowGroupMetadata> = Vec::new();
    let mut k: usize = 0;
    while k < cnt
        invariant
            k <= cnt,
            fstart + 4 + 25 * cnt <= archive@.len(),
            metas_out@.len() == k,
            forall|kk: int|
                0 <= kk < k ==> #[trigger] metas_out@[kk] == meta_at(
                    archive@,
                    fstart + 4 + 25 * kk,
                ),
        decreases cnt - k,
    {
        let off = fstart + 4 + 25 * k;
        let so = read_le64(archive, off);
        let cs = read_le64(archive, off + 8);
        let nr = read_le64(archive, off + 16);
        let kd = archive[off + 24];
        metas_out.push(RowGroupMetadata { start_offset: so, compressed_size: cs, num_rows: nr, kind: kd });
        k = k + 1;
    }
    proof {
        assert forall|pay: Seq<u8>, metas: Seq<RowGroupMetadata>|
            archive@ == pay + #[trigger] footer_bytes(metas, pay.len() as u64) && pay.len()
                <= 0xffff_ffff_ffff_ffff && metas.len() <= 0xffffffff implies metas_out@.len()
            == metas.len() && (forall|kk: int|
            0 <= kk < metas.len() ==> metas_out@[kk] == metas[kk]) && fs == pay.len() by {
            lemma_entries_bytes_len(metas);
            let fb = footer_bytes(metas, pay.len() as u64);
            assert(archive@.subrange(n - 13, n - 5) =~= fb.subrange(fb.len() - 13, fb.len() - 5));
            assert(fb.subrange(fb.len() - 13, fb.len() - 5) =~= le64(pay.len() as u64));
            crate::bytes_le::lemma_le64_inverse(pay.len() as u64);
            assert(fs == pay.len());
            assert(fstart == pay.len());
            assert(archive@[fstart as int] == fb[0] && archive@[fstart + 1] == fb[1] && archive@[
                fstart + 2] == fb[2] && archive@[fstart + 3] == fb[3]);
            crate::bytes_le::lemma_le32_inverse(metas.len() as u32);
            assert(count == metas.len());
            assert forall|kk: int| 0 <= kk < metas.len() implies metas_out@[kk] == metas[kk] by {
                lemma_entries_bytes_index(metas, kk);
                let eb = entry_bytes(metas[kk]);
                assert(archive@.subrange(fstart + 4 + 25 * kk, fstart + 4 + 25 * kk + 25) =~= fb
                    .subrange(4 + 25 * kk, 4 + 25 * kk + 25));
                assert(fb.subrange(4 + 25 * kk, 4 + 25 * kk + 25) =~= entries_bytes(
                    metas,
                ).subrange(25 * kk, 25 * kk + 25));
                assert(archive@.subrange(fstart + 4 + 25 * kk, fstart + 4 + 25 * kk + 25) == eb);
                let off = fstart + 4 + 25 * kk;
                assert(archive@.subrange(off, off + 8) =~= eb.subrange(0, 8));
                assert(archive@.subrange(off + 8, off + 16) =~= eb.subrange(8, 16));
                assert(archive@.subrange(off + 16, off + 24) =~= eb.subrange(16, 24));
                assert(eb.subrange(0, 8) =~= le64(metas[kk].start_offset));
                assert(eb.subrange(8, 16) =~= le64(metas[kk].compressed_size));
                assert(eb.subrange(16, 24) =~= le64(metas[kk].num_rows));
                assert(archive@[off + 24] == eb[24]);
                crate::bytes_le::lemma_le64_inverse(metas[kk].start_offset);
                crate::bytes_le::lemma_le64_inverse(metas[kk].compressed_size);
                crate::bytes_le::lemma_le64_inverse(metas[kk].num_rows);
                assert(metas_out@[kk] == meta_at(archive@, off));
            }
        }
    }
    Ok((metas_out, fs))
}

// ---------------------------------------------------------------------------
// The line model of a text stream
// ---------------------------------------------------------------------------

/// First newline byte, if any.
pub open spec fn find_nl(s: Seq<u8>) -> Option<int>
    decreases s.len(),
{
    if s.len() == 0 {
        None
    } else if s[0] == 0x0a {
        Some(0int)
    } else {
        match find_nl(s.skip(1)) {
            Some(i) => Some(i + 1),
            None => None,
        }
    }
}

pub proof fn lemma_find_nl_in_range(s: Seq<u8>)
    ensures
        match find_nl(s) {
            Some(i) => 0 <= i < s.len() && s[i] == 0x0a,
            None => true,
        },
    decreases s.len(),
{
    if s.len() > 0 && s[0] != 0x0a {
        lemma_find_nl_in_range(s.skip(1));
    }
}

/// The lines of a stream, each keeping its terminating newline; the final
/// line may be unterminated.  An empty stream has no lines.
pub open spec fn split_lines(s: Seq<u8>) -> Seq<Seq<u8>>
    decreases s.len(),
    via split_lines_decreases
{
    if s.len() == 0 {
        Seq::<Seq<u8>>::empty()
    } else {
        match find_nl(s) {
            Some(i) => seq![s.take(i + 1)] + split_lines(s.skip(i + 1)),
            None => seq![s],
        }
    }
}

#[via_fn]
proof fn split_lines_decreases(s: Seq<u8>) {
    lemma_find_nl_in_range(s);
}

/// Concatenation of a line list.
pub open spec fn concat_lines(ls: Seq<Seq<u8>>) -> Seq<u8>
    decreases ls.len(),
{
    if ls.len() == 0 {
        Seq::empty()
    } else {
        ls[0] + concat_lines(ls.skip(1))
    }
}

/// Concatenation over one more line.
pub proof fn lemma_concat_lines_push(ls: Seq<Seq<u8>>, x: Seq<u8>)
    ensures
        concat_lines(ls.push(x)) == concat_lines(ls) + x,
    decreases ls.len(),
{
    if ls.len() == 0 {
        assert(ls.push(x)[0] == x);
        assert(ls.push(x).skip(1) =~= Seq::<Seq<u8>>::empty());
        assert(concat_lines(Seq::<Seq<u8>>::empty()) =~= Seq::<u8>::empty());
        assert(concat_lines(ls.push(x)) =~= x);
        assert(concat_lines(ls) + x =~= x);
    } else {
        lemma_concat_lines_push(ls.skip(1), x);
        assert(ls.push(x).skip(1) =~= ls.skip(1).push(x));
        assert(ls.push(x)[0] == ls[0]);
        assert(ls[0] + (concat_lines(ls.skip(1)) + x) =~= (ls[0] + concat_lines(ls.skip(1)))
            + x);
    }
}

/// Splitting into lines loses nothing.
pub proof fn lemma_concat_split_lines(s: Seq<u8>)
    ensures
        concat_lines(split_lines(s)) == s,
    decreases s.len(),
{
    if s.len() == 0 {
        assert(concat_lines(split_lines(s)) =~= s);
    } else {
        lemma_find_nl_in_range(s);
        match find_nl(s) {
            Some(i) => {
                lemma_concat_split_lines(s.skip(i + 1));
                assert(split_lines(s)[0] == s.take(i + 1));
                assert(split_lines(s).skip(1) =~= split_lines(s.skip(i + 1)));
                assert(concat_lines(split_lines(s)) =~= s.take(i + 1) + s.skip(i + 1));
                assert(s.take(i + 1) + s.skip(i + 1) =~= s);
            },
            None => {
                assert(split_lines(s).skip(1) =~= Seq::<Seq<u8>>::empty());
                assert(concat_lines(Seq::<Seq<u8>>::empty()) =~= Seq::<u8>::empty());
                assert(split_lines(s)[0] == s);
                assert(concat_lines(split_lines(s)) =~= s);
            },
        }
    }
}

/// Finds the first newline at or after `from`.
#[verifier::loop_isolation(false)]
pub fn find_nl_exec(data: &Vec<u8>, from: usize) -> (r: Option<usize>)
    requires
        from <= data@.len(),
    ensures
        match find_nl(data@.skip(from as int)) {
            Some(i) => r == Some((from + i) as usize),
            None => r is None,
        },
{
    let n = data.len();
    let mut i = from;
    while i < n
        invariant
            from <= i <= n,
            ({
                match find_nl(data@.skip(from as int)) {
                    Some(k) => match find_nl(data@.skip(i as int)) {
                        Some(k2) => k == i - from + k2,
                        None => false,
                    },
                    None => find_nl(data@.skip(i as int)) is None,
                }
            }),
        decreases n - i,
    {
        let ghost rest = data@.skip(i as int);
        proof {
            assert(rest[0] == data@[i as int]);
            assert(rest.skip(1) =~= data@.skip(i + 1));
        }
        if data[i] == 0x0a {
            return Some(i);
        }
        i = i + 1;
    }
    proof {
        assert(data@.skip(i as int).len() == 0);
    }
    None
}

/// Average byte length of the first (up to) 1000 lines of a stream — the
/// sample that turns a byte budget into a row budget.  A stream without
/// lines reports the fallback of 200 bytes; otherwise the result is the
/// sampled bytes divided by the sampled line count, at least 1.
#[verifier::loop_isolation(false)]
pub fn estimate_avg_row_size(data: &Vec<u8>) -> (r: usize)
    ensures
        r >= 1,
        split_lines(data@).len() == 0 ==> r == 200,
        split_lines(data@).len() > 0 ==> ({
            let k = if split_lines(data@).len() <= 1000 {
                split_lines(data@).len() as int
            } else {
                1000int
            };
            let total = concat_lines(split_lines(data@).take(k)).len() as int;
            r as int == (if total / k >= 1 {
                total / k
            } else {
                1int
            })
        }),
{
    let n = data.len();
    let mut cursor: usize = 0;
    let mut count: usize = 0;
    let mut total: usize = 0;
    proof {
        assert(data@.skip(0) =~= data@);
        assert(split_lines(data@).take(0) =~= Seq::<Seq<u8>>::empty());
        assert(concat_lines(Seq::<Seq<u8>>::empty()) =~= Seq::<u8>::empty());
    }
    while cursor < n && count < 1000
        invariant
            cursor <= n,
            n == data@.len(),
            count <= 1000,
            count <= split_lines(data@).len(),
            split_lines(data@.skip(cursor as int)) == split_lines(data@).skip(count as int),
            total == concat_lines(split_lines(data@).take(count as int)).len(),
            total <= cursor,
        decreases n - cursor,
    {
        let ghost rest = data@.skip(cursor as int);
        proof {
            lemma_find_nl_in_range(rest);
            assert(rest.len() > 0);
            match find_nl(rest) {
                Some(i) => {
                    assert(rest.take(i + 1) =~= data@.subrange(cursor as int, cursor + i + 1));
                    assert(rest.skip(i + 1) =~= data@.skip(cursor + i + 1));
                },
                None => {
                    assert(rest =~= data@.subrange(cursor as int, n as int));
                    assert(rest.skip(rest.len() as int) =~= data@.skip(n as int));
                },
            }
        }
        let line_end = match find_nl_exec(data, cursor) {
            Some(p) => p + 1,
            None => n,
        };
        proof {
            let ls = split_lines(data@);
            assert(split_lines(rest)[0] == rest.take(line_end - cursor as int));
            assert(ls.skip(count as int)[0] == ls[count as int]);
            assert(ls.take(count + 1) =~= ls.take(count as int).push(ls[count as int]));
            lemma_concat_lines_push(ls.take(count as int), ls[count as int]);
            assert(split_lines(rest).skip(1) =~= ls.skip(count + 1));
        }
        total = total + (line_end - cursor);
        count = count + 1;
        cursor = line_end;
    }
    proof {
        if cursor == n {
            assert(split_lines(data@.skip(n as int)).len() == 0);
        }
        assert(count > 0 ==> count as int == (if split_lines(data@).len() <= 1000 {
            split_lines(data@).len() as int
        } else {
            1000int
        }));
    }
    if count == 0 {
        return 200;
    }
    let avg = total / count;
    if avg == 0 {
        1
    } else {
        avg
    }
}

} // verus!
