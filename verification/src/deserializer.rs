//! The block deserializer: parses one decompressed row-group back into its
//! lines, optionally keeping only a requested global row range.

use vstd::prelude::*;
use crate::bytes_le::{from_le32, le32};
use crate::escape::{cells_split, cols_split, find_unescaped, lemma_find_in_range, ESC};
use crate::container::{concat_lines, footer_bytes, RowGroupMetadata};
use crate::latin1::{is_utf8, is_utf8_exec, latin1_encode};
use crate::serializer::{
    block_body, block_lines, occ_count, row_cells, sep_join, state_wf, ids_enc1, ids_enc2,
    ids_enc4, lemma_occ_take,
};
use crate::tokenizer::{contains_seq, count_ph, recon, rsep};
use crate::CastError;

verus! {

// ---------------------------------------------------------------------------
// Registry splitting
// ---------------------------------------------------------------------------

/// First index where the registry separator occurs.
pub open spec fn find_rsep(s: Seq<u8>) -> Option<int>
    decreases s.len(),
{
    if s.len() < 3 {
        None
    } else if s.subrange(0, 3) == rsep() {
        Some(0int)
    } else {
        match find_rsep(s.skip(1)) {
            Some(i) => Some(i + 1),
            None => None,
        }
    }
}

/// A found separator lies in the sequence.
pub proof fn lemma_find_rsep_in_range(s: Seq<u8>)
    ensures
        match find_rsep(s) {
            Some(i) => 0 <= i && i + 3 <= s.len() && s.subrange(i, i + 3) == rsep(),
            None => true,
        },
    decreases s.len(),
{
    if s.len() >= 3 && s.subrange(0, 3) != rsep() {
        lemma_find_rsep_in_range(s.skip(1));
        match find_rsep(s.skip(1)) {
            Some(i) => {
                assert(s.subrange(i + 1, i + 4) =~= s.skip(1).subrange(i, i + 3));
            },
            None => {},
        }
    }
}

/// Splits registry bytes at every separator.
pub open spec fn sep_split(s: Seq<u8>) -> Seq<Seq<u8>>
    decreases s.len(),
    via sep_split_decreases
{
    match find_rsep(s) {
        Some(i) => seq![s.take(i)] + sep_split(s.skip(i + 3)),
        None => seq![s],
    }
}

#[via_fn]
proof fn sep_split_decreases(s: Seq<u8>) {
    lemma_find_rsep_in_range(s);
}


/// Introduces a containment witness.
pub proof fn lemma_contains_intro(h: Seq<u8>, n: Seq<u8>, i: int)
    requires
        0 <= i,
        i + n.len() <= h.len(),
        h.subrange(i, i + n.len() as int) == n,
    ensures
        contains_seq(h, n),
{
}

/// An occurrence in a suffix is an occurrence in the whole sequence.
pub proof fn lemma_contains_skip(h: Seq<u8>, n: Seq<u8>, k: int)
    requires
        0 <= k <= h.len(),
        contains_seq(h.skip(k), n),
    ensures
        contains_seq(h, n),
{
    let i = choose|i: int|
        0 <= i && i + n.len() <= h.skip(k).len() && #[trigger] h.skip(k).subrange(
            i,
            i + n.len() as int,
        ) == n;
    assert(h.subrange(k + i, k + i + n.len() as int) =~= h.skip(k).subrange(
        i,
        i + n.len() as int,
    ));
}

/// A piece free of the separator has no separator to find.
pub proof fn lemma_find_rsep_none(p: Seq<u8>)
    requires
        !contains_seq(p, rsep()),
    ensures
        find_rsep(p) == None::<int>,
    decreases p.len(),
{
    if p.len() >= 3 {
        if p.subrange(0, 3) == rsep() {
            lemma_contains_intro(p, rsep(), 0);
        }
        if contains_seq(p.skip(1), rsep()) {
            lemma_contains_skip(p, rsep(), 1);
        }
        lemma_find_rsep_none(p.skip(1));
    }
}

/// Scanning a piece free of the separator finds the separator right after
/// it.
pub proof fn lemma_find_rsep_after(p: Seq<u8>, tail: Seq<u8>)
    requires
        !contains_seq(p, rsep()),
    ensures
        find_rsep(p + rsep() + tail) == Some(p.len() as int),
    decreases p.len(),
{
    let s = p + rsep() + tail;
    if p.len() == 0 {
        assert(s.subrange(0, 3) =~= rsep());
    } else {
        if s.subrange(0, 3) == rsep() {
            if p.len() >= 3 {
                assert(p.subrange(0, 3) =~= s.subrange(0, 3));
                lemma_contains_intro(p, rsep(), 0);
                assert(false);
            } else if p.len() == 2 {
                assert(s.subrange(0, 3)[2] == s[2]);
                assert(s[2] == rsep()[0]);
                assert(false);
            } else {
                assert(s.subrange(0, 3)[2] == s[2]);
                assert(s[2] == rsep()[1]);
                assert(false);
            }
        }
        if contains_seq(p.skip(1), rsep()) {
            lemma_contains_skip(p, rsep(), 1);
        }
        lemma_find_rsep_after(p.skip(1), tail);
        assert(s.skip(1) =~= p.skip(1) + rsep() + tail);
    }
}

/// Splitting the joined skeletons recovers them.
pub proof fn lemma_sep_split_join(parts: Seq<Seq<u8>>)
    requires
        parts.len() >= 1,
        forall|k: int| 0 <= k < parts.len() ==> !contains_seq(#[trigger] parts[k], rsep()),
    ensures
        sep_split(sep_join(parts)) == parts,
    decreases parts.len(),
{
    let s = sep_join(parts);
    if parts.len() == 1 {
        lemma_find_rsep_none(parts[0]);
        assert(sep_split(s) =~= parts);
    } else {
        lemma_sep_split_join(parts.skip(1));
        assert(forall|k: int|
            0 <= k < parts.skip(1).len() ==> parts.skip(1)[k] == parts[k + 1]);
        assert(s == parts[0] + rsep() + sep_join(parts.skip(1)));
        lemma_find_rsep_after(parts[0], sep_join(parts.skip(1)));
        assert((parts[0] + rsep() + sep_join(parts.skip(1)))
            =~= (parts[0] + rsep()) + sep_join(parts.skip(1)));
        let k = parts[0].len() as int;
        assert(find_rsep(s) == Some(k));
        assert(s.take(k) =~= parts[0]);
        assert(s.skip(k + 3) =~= sep_join(parts.skip(1)));
        assert(sep_split(s) =~= seq![parts[0]] + parts.skip(1));
        assert(seq![parts[0]] + parts.skip(1) =~= parts);
    }
}

// ---------------------------------------------------------------------------
// Id stream decoding
// ---------------------------------------------------------------------------

/// One byte per id.
pub open spec fn ids_dec1(b: Seq<u8>) -> Seq<u32>
    decreases b.len(),
{
    if b.len() == 0 {
        Seq::empty()
    } else {
        seq![b[0] as u32] + ids_dec1(b.skip(1))
    }
}

/// Two little-endian bytes per id; a trailing odd byte is ignored.
pub open spec fn ids_dec2(b: Seq<u8>) -> Seq<u32>
    decreases b.len(),
{
    if b.len() < 2 {
        Seq::empty()
    } else {
        seq![(b[0] as u32) | ((b[1] as u32) << 8)] + ids_dec2(b.skip(2))
    }
}

/// Four little-endian bytes per id; trailing bytes are ignored.
pub open spec fn ids_dec4(b: Seq<u8>) -> Seq<u32>
    decreases b.len(),
{
    if b.len() < 4 {
        Seq::empty()
    } else {
        seq![from_le32(b[0], b[1], b[2], b[3])] + ids_dec4(b.skip(4))
    }
}

/// Decoding one-byte ids of values below 256 recovers them.
pub proof fn lemma_ids_dec1_enc1(ids: Seq<u32>)
    requires
        forall|r: int| 0 <= r < ids.len() ==> (#[trigger] ids[r]) < 256,
    ensures
        ids_dec1(ids_enc1(ids)) == ids,
    decreases ids.len(),
{
    if ids.len() == 0 {
        assert(ids_dec1(ids_enc1(ids)) =~= ids);
    } else {
        lemma_ids_dec1_enc1(ids.skip(1));
        let e = ids_enc1(ids);
        assert(e =~= seq![(ids[0] & 0xff) as u8] + ids_enc1(ids.skip(1)));
        assert(e[0] == (ids[0] & 0xff) as u8);
        assert(e.skip(1) =~= ids_enc1(ids.skip(1)));
        let v = ids[0];
        assert(v < 256 ==> ((v & 0xff) as u8 as u32) == v) by (bit_vector);
        assert(ids_dec1(e) =~= seq![ids[0]] + ids.skip(1));
        assert(seq![ids[0]] + ids.skip(1) =~= ids);
    }
}

/// Decoding two-byte ids of values below 65536 recovers them.
pub proof fn lemma_ids_dec2_enc2(ids: Seq<u32>)
    requires
        forall|r: int| 0 <= r < ids.len() ==> (#[trigger] ids[r]) < 65536,
    ensures
        ids_dec2(ids_enc2(ids)) == ids,
    decreases ids.len(),
{
    if ids.len() == 0 {
        assert(ids_dec2(ids_enc2(ids)) =~= ids);
    } else {
        lemma_ids_dec2_enc2(ids.skip(1));
        let e = ids_enc2(ids);
        assert(e =~= seq![(ids[0] & 0xff) as u8, ((ids[0] >> 8) & 0xff) as u8] + ids_enc2(
            ids.skip(1),
        ));
        assert(e[0] == (ids[0] & 0xff) as u8);
        assert(e[1] == ((ids[0] >> 8) & 0xff) as u8);
        assert(e.skip(2) =~= ids_enc2(ids.skip(1)));
        let v = ids[0];
        assert(v < 65536 ==> (((v & 0xff) as u8 as u32) | (((v >> 8) & 0xff) as u8 as u32) << 8)
            == v) by (bit_vector);
        assert(ids_dec2(e) =~= seq![ids[0]] + ids.skip(1));
        assert(seq![ids[0]] + ids.skip(1) =~= ids);
    }
}

/// Decoding four-byte ids recovers them.
pub proof fn lemma_ids_dec4_enc4(ids: Seq<u32>)
    ensures
        ids_dec4(ids_enc4(ids)) == ids,
    decreases ids.len(),
{
    if ids.len() == 0 {
        assert(ids_dec4(ids_enc4(ids)) =~= ids);
    } else {
        lemma_ids_dec4_enc4(ids.skip(1));
        let e = ids_enc4(ids);
        assert(e =~= le32(ids[0]) + ids_enc4(ids.skip(1)));
        assert(e[0] == le32(ids[0])[0] && e[1] == le32(ids[0])[1] && e[2] == le32(ids[0])[2]
            && e[3] == le32(ids[0])[3]);
        assert(e.skip(4) =~= ids_enc4(ids.skip(1)));
        crate::bytes_le::lemma_le32_inverse(ids[0]);
        assert(ids_dec4(e) =~= seq![ids[0]] + ids.skip(1));
        assert(seq![ids[0]] + ids.skip(1) =~= ids);
    }
}

// ---------------------------------------------------------------------------
// Row reconstruction over cell queues
// ---------------------------------------------------------------------------

/// Whether the global row `gidx` is inside the requested range.
pub open spec fn sel(gidx: int, target: Option<(u64, u64)>) -> bool {
    match target {
        Some((a, b)) => a as int <= gidx <= b as int,
        None => true,
    }
}

/// The current head cell of each of the `nv` columns of one template.
pub open spec fn row_heads(qt: Seq<Seq<Seq<u8>>>, nv: nat) -> Seq<Seq<u8>> {
    Seq::new(
        nv,
        |j: int|
            if j < qt.len() && qt[j].len() > 0 {
                qt[j][0]
            } else {
                Seq::<u8>::empty()
            },
    )
}

/// Pops the head cell of every column of template `t`.
pub open spec fn pop_t(q: Seq<Seq<Seq<Seq<u8>>>>, t: int) -> Seq<Seq<Seq<Seq<u8>>>> {
    q.update(
        t,
        Seq::new(
            q[t].len(),
            |j: int|
                if q[t][j].len() > 0 {
                    q[t][j].skip(1)
                } else {
                    q[t][j]
                },
        ),
    )
}

/// Reconstructs the rows named by `rids`, consuming the cell queues in row
/// order; rows outside the selection are consumed but not emitted.
pub open spec fn run_rows(
    skels: Seq<Seq<u8>>,
    q: Seq<Seq<Seq<Seq<u8>>>>,
    rids: Seq<u32>,
    gidx: int,
    target: Option<(u64, u64)>,
) -> Seq<u8>
    decreases rids.len(),
{
    if rids.len() == 0 {
        Seq::empty()
    } else {
        let t = rids[0] as int;
        if t >= skels.len() {
            run_rows(skels, q, rids.skip(1), gidx + 1, target)
        } else {
            let line = recon(skels[t], row_heads(q[t], count_ph(skels[t])));
            (if sel(gidx, target) {
                line
            } else {
                Seq::<u8>::empty()
            }) + run_rows(skels, pop_t(q, t), rids.skip(1), gidx + 1, target)
        }
    }
}

/// The selected lines, concatenated.
pub open spec fn sel_concat(lines: Seq<Seq<u8>>, gidx: int, target: Option<(u64, u64)>) -> Seq<
    u8,
>
    decreases lines.len(),
{
    if lines.len() == 0 {
        Seq::empty()
    } else {
        (if sel(gidx, target) {
            lines[0]
        } else {
            Seq::<u8>::empty()
        }) + sel_concat(lines.skip(1), gidx + 1, target)
    }
}

/// The queues after the first `r` rows have been consumed.
pub open spec fn consumed(
    cols: Seq<Seq<Seq<Seq<u8>>>>,
    ids: Seq<u32>,
    r: int,
) -> Seq<Seq<Seq<Seq<u8>>>> {
    Seq::new(
        cols.len(),
        |t: int|
            Seq::new(
                cols[t].len(),
                |j: int| cols[t][j].skip(occ_count(ids.take(r), t as u32) as int),
            ),
    )
}

/// Running the rows of a well-formed state over its own columns emits
/// exactly the selected lines of the state.
pub proof fn lemma_run_rows_image(
    skels: Seq<Seq<u8>>,
    ids: Seq<u32>,
    cols: Seq<Seq<Seq<Seq<u8>>>>,
    r: int,
    gidx0: int,
    target: Option<(u64, u64)>,
)
    requires
        state_wf(skels, ids, cols),
        0 <= r <= ids.len(),
    ensures
        run_rows(skels, consumed(cols, ids, r), ids.skip(r), gidx0 + r, target) == sel_concat(
            block_lines(skels, ids, cols).skip(r),
            gidx0 + r,
            target,
        ),
    decreases ids.len() - r,
{
    let lines = block_lines(skels, ids, cols);
    let q = consumed(cols, ids, r);
    let rids = ids.skip(r);
    if r == ids.len() {
        assert(rids.len() == 0);
        assert(lines.skip(r).len() == 0);
        assert(run_rows(skels, q, rids, gidx0 + r, target) =~= Seq::<u8>::empty());
        assert(sel_concat(lines.skip(r), gidx0 + r, target) =~= Seq::<u8>::empty());
    } else {
        let t = ids[r];
        assert(rids[0] == t);
        assert((t as int) < skels.len());
        // The heads of template `t`'s queues are exactly this row's cells.
        assert forall|j: int| 0 <= j < count_ph(skels[t as int]) implies row_heads(
            q[t as int],
            count_ph(skels[t as int]),
        )[j] == row_cells(ids, cols, r)[j] by {
            lemma_occ_take(ids, t, r);
            assert(cols[t as int][j].len() == occ_count(ids, t));
            assert(occ_count(ids.take(r), t) < occ_count(ids, t));
            assert(q[t as int][j] == cols[t as int][j].skip(occ_count(ids.take(r), t) as int));
            assert(q[t as int][j][0] == cols[t as int][j][occ_count(ids.take(r), t) as int]);
        }
        assert(row_heads(q[t as int], count_ph(skels[t as int])) =~= row_cells(ids, cols, r));
        // Popping the heads gives the queues for the next row.
        assert forall|t2: int, j: int|
            0 <= t2 < cols.len() && 0 <= j < cols[t2].len() implies #[trigger] pop_t(
            q,
            t as int,
        )[t2][j] == consumed(cols, ids, r + 1)[t2][j] by {
            assert(ids.take(r + 1).drop_last() =~= ids.take(r));
            assert(ids.take(r + 1).last() == ids[r]);
            lemma_occ_take(ids, t2 as u32, r);
            if t2 == t as int {
                assert(occ_count(ids.take(r + 1), t2 as u32) == occ_count(ids.take(r), t2 as u32)
                    + 1);
                assert(cols[t2][j].len() == occ_count(ids, t2 as u32));
                assert(occ_count(ids.take(r), t2 as u32) < occ_count(ids, t2 as u32));
                let a = occ_count(ids.take(r), t2 as u32) as int;
                assert(q[t2][j] == cols[t2][j].skip(a));
                assert(q[t2][j].len() > 0);
                assert(pop_t(q, t as int)[t2][j] == q[t2][j].skip(1));
                assert(cols[t2][j].skip(a).skip(1) =~= cols[t2][j].skip(a + 1));
                assert(pop_t(q, t as int)[t2][j] =~= cols[t2][j].skip(
                    occ_count(ids.take(r + 1), t2 as u32) as int,
                ));
            } else {
                assert(occ_count(ids.take(r + 1), t2 as u32) == occ_count(
                    ids.take(r),
                    t2 as u32,
                ));
                assert(pop_t(q, t as int)[t2][j] == q[t2][j]);
                assert(q[t2][j] =~= cols[t2][j].skip(
                    occ_count(ids.take(r + 1), t2 as u32) as int,
                ));
            }
        }
        assert forall|t2: int| 0 <= t2 < cols.len() implies #[trigger] pop_t(q, t as int)[t2]
            =~= consumed(cols, ids, r + 1)[t2] by {}
        assert(pop_t(q, t as int) =~= consumed(cols, ids, r + 1));
        lemma_run_rows_image(skels, ids, cols, r + 1, gidx0, target);
        assert(rids.skip(1) =~= ids.skip(r + 1));
        assert(lines.skip(r)[0] == lines[r]);
        assert(lines.skip(r).skip(1) =~= lines.skip(r + 1));
        assert(lines[r] == recon(skels[t as int], row_cells(ids, cols, r)));
        assert(run_rows(skels, q, rids, gidx0 + r, target) == sel_concat(
            lines.skip(r),
            gidx0 + r,
            target,
        ));
    }
}

// ---------------------------------------------------------------------------
// Exec scanning primitives
// ---------------------------------------------------------------------------

/// Finds the first unescaped `target` in `data[from..to]`.
#[verifier::loop_isolation(false)]
pub fn find_unescaped_from(data: &Vec<u8>, from: usize, to: usize, target: u8) -> (r: Option<
    usize,
>)
    requires
        from <= to <= data@.len(),
        target != ESC,
    ensures
        match find_unescaped(data@.subrange(from as int, to as int), target) {
            Some(i) => r == Some((from + i) as usize),
            None => r is None,
        },
{
    let mut cur = from;
    while cur < to
        invariant
            from <= cur <= to,
            ({
                let whole = data@.subrange(from as int, to as int);
                let rest = data@.subrange(cur as int, to as int);
                match find_unescaped(whole, target) {
                    Some(i) => match find_unescaped(rest, target) {
                        Some(k) => i == cur - from + k,
                        None => false,
                    },
                    None => find_unescaped(rest, target) is None,
                }
            }),
        decreases to - cur,
    {
        let ghost rest = data@.subrange(cur as int, to as int);
        let b = data[cur];
        if b == ESC {
            if to - cur >= 2 {
                proof {
                    assert(rest.skip(2) =~= data@.subrange(cur + 2, to as int));
                }
                cur = cur + 2;
            } else {
                proof {
                    assert(rest.len() == 1);
                }
                return None;
            }
        } else if b == target {
            proof {
                assert(rest[0] == target);
            }
            return Some(cur);
        } else {
            proof {
                assert(rest.skip(1) =~= data@.subrange(cur + 1, to as int));
            }
            cur = cur + 1;
        }
    }
    proof {
        assert(data@.subrange(cur as int, to as int).len() == 0);
    }
    None
}

/// Unescapes `data[from..to]` into a fresh vector.
#[verifier::loop_isolation(false)]
pub fn unescape_slice(data: &Vec<u8>, from: usize, to: usize) -> (r: Vec<u8>)
    requires
        from <= to <= data@.len(),
    ensures
        r@ == crate::escape::unescape_bytes(data@.subrange(from as int, to as int)),
{
    let mut out: Vec<u8> = Vec::new();
    let mut i = from;
    while i < to
        invariant
            from <= i <= to,
            out@ + crate::escape::unescape_bytes(data@.subrange(i as int, to as int))
                == crate::escape::unescape_bytes(data@.subrange(from as int, to as int)),
        decreases to - i,
    {
        let ghost rest = data@.subrange(i as int, to as int);
        let b = data[i];
        if b == ESC && to - i >= 2 {
            proof {
                assert(rest.skip(2) =~= data@.subrange(i + 2, to as int));
                assert(rest[1] == data@[i + 1]);
            }
            let nb = data[i + 1];
            if nb == 0x01 {
                out.push(0x01);
            } else if nb == 0x00 {
                out.push(0x00);
            } else {
                out.push(0x02);
            }
            i = i + 2;
        } else {
            proof {
                assert(rest.skip(1) =~= data@.subrange(i + 1, to as int));
                if rest[0] == ESC {
                    assert(rest.len() == 1);
                }
            }
            out.push(b);
            i = i + 1;
        }
    }
    proof {
        assert(data@.subrange(i as int, to as int).len() == 0);
        assert(out@ =~= crate::escape::unescape_bytes(data@.subrange(from as int, to as int)));
    }
    out
}

/// Splits `data[from..to]` into the unescaped cells of one column.
#[verifier::loop_isolation(false)]
pub fn split_cells_exec(data: &Vec<u8>, from: usize, to: usize) -> (r: Vec<Vec<u8>>)
    requires
        from <= to <= data@.len(),
    ensures
        crate::tokenizer::views_of(r@) == cells_split(data@.subrange(from as int, to as int)),
{
    let mut out: Vec<Vec<u8>> = Vec::new();
    let mut cur = from;
    loop
        invariant
            from <= cur <= to,
            to <= data@.len(),
            crate::tokenizer::views_of(out@) + cells_split(
                data@.subrange(cur as int, to as int),
            ) == cells_split(data@.subrange(from as int, to as int)),
        decreases to - cur,
    {
        let ghost rest = data@.subrange(cur as int, to as int);
        let ghost out_before = out@;
        match find_unescaped_from(data, cur, to, 0x00) {
            Some(p) => {
                proof {
                    lemma_find_in_range(rest, 0x00);
                    assert(rest.take(p - cur) =~= data@.subrange(cur as int, p as int));
                    assert(rest.skip(p - cur + 1) =~= data@.subrange(p + 1, to as int));
                }
                let cell = unescape_slice(data, cur, p);
                out.push(cell);
                proof {
                    assert(crate::tokenizer::views_of(out@) =~= crate::tokenizer::views_of(
                        out_before,
                    ) + seq![crate::escape::unescape_bytes(
                        data@.subrange(cur as int, p as int),
                    )]);
                }
                cur = p + 1;
            },
            None => {
                let cell = unescape_slice(data, cur, to);
                out.push(cell);
                proof {
                    assert(crate::tokenizer::views_of(out@) =~= crate::tokenizer::views_of(
                        out_before,
                    ) + seq![crate::escape::unescape_bytes(
                        data@.subrange(cur as int, to as int),
                    )]);
                    assert(cells_split(rest) =~= seq![crate::escape::unescape_bytes(rest)]);
                }
                return out;
            },
        }
    }
}

/// Splits the variable region into its raw column spans.
#[verifier::loop_isolation(false)]
pub fn split_cols_exec(data: &Vec<u8>, from: usize, to: usize) -> (r: Vec<(usize, usize)>)
    requires
        from <= to <= data@.len(),
    ensures
        r@.len() == cols_split(data@.subrange(from as int, to as int)).len(),
        forall|k: int|
            0 <= k < r@.len() ==> from <= (#[trigger] r@[k]).0 <= r@[k].1 <= to && data@.subrange(
                r@[k].0 as int,
                r@[k].1 as int,
            ) == cols_split(data@.subrange(from as int, to as int))[k],
{
    let mut out: Vec<(usize, usize)> = Vec::new();
    let ghost whole = data@.subrange(from as int, to as int);
    let mut cur = from;
    proof {
        if whole.len() == 0 {
            assert(cols_split(whole).len() == 0);
        }
    }
    while cur < to
        invariant
            from <= cur <= to,
            to <= data@.len(),
            ({
                let spans = out@.map_values(
                    |p: (usize, usize)| data@.subrange(p.0 as int, p.1 as int),
                );
                spans + cols_split(data@.subrange(cur as int, to as int)) == cols_split(whole)
            }),
            forall|k: int|
                0 <= k < out@.len() ==> from <= (#[trigger] out@[k]).0 <= out@[k].1 <= to,
        decreases to - cur,
    {
        let ghost rest = data@.subrange(cur as int, to as int);
        let ghost out_before = out@;
        match find_unescaped_from(data, cur, to, 0x02) {
            Some(p) => {
                proof {
                    lemma_find_in_range(rest, 0x02);
                    assert(rest.take(p - cur) =~= data@.subrange(cur as int, p as int));
                    assert(rest.skip(p - cur + 1) =~= data@.subrange(p + 1, to as int));
                }
                out.push((cur, p));
                proof {
                    assert(out@.map_values(
                        |pp: (usize, usize)| data@.subrange(pp.0 as int, pp.1 as int),
                    ) =~= out_before.map_values(
                        |pp: (usize, usize)| data@.subrange(pp.0 as int, pp.1 as int),
                    ) + seq![data@.subrange(cur as int, p as int)]);
                }
                cur = p + 1;
            },
            None => {
                out.push((cur, to));
                proof {
                    assert(out@.map_values(
                        |pp: (usize, usize)| data@.subrange(pp.0 as int, pp.1 as int),
                    ) =~= out_before.map_values(
                        |pp: (usize, usize)| data@.subrange(pp.0 as int, pp.1 as int),
                    ) + seq![rest]);
                    assert(rest.len() > 0);
                    assert(cols_split(rest) =~= seq![rest]);
                }
                return out;
            },
        }
    }
    proof {
        assert(data@.subrange(cur as int, to as int).len() == 0);
        assert(cols_split(data@.subrange(cur as int, to as int)) =~= Seq::<Seq<u8>>::empty());
    }
    out
}

// ---------------------------------------------------------------------------
// The block decoder
// ---------------------------------------------------------------------------

/// The views of a vector of cell lists.
pub open spec fn views2(vs: Seq<Vec<Vec<u8>>>) -> Seq<Seq<Seq<u8>>> {
    vs.map_values(|c: Vec<Vec<u8>>| crate::tokenizer::views_of(c@))
}

/// Start of template `t`'s columns in the flattened column list.
pub open spec fn base_of(cols: Seq<Seq<Seq<Seq<u8>>>>, t: int) -> int
    decreases t,
{
    if t <= 0 {
        0
    } else {
        base_of(cols, t - 1) + cols[t - 1].len()
    }
}

/// The flattened list has the templates' columns at their bases.
pub proof fn lemma_flat_index(cols: Seq<Seq<Seq<Seq<u8>>>>, t: int, j: int)
    requires
        0 <= t < cols.len(),
        0 <= j < cols[t].len(),
    ensures
        0 <= base_of(cols, t) + j < crate::serializer::flat_cols(cols).len(),
        crate::serializer::flat_cols(cols)[base_of(cols, t) + j] == cols[t][j],
        base_of(cols, t) + j < base_of(cols, t + 1),
    decreases t,
{
    lemma_base_of_end(cols, t + 1);
    lemma_base_of_end(cols, cols.len() as int);
    lemma_base_of_mono(cols, t + 1, cols.len() as int);
    if t == 0 {
        assert(crate::serializer::flat_cols(cols)[j] == cols[0][j]);
    } else {
        lemma_flat_index(cols.skip(1), t - 1, j);
        lemma_base_shift(cols, t);
        assert(crate::serializer::flat_cols(cols) == cols[0] + crate::serializer::flat_cols(
            cols.skip(1),
        ));
        assert(cols.skip(1)[t - 1] == cols[t]);
    }
}

/// `base_of` after the first template shifts by its width.
pub proof fn lemma_base_shift(cols: Seq<Seq<Seq<Seq<u8>>>>, t: int)
    requires
        1 <= t <= cols.len(),
    ensures
        base_of(cols, t) == cols[0].len() + base_of(cols.skip(1), t - 1),
    decreases t,
{
    if t == 1 {
        assert(base_of(cols, 0) == 0);
        assert(base_of(cols.skip(1), 0) == 0);
    } else {
        lemma_base_shift(cols, t - 1);
        assert(cols.skip(1)[t - 2] == cols[t - 1]);
    }
}

/// The flattened length is the last base.
pub proof fn lemma_base_of_end(cols: Seq<Seq<Seq<Seq<u8>>>>, t: int)
    requires
        0 <= t <= cols.len(),
    ensures
        base_of(cols, t) <= crate::serializer::flat_cols(cols).len(),
        t == cols.len() ==> base_of(cols, t) == crate::serializer::flat_cols(cols).len(),
    decreases cols.len(),
{
    if cols.len() == 0 {
    } else if t == 0 {
    } else {
        lemma_base_of_end(cols.skip(1), t - 1);
        lemma_base_shift(cols, t);
    }
}

/// Bases grow with the template index.
pub proof fn lemma_base_of_mono(cols: Seq<Seq<Seq<Seq<u8>>>>, t1: int, t2: int)
    requires
        0 <= t1 <= t2 <= cols.len(),
    ensures
        base_of(cols, t1) <= base_of(cols, t2),
    decreases t2 - t1,
{
    if t1 < t2 {
        lemma_base_of_mono(cols, t1, t2 - 1);
    }
}

/// Decodes the id stream with the given element width (1, 2 or 4 bytes).
#[verifier::loop_isolation(false)]
pub fn decode_ids_exec(data: &Vec<u8>, from: usize, to: usize, width: usize) -> (r: Vec<u32>)
    requires
        from <= to <= data@.len(),
        width == 1 || width == 2 || width == 4,
        (to - from) % (width as int) == 0,
    ensures
        width == 1 ==> r@ == ids_dec1(data@.subrange(from as int, to as int)),
        width == 2 ==> r@ == ids_dec2(data@.subrange(from as int, to as int)),
        width == 4 ==> r@ == ids_dec4(data@.subrange(from as int, to as int)),
{
    let mut out: Vec<u32> = Vec::new();
    let mut i = from;
    while i < to
        invariant
            from <= i <= to,
            (to - i) % (width as int) == 0,
            width == 1 ==> out@ + ids_dec1(data@.subrange(i as int, to as int)) == ids_dec1(
                data@.subrange(from as int, to as int),
            ),
            width == 2 ==> out@ + ids_dec2(data@.subrange(i as int, to as int)) == ids_dec2(
                data@.subrange(from as int, to as int),
            ),
            width == 4 ==> out@ + ids_dec4(data@.subrange(i as int, to as int)) == ids_dec4(
                data@.subrange(from as int, to as int),
            ),
        decreases to - i,
    {
        let ghost rest = data@.subrange(i as int, to as int);
        if width == 1 {
            proof {
                assert(rest.skip(1) =~= data@.subrange(i + 1, to as int));
            }
            out.push(data[i] as u32);
            i = i + 1;
        } else if width == 2 {
            proof {
                assert(rest.len() >= 2);
                assert(rest.skip(2) =~= data@.subrange(i + 2, to as int));
                assert(rest[1] == data@[i + 1]);
            }
            out.push((data[i] as u32) | ((data[i + 1] as u32) << 8));
            i = i + 2;
        } else {
            proof {
                assert(rest.len() >= 4);
                assert(rest.skip(4) =~= data@.subrange(i + 4, to as int));
                assert(rest[1] == data@[i + 1] && rest[2] == data@[i + 2] && rest[3] == data@[i
                    + 3]);
            }
            let v = crate::bytes_le::read_le32(data, i);
            out.push(v);
            i = i + 4;
        }
    }
    proof {
        assert(data@.subrange(i as int, to as int).len() == 0);
        if width == 1 {
            assert(out@ =~= ids_dec1(data@.subrange(from as int, to as int)));
        } else if width == 2 {
            assert(out@ =~= ids_dec2(data@.subrange(from as int, to as int)));
        } else {
            assert(out@ =~= ids_dec4(data@.subrange(from as int, to as int)));
        }
    }
    out
}

/// The fatal condition a block's framing raises, if any: a short block, a
/// length overrun, a registry that is not UTF-8, or a misaligned id stream.
pub open spec fn block_err(bytes: Seq<u8>) -> Option<CastError> {
    if bytes.len() == 0 {
        None
    } else if bytes.len() < 9 {
        Some(CastError::BlockTooShort)
    } else {
        let flag_low = bytes[0] & 0x7f;
        let lr = from_le32(bytes[1], bytes[2], bytes[3], bytes[4]) as int;
        let li = from_le32(bytes[5], bytes[6], bytes[7], bytes[8]) as int;
        let idlen = if flag_low == 3 {
            0int
        } else {
            li
        };
        if 9 + lr + idlen > bytes.len() {
            Some(CastError::CorruptedHeader)
        } else if !is_utf8(bytes.subrange(9, 9 + lr)) {
            Some(CastError::RegistryNotUtf8)
        } else if flag_low == 0 && li % 2 != 0 {
            Some(CastError::IdStreamMisaligned)
        } else if flag_low == 1 && li % 4 != 0 {
            Some(CastError::IdStreamMisaligned)
        } else {
            None
        }
    }
}

/// Lengths of the id encodings.
pub proof fn lemma_ids_enc_lens(ids: Seq<u32>)
    ensures
        ids_enc1(ids).len() == ids.len(),
        ids_enc2(ids).len() == 2 * ids.len(),
        ids_enc4(ids).len() == 4 * ids.len(),
    decreases ids.len(),
{
    if ids.len() > 0 {
        lemma_ids_enc_lens(ids.skip(1));
    }
}

/// When every id equals `t`, the count is the length.
pub proof fn lemma_occ_all(ids: Seq<u32>, t: u32)
    requires
        forall|r: int| 0 <= r < ids.len() ==> ids[r] == t,
    ensures
        occ_count(ids, t) == ids.len(),
    decreases ids.len(),
{
    if ids.len() > 0 {
        assert(forall|r: int|
            0 <= r < ids.drop_last().len() ==> ids.drop_last()[r] == ids[r]);
        lemma_occ_all(ids.drop_last(), t);
    }
}

/// Every flattened column is non-empty when every column is.
pub proof fn lemma_flat_elem_nonempty(cols: Seq<Seq<Seq<Seq<u8>>>>, k: int)
    requires
        forall|t: int, j: int|
            0 <= t < cols.len() && 0 <= j < cols[t].len() ==> (#[trigger] cols[t][j]).len() >= 1,
        0 <= k < crate::serializer::flat_cols(cols).len(),
    ensures
        crate::serializer::flat_cols(cols)[k].len() >= 1,
    decreases cols.len(),
{
    if cols.len() > 0 {
        if k < cols[0].len() {
            assert(crate::serializer::flat_cols(cols)[k] == cols[0][k]);
        } else {
            assert(forall|t: int|
                0 <= t < cols.skip(1).len() ==> #[trigger] cols.skip(1)[t] == cols[t + 1]);
            lemma_flat_elem_nonempty(cols.skip(1), k - cols[0].len());
            assert(crate::serializer::flat_cols(cols)[k] == crate::serializer::flat_cols(
                cols.skip(1),
            )[k - cols[0].len()]);
        }
    }
}

/// Exact bases and widths when the flattened list is exactly consumed: with
/// `flat_len` equal to the total column count, the greedy assignment gives
/// every template all of its columns.
pub proof fn lemma_bases_exact(
    bases: Seq<usize>,
    nvs: Seq<usize>,
    cols: Seq<Seq<Seq<Seq<u8>>>>,
    flat_len: int,
    t: int,
)
    requires
        bases.len() == cols.len(),
        nvs.len() == cols.len(),
        flat_len == base_of(cols, cols.len() as int),
        forall|u: int| 0 <= u < cols.len() ==> #[trigger] bases[u] == (if u == 0 {
            0int
        } else {
            bases[u - 1] + nvs[u - 1]
        }),
        forall|u: int| 0 <= u < cols.len() ==> #[trigger] nvs[u] as int == (if cols[u].len()
            <= flat_len - bases[u] {
            cols[u].len() as int
        } else {
            if flat_len >= bases[u] {
                flat_len - bases[u]
            } else {
                0int
            }
        }),
        0 <= t < cols.len(),
    ensures
        bases[t] == base_of(cols, t),
        nvs[t] == cols[t].len(),
    decreases t,
{
    if t > 0 {
        lemma_bases_exact(bases, nvs, cols, flat_len, t - 1);
    }
    assert(bases[t] == base_of(cols, t));
    lemma_base_of_end(cols, t + 1);
    lemma_base_of_mono(cols, t + 1, cols.len() as int);
    assert(base_of(cols, t + 1) == base_of(cols, t) + cols[t].len());
    assert(cols[t].len() <= flat_len - bases[t]);
}

/// The image hypothesis under which a block decodes exactly: the bytes are
/// the serialization of a well-formed row-group whose lengths fit the
/// header and whose registry is valid UTF-8.
pub open spec fn image_of(
    bytes: Seq<u8>,
    lat: bool,
    skels: Seq<Seq<u8>>,
    ids: Seq<u32>,
    cols: Seq<Seq<Seq<Seq<u8>>>>,
) -> bool {
    &&& state_wf(skels, ids, cols)
    &&& crate::serializer::lens_ok(skels, ids)
    &&& skels.len() >= 1
    &&& is_utf8(sep_join(skels))
    &&& bytes == crate::serializer::block_body(lat, skels, ids, cols)
}

/// Field decomposition of a serialized block.
pub proof fn lemma_block_fields(
    bytes: Seq<u8>,
    lat: bool,
    skels: Seq<Seq<u8>>,
    ids: Seq<u32>,
    cols: Seq<Seq<Seq<Seq<u8>>>>,
)
    requires
        image_of(bytes, lat, skels, ids, cols),
    ensures
        bytes.len() == 9 + sep_join(skels).len() + crate::serializer::ids_bytes(
            skels.len() as int,
            ids,
        ).len() + crate::serializer::vars_bytes(cols).len(),
        bytes[0] & 0x7f == crate::serializer::flag_low_of(skels.len() as int),
        (bytes[0] & 0x80 != 0) == lat,
        from_le32(bytes[1], bytes[2], bytes[3], bytes[4]) == sep_join(skels).len(),
        from_le32(bytes[5], bytes[6], bytes[7], bytes[8]) == crate::serializer::second_field(
            skels.len() as int,
            ids,
            cols,
        ),
        bytes.subrange(9, 9 + sep_join(skels).len() as int) == sep_join(skels),
        bytes.subrange(
            9 + sep_join(skels).len() as int,
            9 + sep_join(skels).len() as int + crate::serializer::ids_bytes(
                skels.len() as int,
                ids,
            ).len() as int,
        ) == crate::serializer::ids_bytes(skels.len() as int, ids),
        bytes.skip(
            9 + sep_join(skels).len() as int + crate::serializer::ids_bytes(
                skels.len() as int,
                ids,
            ).len() as int,
        ) == crate::serializer::vars_bytes(cols),
{
    let nt = skels.len() as int;
    let fl = crate::serializer::flag_low_of(nt);
    let flag = if lat {
        (fl | 0x80) as u8
    } else {
        fl
    };
    let jn = sep_join(skels);
    let idb = crate::serializer::ids_bytes(nt, ids);
    let vb = crate::serializer::vars_bytes(cols);
    let lr = jn.len() as u32;
    let sf = crate::serializer::second_field(nt, ids, cols);
    assert(bytes =~= seq![flag] + le32(lr) + le32(sf) + jn + idb + vb);
    assert(bytes[0] == flag);
    assert(fl == 0 || fl == 1 || fl == 2 || fl == 3);
    let flv = fl;
    assert(flv <= 3 ==> ((flv | 0x80) & 0x7f == flv && flv & 0x7f == flv && ((flv | 0x80) & 0x80)
        != 0 && (flv & 0x80) == 0)) by (bit_vector);
    assert(bytes[1] == le32(lr)[0] && bytes[2] == le32(lr)[1] && bytes[3] == le32(lr)[2]
        && bytes[4] == le32(lr)[3]);
    crate::bytes_le::lemma_le32_inverse(lr);
    assert(bytes[5] == le32(sf)[0] && bytes[6] == le32(sf)[1] && bytes[7] == le32(sf)[2]
        && bytes[8] == le32(sf)[3]);
    crate::bytes_le::lemma_le32_inverse(sf);
    assert(bytes.subrange(9, 9 + jn.len() as int) =~= jn);
    assert(bytes.subrange(9 + jn.len() as int, 9 + jn.len() as int + idb.len() as int) =~= idb);
    assert(bytes.skip(9 + jn.len() as int + idb.len() as int) =~= vb);
}

/// On a serializer image, the parsed skeletons, ids and cell lists equal
/// the state's own.
#[verifier::rlimit(100)]
pub proof fn lemma_decode_parsed(
    data: Seq<u8>,
    skels_deep: Seq<Seq<u8>>,
    rids: Seq<u32>,
    flatv: Seq<Seq<Seq<u8>>>,
    lat: bool,
    skels: Seq<Seq<u8>>,
    ids: Seq<u32>,
    cols: Seq<Seq<Seq<Seq<u8>>>>,
)
    requires
        image_of(data, lat, skels, ids, cols),
        ({
            let lr = from_le32(data[1], data[2], data[3], data[4]) as int;
            let li = from_le32(data[5], data[6], data[7], data[8]) as int;
            let fl = data[0] & 0x7f;
            let idlen = if fl == 3 {
                0int
            } else {
                li
            };
            &&& skels_deep == sep_split(data.subrange(9, 9 + lr))
            &&& (fl == 2 ==> rids == ids_dec1(data.subrange(9 + lr, 9 + lr + idlen)))
            &&& (fl == 0 ==> rids == ids_dec2(data.subrange(9 + lr, 9 + lr + idlen)))
            &&& (fl == 1 ==> rids == ids_dec4(data.subrange(9 + lr, 9 + lr + idlen)))
            &&& (fl == 3 ==> (forall|r: int| 0 <= r < rids.len() ==> rids[r] == 0)
                && rids.len() as int == (if li > 0 {
                li
            } else if flatv.len() > 0 {
                flatv[0].len() as int
            } else {
                0int
            }))
            &&& flatv.len() == cols_split(data.skip(9 + lr + idlen)).len()
            &&& (forall|k: int|
                0 <= k < flatv.len() ==> #[trigger] flatv[k] == cells_split(
                    cols_split(data.skip(9 + lr + idlen))[k],
                ))
        }),
    ensures
        skels_deep == skels,
        rids == ids,
        flatv == crate::serializer::flat_cols(cols),
{
    let nt = skels.len() as int;
    lemma_block_fields(data, lat, skels, ids, cols);
    let jn = sep_join(skels);
    let idb = crate::serializer::ids_bytes(nt, ids);
    let vb = crate::serializer::vars_bytes(cols);
    let lr = jn.len() as int;
    let fl = crate::serializer::flag_low_of(nt);
    let sf = crate::serializer::second_field(nt, ids, cols);
    lemma_ids_enc_lens(ids);
    let idlen = if fl == 3 {
        0int
    } else {
        sf as int
    };
    assert(idlen == idb.len());
    assert(data.subrange(9, 9 + lr) == jn);
    lemma_sep_split_join(skels);
    assert(skels_deep == skels);
    assert(data.subrange(9 + lr, 9 + lr + idlen) =~= idb);
    if fl == 2 {
        assert(nt >= 2 && nt < 256);
        assert(forall|r: int| 0 <= r < ids.len() ==> (#[trigger] ids[r] as int) < nt);
        lemma_ids_dec1_enc1(ids);
    } else if fl == 0 {
        assert(256 <= nt <= 65535);
        assert(forall|r: int| 0 <= r < ids.len() ==> (#[trigger] ids[r] as int) < nt);
        lemma_ids_dec2_enc2(ids);
    } else if fl == 1 {
        lemma_ids_dec4_enc4(ids);
    }
    assert(data.skip(9 + lr + idlen) == vb);
    let flat = crate::serializer::flat_cols(cols);
    crate::escape::lemma_cols_split_enc(flat);
    assert(cols_split(vb) == flat.map_values(|cells: Seq<Seq<u8>>| crate::escape::cells_enc(
        cells,
    )));
    assert(flatv.len() == flat.len());
    assert forall|k: int| 0 <= k < flat.len() implies #[trigger] flatv[k] == flat[k] by {
        assert(cols_split(vb)[k] == crate::escape::cells_enc(flat[k]));
        assert forall|t: int, j: int|
            0 <= t < cols.len() && 0 <= j < cols[t].len() implies (#[trigger] cols[t][j]).len()
                >= 1 by {
            assert(cols[t][j].len() == occ_count(ids, t as u32));
            assert(occ_count(ids, t as u32) >= 1);
        }
        lemma_flat_elem_nonempty(cols, k);
        crate::escape::lemma_cells_split_enc(flat[k]);
    }
    assert(flatv =~= flat);
    if fl == 3 {
        assert(nt == 1);
        assert(forall|r: int| 0 <= r < ids.len() ==> ids[r] == 0);
        lemma_occ_all(ids, 0);
        if cols[0].len() == 0 {
            assert(sf as int == ids.len());
            assert(occ_count(ids, 0) >= 1);
            assert(rids.len() == ids.len());
        } else {
            assert(sf == 0);
            lemma_flat_index(cols, 0, 0);
            assert(base_of(cols, 0) == 0);
            assert(flatv[0] == cols[0][0]);
            assert(cols[0][0].len() == occ_count(ids, 0));
            assert(rids.len() == ids.len());
        }
        assert(rids =~= ids);
    }
}

/// With exact bases and widths, the assembled queues are the state's own
/// columns.
pub proof fn lemma_decode_queues(
    bases: Seq<usize>,
    nvs: Seq<usize>,
    q0: Seq<Seq<Seq<Seq<u8>>>>,
    skels: Seq<Seq<u8>>,
    flatv: Seq<Seq<Seq<u8>>>,
    cols: Seq<Seq<Seq<Seq<u8>>>>,
)
    requires
        flatv == crate::serializer::flat_cols(cols),
        cols.len() == skels.len(),
        forall|t: int| 0 <= t < skels.len() ==> (#[trigger] cols[t]).len() == count_ph(skels[t]),
        bases.len() == skels.len(),
        nvs.len() == skels.len(),
        forall|u: int| 0 <= u < skels.len() ==> #[trigger] bases[u] as int == (if u == 0 {
            0int
        } else {
            bases[u - 1] + nvs[u - 1]
        }),
        forall|u: int| 0 <= u < skels.len() ==> #[trigger] nvs[u] as int == (if count_ph(
            skels[u],
        ) <= flatv.len() - bases[u] {
            count_ph(skels[u]) as int
        } else {
            if flatv.len() >= bases[u] {
                flatv.len() - bases[u]
            } else {
                0int
            }
        }),
        q0.len() == skels.len(),
        forall|t: int| 0 <= t < q0.len() ==> (#[trigger] q0[t]).len() == nvs[t],
        forall|t: int, j: int|
            0 <= t < q0.len() && 0 <= j < nvs[t] ==> bases[t] + j < flatv.len()
                && #[trigger] q0[t][j] == flatv[bases[t] + j],
    ensures
        q0 == cols,
{
    let nt = skels.len() as int;
    lemma_base_of_end(cols, cols.len() as int);
    assert forall|t: int| 0 <= t < nt implies #[trigger] bases[t] as int == base_of(cols, t)
        && nvs[t] == cols[t].len() by {
        assert(count_ph(skels[t]) == cols[t].len());
        lemma_bases_exact(bases, nvs, cols, flatv.len() as int, t);
    }
    assert forall|t: int| 0 <= t < nt implies #[trigger] q0[t] == cols[t] by {
        assert forall|j: int| 0 <= j < cols[t].len() implies #[trigger] q0[t][j] == cols[t][j] by {
            lemma_flat_index(cols, t, j);
            assert(q0[t][j] == flatv[bases[t] + j]);
        }
        assert(q0[t] =~= cols[t]);
    }
    assert(q0 =~= cols);
}

/// Nothing consumed yet: the queues are the whole columns.
pub proof fn lemma_consumed_zero(cols: Seq<Seq<Seq<Seq<u8>>>>, ids: Seq<u32>)
    ensures
        consumed(cols, ids, 0) == cols,
{
    assert forall|t: int| 0 <= t < cols.len() implies #[trigger] consumed(cols, ids, 0)[t]
        == cols[t] by {
        assert(ids.take(0) =~= Seq::<u32>::empty());
        assert forall|j: int| 0 <= j < cols[t].len() implies #[trigger] consumed(
            cols,
            ids,
            0,
        )[t][j] == cols[t][j] by {
            assert(occ_count(ids.take(0), t as u32) == 0);
            assert(cols[t][j].skip(0) =~= cols[t][j]);
        }
        assert(consumed(cols, ids, 0)[t] =~= cols[t]);
    }
    assert(consumed(cols, ids, 0) =~= cols);
}

/// Composition: on an image, the decoder's output is the selected lines.
#[verifier::rlimit(100)]
#[verifier::spinoff_prover]
pub proof fn lemma_decode_image(
    data: Seq<u8>,
    start_row: u64,
    target: Option<(u64, u64)>,
    skels_deep: Seq<Seq<u8>>,
    rids: Seq<u32>,
    flatv: Seq<Seq<Seq<u8>>>,
    bases: Seq<usize>,
    nvs: Seq<usize>,
    q0: Seq<Seq<Seq<Seq<u8>>>>,
    out: Seq<u8>,
    lat: bool,
    skels: Seq<Seq<u8>>,
    ids: Seq<u32>,
    cols: Seq<Seq<Seq<Seq<u8>>>>,
)
    requires
        image_of(data, lat, skels, ids, cols),
        ({
            let lr = from_le32(data[1], data[2], data[3], data[4]) as int;
            let li = from_le32(data[5], data[6], data[7], data[8]) as int;
            let fl = data[0] & 0x7f;
            let idlen = if fl == 3 {
                0int
            } else {
                li
            };
            &&& skels_deep == sep_split(data.subrange(9, 9 + lr))
            &&& (fl == 2 ==> rids == ids_dec1(data.subrange(9 + lr, 9 + lr + idlen)))
            &&& (fl == 0 ==> rids == ids_dec2(data.subrange(9 + lr, 9 + lr + idlen)))
            &&& (fl == 1 ==> rids == ids_dec4(data.subrange(9 + lr, 9 + lr + idlen)))
            &&& (fl == 3 ==> (forall|r: int| 0 <= r < rids.len() ==> rids[r] == 0)
                && rids.len() as int == (if li > 0 {
                li
            } else if flatv.len() > 0 {
                flatv[0].len() as int
            } else {
                0int
            }))
            &&& flatv.len() == cols_split(data.skip(9 + lr + idlen)).len()
            &&& (forall|k: int|
                0 <= k < flatv.len() ==> #[trigger] flatv[k] == cells_split(
                    cols_split(data.skip(9 + lr + idlen))[k],
                ))
        }),
        bases.len() == skels_deep.len(),
        nvs.len() == skels_deep.len(),
        forall|u: int| 0 <= u < skels_deep.len() ==> #[trigger] bases[u] as int == (if u == 0 {
            0int
        } else {
            bases[u - 1] + nvs[u - 1]
        }),
        forall|u: int| 0 <= u < skels_deep.len() ==> #[trigger] nvs[u] as int == (if count_ph(
            skels_deep[u],
        ) <= flatv.len() - bases[u] {
            count_ph(skels_deep[u]) as int
        } else {
            if flatv.len() >= bases[u] {
                flatv.len() - bases[u]
            } else {
                0int
            }
        }),
        q0.len() == skels_deep.len(),
        forall|t: int| 0 <= t < q0.len() ==> (#[trigger] q0[t]).len() == nvs[t],
        forall|t: int, j: int|
            0 <= t < q0.len() && 0 <= j < nvs[t] ==> bases[t] + j < flatv.len()
                && #[trigger] q0[t][j] == flatv[bases[t] + j],
        out == run_rows(skels_deep, q0, rids, start_row as int, target),
    ensures
        out == sel_concat(block_lines(skels, ids, cols), start_row as int, target),
{
    lemma_decode_parsed(data, skels_deep, rids, flatv, lat, skels, ids, cols);
    lemma_decode_queues(bases, nvs, q0, skels, flatv, cols);
    lemma_consumed_zero(cols, ids);
    lemma_run_rows_image(skels, ids, cols, 0, start_row as int, target);
    assert(ids.skip(0) =~= ids);
    assert(block_lines(skels, ids, cols).skip(0) =~= block_lines(skels, ids, cols));
}

/// Copies `data[from..to]` into a fresh vector.
#[verifier::loop_isolation(false)]
pub fn copy_range(data: &Vec<u8>, from: usize, to: usize) -> (r: Vec<u8>)
    requires
        from <= to <= data@.len(),
    ensures
        r@ == data@.subrange(from as int, to as int),
{
    let mut out: Vec<u8> = Vec::new();
    let mut i = from;
    while i < to
        invariant
            from <= i <= to,
            out@ == data@.subrange(from as int, i as int),
        decreases to - i,
    {
        out.push(data[i]);
        assert(out@ =~= data@.subrange(from as int, i + 1));
        i = i + 1;
    }
    out
}

/// Copies one cell of a cell list.
#[verifier::loop_isolation(false)]
fn copy_cell(cells: &Vec<Vec<u8>>, idx: usize) -> (r: Vec<u8>)
    requires
        idx < cells@.len(),
    ensures
        r@ == cells@[idx as int]@,
{
    let cell = &cells[idx];
    let n = cell.len();
    let mut out: Vec<u8> = Vec::new();
    let mut i: usize = 0;
    while i < n
        invariant
            i <= n,
            n == cell@.len(),
            out@ == cell@.take(i as int),
        decreases n - i,
    {
        out.push(cell[i]);
        assert(out@ =~= cell@.take(i + 1));
        i = i + 1;
    }
    proof {
        assert(cell@.take(n as int) =~= cell@);
    }
    out
}

/// Finds the first registry separator at or after `from`.
#[verifier::loop_isolation(false)]
fn find_rsep_from(data: &Vec<u8>, from: usize) -> (r: Option<usize>)
    requires
        from <= data@.len(),
    ensures
        match find_rsep(data@.skip(from as int)) {
            Some(i) => r == Some((from + i) as usize),
            None => r is None,
        },
{
    let n = data.len();
    let mut i = from;
    while n - i >= 3
        invariant
            from <= i <= n,
            ({
                match find_rsep(data@.skip(from as int)) {
                    Some(k) => match find_rsep(data@.skip(i as int)) {
                        Some(k2) => k == i - from + k2,
                        None => false,
                    },
                    None => find_rsep(data@.skip(i as int)) is None,
                }
            }),
        decreases n - i,
    {
        let ghost rest = data@.skip(i as int);
        proof {
            assert(rest.len() >= 3);
            assert(rest.subrange(0, 3) =~= data@.subrange(i as int, i + 3));
            assert(rest.skip(1) =~= data@.skip(i + 1));
        }
        if data[i] == 0xEE && data[i + 1] == 0x80 && data[i + 2] == 0x81 {
            proof {
                assert(rest.subrange(0, 3)[0] == data@[i as int]);
                assert(rest.subrange(0, 3)[1] == data@[i + 1]);
                assert(rest.subrange(0, 3)[2] == data@[i + 2]);
                assert(rest.subrange(0, 3) =~= rsep());
            }
            return Some(i);
        }
        proof {
            if rest.subrange(0, 3) == rsep() {
                assert(rest.subrange(0, 3)[0] == data@[i as int]);
                assert(rest.subrange(0, 3)[1] == data@[i + 1]);
                assert(rest.subrange(0, 3)[2] == data@[i + 2]);
                assert(false);
            }
        }
        i = i + 1;
    }
    proof {
        assert(data@.skip(i as int).len() < 3);
    }
    None
}

/// Splits registry bytes into skeletons at each separator.
#[verifier::loop_isolation(false)]
pub fn split_rsep_exec(data: &Vec<u8>) -> (r: Vec<Vec<u8>>)
    ensures
        crate::tokenizer::views_of(r@) == sep_split(data@),
{
    let n = data.len();
    let mut out: Vec<Vec<u8>> = Vec::new();
    let mut cur: usize = 0;
    proof {
        assert(data@.skip(0) =~= data@);
    }
    loop
        invariant
            cur <= n,
            n == data@.len(),
            crate::tokenizer::views_of(out@) + sep_split(data@.skip(cur as int)) == sep_split(
                data@,
            ),
        decreases n - cur,
    {
        let ghost rest = data@.skip(cur as int);
        let ghost out_before = out@;
        match find_rsep_from(data, cur) {
            Some(p) => {
                proof {
                    lemma_find_rsep_in_range(rest);
                    assert(rest.take(p - cur) =~= data@.subrange(cur as int, p as int));
                    assert(rest.skip(p - cur + 3) =~= data@.skip(p + 3));
                }
                let piece = copy_range(data, cur, p);
                out.push(piece);
                proof {
                    assert(crate::tokenizer::views_of(out@) =~= crate::tokenizer::views_of(
                        out_before,
                    ) + seq![data@.subrange(cur as int, p as int)]);
                }
                cur = p + 3;
            },
            None => {
                let piece = copy_range(data, cur, n);
                out.push(piece);
                proof {
                    assert(rest =~= data@.subrange(cur as int, n as int));
                    assert(crate::tokenizer::views_of(out@) =~= crate::tokenizer::views_of(
                        out_before,
                    ) + seq![rest]);
                    assert(sep_split(rest) =~= seq![rest]);
                }
                return out;
            },
        }
    }
}

/// Bases are disjoint: one template's columns end before a later one's
/// begin.
#[verifier::rlimit(50)]
proof fn lemma_bases_mono(bases: Seq<usize>, nvs: Seq<usize>, u1: int, u2: int)
    requires
        bases.len() == nvs.len(),
        forall|u: int| 0 <= u < bases.len() ==> #[trigger] bases[u] as int == (if u == 0 {
            0int
        } else {
            bases[u - 1] + nvs[u - 1]
        }),
        0 <= u1 < u2 < bases.len(),
    ensures
        bases[u1] + nvs[u1] <= bases[u2],
    decreases u2 - u1,
{
    if u1 + 1 < u2 {
        lemma_bases_mono(bases, nvs, u1 + 1, u2);
    }
}


/// The queues a decoder starts from: template `t` owns `nvs[t]` columns
/// starting at `bases[t]` of the flattened column list.
pub open spec fn initial_queues(
    flatv: Seq<Seq<Seq<u8>>>,
    bases: Seq<usize>,
    nvs: Seq<usize>,
) -> Seq<Seq<Seq<Seq<u8>>>> {
    Seq::new(
        bases.len(),
        |t: int| Seq::new(nvs[t] as nat, |j: int| flatv[bases[t] + j]),
    )
}

/// Greedy assignment of the flattened columns to the templates: each takes
/// one column per placeholder, as long as columns remain.
#[verifier::loop_isolation(false)]
fn compute_bases(skels_vec: &Vec<Vec<u8>>, flat_len: usize) -> (r: (Vec<usize>, Vec<usize>))
    ensures
        r.0@.len() == skels_vec@.len(),
        r.1@.len() == skels_vec@.len(),
        forall|u: int| 0 <= u < skels_vec@.len() ==> #[trigger] r.0@[u] as int == (if u == 0 {
            0int
        } else {
            r.0@[u - 1] + r.1@[u - 1]
        }),
        forall|u: int| 0 <= u < skels_vec@.len() ==> #[trigger] r.1@[u] as int == (if count_ph(
            crate::tokenizer::views_of(skels_vec@)[u],
        ) <= flat_len - r.0@[u] {
            count_ph(crate::tokenizer::views_of(skels_vec@)[u]) as int
        } else {
            if flat_len >= r.0@[u] {
                flat_len as int - r.0@[u]
            } else {
                0int
            }
        }),
        forall|u: int|
            0 <= u < skels_vec@.len() ==> (#[trigger] r.0@[u]) + r.1@[u] <= flat_len,
{
    let nt = skels_vec.len();
    let mut bases: Vec<usize> = Vec::new();
    let mut nvs: Vec<usize> = Vec::new();
    let mut acc: usize = 0;
    let mut t: usize = 0;
    while t < nt
        invariant
            t <= nt,
            bases@.len() == t,
            nvs@.len() == t,
            acc <= flat_len,
            t > 0 ==> acc as int == bases@[t - 1] + nvs@[t - 1],
            t == 0 ==> acc == 0,
            forall|u: int| 0 <= u < t ==> #[trigger] bases@[u] as int == (if u == 0 {
                0int
            } else {
                bases@[u - 1] + nvs@[u - 1]
            }),
            forall|u: int| 0 <= u < t ==> #[trigger] nvs@[u] as int == (if count_ph(
                crate::tokenizer::views_of(skels_vec@)[u],
            ) <= flat_len - bases@[u] {
                count_ph(crate::tokenizer::views_of(skels_vec@)[u]) as int
            } else {
                if flat_len >= bases@[u] {
                    flat_len as int - bases@[u]
                } else {
                    0int
                }
            }),
            forall|u: int| 0 <= u < t ==> (#[trigger] bases@[u]) + nvs@[u] <= flat_len,
        decreases nt - t,
    {
        let cph = crate::tokenizer::count_ph_exec(&skels_vec[t]);
        let avail = flat_len - acc;
        let nv = if cph <= avail {
            cph
        } else {
            avail
        };
        bases.push(acc);
        nvs.push(nv);
        acc = acc + nv;
        t = t + 1;
    }
    (bases, nvs)
}

/// One queue column is the unconsumed suffix of its flattened column.
pub open spec fn slot_ok(
    q: Seq<Seq<Seq<Seq<u8>>>>,
    flatv: Seq<Seq<Seq<u8>>>,
    bases: Seq<usize>,
    curs: Seq<usize>,
    t: int,
    j: int,
) -> bool {
    &&& curs[bases[t] + j] <= flatv[bases[t] + j].len()
    &&& q[t][j] == flatv[bases[t] + j].skip(curs[bases[t] + j] as int)
}

/// The cursor state describes the remaining cells of every queue.
pub open spec fn queues_match(
    q: Seq<Seq<Seq<Seq<u8>>>>,
    flatv: Seq<Seq<Seq<u8>>>,
    bases: Seq<usize>,
    nvs: Seq<usize>,
    curs: Seq<usize>,
) -> bool {
    &&& q.len() == bases.len()
    &&& (forall|t: int| 0 <= t < q.len() ==> (#[trigger] q[t]).len() == nvs[t])
    &&& (forall|t: int, j: int|
        0 <= t < q.len() && 0 <= j < nvs[t] ==> #[trigger] slot_ok(q, flatv, bases, curs, t, j))
}

/// Pops one row of template `ti`: returns the head cell of each of its
/// columns (empty where a column is missing or exhausted) and advances the
/// cursors accordingly.
#[verifier::loop_isolation(false)]
#[verifier::rlimit(100)]
fn consume_row(
    skels_vec: &Vec<Vec<u8>>,
    flat_cells: &Vec<Vec<Vec<u8>>>,
    bases: &Vec<usize>,
    nvs: &Vec<usize>,
    cursors: &mut Vec<usize>,
    ti: usize,
    Ghost(q): Ghost<Seq<Seq<Seq<Seq<u8>>>>>,
) -> (cells_r: Vec<Vec<u8>>)
    requires
        bases@.len() == skels_vec@.len(),
        nvs@.len() == skels_vec@.len(),
        forall|u: int| 0 <= u < skels_vec@.len() ==> #[trigger] bases@[u] as int == (if u == 0 {
            0int
        } else {
            bases@[u - 1] + nvs@[u - 1]
        }),
        forall|u: int|
            0 <= u < skels_vec@.len() ==> (#[trigger] bases@[u]) + nvs@[u] <= flat_cells@.len(),
        ti < skels_vec@.len(),
        old(cursors)@.len() == flat_cells@.len(),
        queues_match(q, views2(flat_cells@), bases@, nvs@, old(cursors)@),
    ensures
        final(cursors)@.len() == flat_cells@.len(),
        crate::tokenizer::views_of(cells_r@) == row_heads(
            q[ti as int],
            count_ph(crate::tokenizer::views_of(skels_vec@)[ti as int]),
        ),
        queues_match(
            pop_t(q, ti as int),
            views2(flat_cells@),
            bases@,
            nvs@,
            final(cursors)@,
        ),
{
    let ghost skels_deep = crate::tokenizer::views_of(skels_vec@);
    let ghost flatv = views2(flat_cells@);
    let nt = skels_vec.len();
    let flat_len = flat_cells.len();
    let cph = crate::tokenizer::count_ph_exec(&skels_vec[ti]);
    let mut cells_r: Vec<Vec<u8>> = Vec::new();
    let mut j: usize = 0;
    while j < cph
        invariant
            j <= cph,
            cph == count_ph(skels_deep[ti as int]),
            cells_r@.len() == j,
            cursors@ == old(cursors)@,
            forall|jj: int|
                0 <= jj < j ==> #[trigger] crate::tokenizer::views_of(cells_r@)[jj]
                    == row_heads(q[ti as int], count_ph(skels_deep[ti as int]))[jj],
        decreases cph - j,
    {
        let ghost expected = row_heads(q[ti as int], count_ph(skels_deep[ti as int]))[j as int];
        let ghost cells_before = cells_r@;
        let pushed: Vec<u8> = if j < nvs[ti] {
            let fi = bases[ti] + j;
            let cur = cursors[fi];
            if cur < flat_cells[fi].len() {
                proof {
                    assert(slot_ok(q, flatv, bases@, cursors@, ti as int, j as int));
                    assert(q[ti as int][j as int] == flatv[fi as int].skip(cur as int));
                    assert(q[ti as int][j as int].len() > 0);
                    assert(q[ti as int][j as int][0] == flatv[fi as int][cur as int]);
                    assert(flatv[fi as int][cur as int] == crate::tokenizer::views_of(
                        flat_cells@[fi as int]@,
                    )[cur as int]);
                }
                copy_cell(&flat_cells[fi], cur)
            } else {
                proof {
                    assert(slot_ok(q, flatv, bases@, cursors@, ti as int, j as int));
                    assert(q[ti as int][j as int] == flatv[fi as int].skip(cur as int));
                    assert(q[ti as int][j as int].len() == 0);
                }
                Vec::new()
            }
        } else {
            proof {
                assert(q[ti as int].len() == nvs@[ti as int]);
            }
            Vec::new()
        };
        let ghost pv = pushed@;
        proof {
            assert(pv == expected);
        }
        cells_r.push(pushed);
        proof {
            assert(crate::tokenizer::views_of(cells_r@) =~= crate::tokenizer::views_of(
                cells_before,
            ).push(pv));
        }
        j = j + 1;
    }
    proof {
        assert(crate::tokenizer::views_of(cells_r@) =~= row_heads(
            q[ti as int],
            count_ph(skels_deep[ti as int]),
        ));
    }
    // Advance the cursors of this template's columns.
    let ghost cursors_before = cursors@;
    let mut j2: usize = 0;
    while j2 < nvs[ti]
        invariant
            j2 <= nvs@[ti as int],
            cursors@.len() == flat_len,
            forall|f: int|
                0 <= f < flat_len && !(bases@[ti as int] <= f < bases@[ti as int] + j2)
                    ==> #[trigger] cursors@[f] == cursors_before[f],
            forall|jj: int|
                0 <= jj < j2 ==> #[trigger] cursors@[bases@[ti as int] + jj] as int == (
                if cursors_before[bases@[ti as int] + jj] < flatv[bases@[ti as int]
                    + jj].len() {
                    cursors_before[bases@[ti as int] + jj] + 1
                } else {
                    cursors_before[bases@[ti as int] + jj] as int
                }),
        decreases nvs@[ti as int] - j2,
    {
        let fi = bases[ti] + j2;
        let cur = cursors[fi];
        if cur < flat_cells[fi].len() {
            let p = &mut cursors[fi];
            *p = cur + 1;
        }
        j2 = j2 + 1;
    }
    proof {
        let qn = pop_t(q, ti as int);
        assert(q.len() == bases@.len());
        assert(q.len() == nt as int);
        assert(qn.len() == q.len());
        assert forall|t: int, j: int| 0 <= t < qn.len() && 0 <= j < nvs@[t] implies #[trigger] slot_ok(
            qn,
            flatv,
            bases@,
            cursors@,
            t,
            j,
        ) by {
            if t == ti as int {
                let a = cursors_before[bases@[t] + j] as int;
                assert(slot_ok(q, flatv, bases@, cursors_before, t, j));
                assert(q[t][j] == flatv[bases@[t] + j].skip(a));
                if a < flatv[bases@[t] + j].len() {
                    assert(q[t][j].len() > 0);
                    assert(qn[t][j] == q[t][j].skip(1));
                    assert(flatv[bases@[t] + j].skip(a).skip(1) =~= flatv[bases@[t] + j].skip(
                        a + 1,
                    ));
                } else {
                    assert(q[t][j].len() == 0);
                    assert(qn[t][j] == q[t][j]);
                }
            } else {
                // Another template's columns live in a disjoint range.
                if t < ti as int {
                    lemma_bases_mono(bases@, nvs@, t, ti as int);
                } else {
                    lemma_bases_mono(bases@, nvs@, ti as int, t);
                }
                assert(slot_ok(q, flatv, bases@, cursors_before, t, j));
                assert(cursors@[bases@[t] + j] == cursors_before[bases@[t] + j]);
                assert(qn[t][j] == q[t][j]);
            }
            assert(slot_ok(qn, flatv, bases@, cursors@, t, j));
        }
        assert forall|t: int| 0 <= t < qn.len() implies (#[trigger] qn[t]).len() == nvs@[t] by {
            if t != ti as int {
                assert(qn[t] == q[t]);
            }
        }
        assert(queues_match(qn, flatv, bases@, nvs@, cursors@));
    }
    cells_r
}

/// Reconstructs all rows of a block, consuming one cell per column per row
/// and emitting only the rows inside the selection.
#[verifier::loop_isolation(false)]
#[verifier::rlimit(100)]
fn run_rows_exec(
    skels_vec: &Vec<Vec<u8>>,
    flat_cells: &Vec<Vec<Vec<u8>>>,
    bases: &Vec<usize>,
    nvs: &Vec<usize>,
    rids: &Vec<u32>,
    start_row: u64,
    target: Option<(u64, u64)>,
) -> (out: Vec<u8>)
    requires
        bases@.len() == skels_vec@.len(),
        nvs@.len() == skels_vec@.len(),
        forall|u: int| 0 <= u < skels_vec@.len() ==> #[trigger] bases@[u] as int == (if u == 0 {
            0int
        } else {
            bases@[u - 1] + nvs@[u - 1]
        }),
        forall|u: int|
            0 <= u < skels_vec@.len() ==> (#[trigger] bases@[u]) + nvs@[u] <= flat_cells@.len(),
    ensures
        out@ == run_rows(
            crate::tokenizer::views_of(skels_vec@),
            initial_queues(views2(flat_cells@), bases@, nvs@),
            rids@,
            start_row as int,
            target,
        ),
{
    let ghost skels_deep = crate::tokenizer::views_of(skels_vec@);
    let ghost flatv = views2(flat_cells@);
    let ghost q0 = initial_queues(flatv, bases@, nvs@);
    let nt = skels_vec.len();
    let flat_len = flat_cells.len();
    let rows = rids.len();
    let mut cursors: Vec<usize> = Vec::new();
    let mut c0: usize = 0;
    while c0 < flat_len
        invariant
            c0 <= flat_len,
            cursors@.len() == c0,
            forall|f: int| 0 <= f < c0 ==> #[trigger] cursors@[f] == 0,
        decreases flat_len - c0,
    {
        cursors.push(0);
        c0 = c0 + 1;
    }
    let ghost mut q: Seq<Seq<Seq<Seq<u8>>>> = q0;
    let mut out: Vec<u8> = Vec::new();
    let mut r: usize = 0;
    proof {
        assert(rids@.skip(0) =~= rids@);
        assert(q.len() == bases@.len());
        assert forall|tt: int, j: int| 0 <= tt < q.len() && 0 <= j < nvs@[tt] implies #[trigger] slot_ok(
            q,
            flatv,
            bases@,
            cursors@,
            tt,
            j,
        ) by {
            assert(cursors@[bases@[tt] + j] == 0);
            assert(flatv[bases@[tt] + j].skip(0) =~= flatv[bases@[tt] + j]);
            assert(q[tt][j] == flatv[bases@[tt] + j]);
        }
        assert(queues_match(q, flatv, bases@, nvs@, cursors@));
    }
    while r < rows
        invariant
            r <= rows,
            rows == rids@.len(),
            cursors@.len() == flat_len,
            queues_match(q, flatv, bases@, nvs@, cursors@),
            out@ + run_rows(skels_deep, q, rids@.skip(r as int), start_row + r, target)
                == run_rows(skels_deep, q0, rids@, start_row as int, target),
        decreases rows - r,
    {
        let ghost rest_ids = rids@.skip(r as int);
        proof {
            assert(rest_ids[0] == rids@[r as int]);
            assert(rest_ids.skip(1) =~= rids@.skip(r + 1));
        }
        let tid = rids[r];
        if tid as usize >= nt {
            proof {
                assert(run_rows(skels_deep, q, rest_ids, start_row + r, target) == run_rows(
                    skels_deep,
                    q,
                    rest_ids.skip(1),
                    start_row + r + 1,
                    target,
                ));
            }
            r = r + 1;
            continue;
        }
        let ti = tid as usize;
        let cells_r = consume_row(
            skels_vec,
            flat_cells,
            bases,
            nvs,
            &mut cursors,
            ti,
            Ghost(q),
        );
        let selected: bool = match target {
            Some(p) => {
                let actual: u128 = start_row as u128 + r as u128;
                actual >= p.0 as u128 && actual <= p.1 as u128
            },
            None => true,
        };
        proof {
            assert(selected == sel(start_row + r, target));
        }
        if selected {
            crate::tokenizer::emit_row(&mut out, &skels_vec[ti], &cells_r);
        }
        proof {
            let qn = pop_t(q, ti as int);
            assert(run_rows(skels_deep, q, rest_ids, start_row + r, target) == (if sel(
                start_row + r,
                target,
            ) {
                recon(
                    skels_deep[ti as int],
                    row_heads(q[ti as int], count_ph(skels_deep[ti as int])),
                )
            } else {
                Seq::<u8>::empty()
            }) + run_rows(skels_deep, qn, rest_ids.skip(1), start_row + r + 1, target));
            q = qn;
        }
        r = r + 1;
    }
    proof {
        assert(rids@.skip(rows as int).len() == 0);
        assert(out@ =~= run_rows(skels_deep, q0, rids@, start_row as int, target));
    }
    out
}

/// Parses one decompressed row-group and returns its reconstructed lines,
/// keeping only rows whose global index is inside `target` when a range is
/// requested.  Errors exactly on the framing faults of `block_err`; on the
/// serialization of a well-formed row-group it returns exactly that
/// row-group's selected lines.
#[verifier::loop_isolation(false)]
#[verifier::rlimit(100)]
pub fn decode_block(data: &Vec<u8>, start_row: u64, target: Option<(u64, u64)>) -> (r: Result<
    Vec<u8>,
    CastError,
>)
    ensures
        match r {
            Ok(_) => block_err(data@) is None,
            Err(e) => block_err(data@) == Some(e),
        },
        forall|lat: bool, skels: Seq<Seq<u8>>, ids: Seq<u32>, cols: Seq<Seq<Seq<Seq<u8>>>>|
            #[trigger] image_of(data@, lat, skels, ids, cols) ==> r is Ok && r.unwrap()@ == (
            if lat {
                crate::latin1::latin1_encode(
                    sel_concat(block_lines(skels, ids, cols), start_row as int, target),
                )
            } else {
                sel_concat(block_lines(skels, ids, cols), start_row as int, target)
            }),
{
    let n = data.len();
    if n == 0 {
        proof {
            assert forall|lat: bool, skels: Seq<Seq<u8>>, ids: Seq<u32>, cols: Seq<
                Seq<Seq<Seq<u8>>>,
            >| #[trigger] image_of(data@, lat, skels, ids, cols) implies false by {
                lemma_block_fields(data@, lat, skels, ids, cols);
            }
        }
        return Ok(Vec::new());
    }
    if n < 9 {
        proof {
            assert forall|lat: bool, skels: Seq<Seq<u8>>, ids: Seq<u32>, cols: Seq<
                Seq<Seq<Seq<u8>>>,
            >| #[trigger] image_of(data@, lat, skels, ids, cols) implies false by {
                lemma_block_fields(data@, lat, skels, ids, cols);
            }
        }
        return Err(CastError::BlockTooShort);
    }
    let flag = data[0];
    let flag_low = flag & 0x7f;
    let is_lat = (flag & 0x80) != 0;
    let lr32 = crate::bytes_le::read_le32(data, 1);
    let li32 = crate::bytes_le::read_le32(data, 5);
    let lr: usize = lr32 as usize;
    let li: usize = li32 as usize;
    let idlen: usize = if flag_low == 3 {
        0
    } else {
        li
    };
    if lr > n - 9 || idlen > n - 9 - lr {
        proof {
            assert forall|lat: bool, skels: Seq<Seq<u8>>, ids: Seq<u32>, cols: Seq<
                Seq<Seq<Seq<u8>>>,
            >| #[trigger] image_of(data@, lat, skels, ids, cols) implies false by {
                lemma_block_fields(data@, lat, skels, ids, cols);
                lemma_ids_enc_lens(ids);
            }
        }
        return Err(CastError::CorruptedHeader);
    }
    let regv = copy_range(data, 9, 9 + lr);
    if !is_utf8_exec(&regv) {
        proof {
            assert forall|lat: bool, skels: Seq<Seq<u8>>, ids: Seq<u32>, cols: Seq<
                Seq<Seq<Seq<u8>>>,
            >| #[trigger] image_of(data@, lat, skels, ids, cols) implies false by {
                lemma_block_fields(data@, lat, skels, ids, cols);
            }
        }
        return Err(CastError::RegistryNotUtf8);
    }
    if flag_low == 0 && li % 2 != 0 {
        proof {
            assert forall|lat: bool, skels: Seq<Seq<u8>>, ids: Seq<u32>, cols: Seq<
                Seq<Seq<Seq<u8>>>,
            >| #[trigger] image_of(data@, lat, skels, ids, cols) implies false by {
                lemma_block_fields(data@, lat, skels, ids, cols);
                lemma_ids_enc_lens(ids);
            }
        }
        return Err(CastError::IdStreamMisaligned);
    }
    if flag_low == 1 && li % 4 != 0 {
        proof {
            assert forall|lat: bool, skels: Seq<Seq<u8>>, ids: Seq<u32>, cols: Seq<
                Seq<Seq<Seq<u8>>>,
            >| #[trigger] image_of(data@, lat, skels, ids, cols) implies false by {
                lemma_block_fields(data@, lat, skels, ids, cols);
                lemma_ids_enc_lens(ids);
            }
        }
        return Err(CastError::IdStreamMisaligned);
    }
    // Registry: one skeleton per template.
    let skels_vec = split_rsep_exec(&regv);
    let ghost skels_deep = crate::tokenizer::views_of(skels_vec@);
    let nt = skels_vec.len();
    // Variable region: flat list of columns, each a list of unescaped cells.
    let vstart = 9 + lr + idlen;
    let spans = split_cols_exec(data, vstart, n);
    proof {
        assert(data@.subrange(vstart as int, n as int) =~= data@.skip(vstart as int));
    }
    let mut flat_cells: Vec<Vec<Vec<u8>>> = Vec::new();
    let nspans = spans.len();
    let mut k: usize = 0;
    while k < nspans
        invariant
            k <= nspans,
            flat_cells@.len() == k,
            forall|kk: int|
                0 <= kk < k ==> #[trigger] crate::tokenizer::views_of(flat_cells@[kk]@)
                    == cells_split(cols_split(data@.skip(vstart as int))[kk]),
        decreases nspans - k,
    {
        let p = spans[k];
        let cells = split_cells_exec(data, p.0, p.1);
        proof {
            assert(data@.subrange(p.0 as int, p.1 as int) == cols_split(
                data@.skip(vstart as int),
            )[k as int]);
        }
        flat_cells.push(cells);
        k = k + 1;
    }
    let ghost flatv = views2(flat_cells@);
    proof {
        assert(flatv.len() == cols_split(data@.skip(vstart as int)).len());
        assert(forall|kk: int|
            0 <= kk < flatv.len() ==> #[trigger] flatv[kk] == cells_split(
                cols_split(data@.skip(vstart as int))[kk],
            ));
    }
    let flat_len = flat_cells.len();
    // Column bases and widths per template.
    let (bases, nvs) = compute_bases(&skels_vec, flat_len);
    // Row ids.
    let mut rids: Vec<u32>;
    if flag_low == 3 {
        let nrows = if li > 0 {
            li
        } else if flat_cells.len() > 0 {
            flat_cells[0].len()
        } else {
            0
        };
        rids = Vec::new();
        let mut z: usize = 0;
        while z < nrows
            invariant
                z <= nrows,
                rids@.len() == z,
                forall|rr: int| 0 <= rr < z ==> #[trigger] rids@[rr] == 0,
            decreases nrows - z,
        {
            rids.push(0);
            z = z + 1;
        }
    } else {
        let width: usize = if flag_low == 2 {
            1
        } else if flag_low == 1 {
            4
        } else {
            2
        };
        let upto = 9 + lr + (idlen - idlen % width);
        rids = decode_ids_exec(data, 9 + lr, upto, width);
    }
    let ghost q0 = initial_queues(flatv, bases@, nvs@);
    let out = run_rows_exec(&skels_vec, &flat_cells, &bases, &nvs, &rids, start_row, target);
    // Latin-1 blocks are encoded back to their original bytes.
    let final_out = if is_lat {
        crate::latin1::encode_back_to_latin1(&out)
    } else {
        out
    };
    proof {
        assert forall|lat: bool, skels: Seq<Seq<u8>>, ids: Seq<u32>, cols: Seq<Seq<Seq<Seq<u8>>>>|
            #[trigger] image_of(data@, lat, skels, ids, cols) implies final_out@ == (if lat {
            crate::latin1::latin1_encode(
                sel_concat(block_lines(skels, ids, cols), start_row as int, target),
            )
        } else {
            sel_concat(block_lines(skels, ids, cols), start_row as int, target)
        }) by {
            lemma_block_fields(data@, lat, skels, ids, cols);
            lemma_ids_enc_lens(ids);
            assert forall|tt: int, j: int| 0 <= tt < nt && 0 <= j < nvs@[tt] implies bases@[tt]
                + j < flatv.len() && #[trigger] q0[tt][j] == flatv[bases@[tt] + j] by {}
            lemma_decode_image(
                data@,
                start_row,
                target,
                skels_deep,
                rids@,
                flatv,
                bases@,
                nvs@,
                q0,
                out@,
                lat,
                skels,
                ids,
                cols,
            );
        }
    }
    Ok(final_out)
}

/// Clamps `x` into `[0, n]`.
pub open spec fn clip(x: int, n: int) -> int {
    if x < 0 {
        0
    } else if x > n {
        n
    } else {
        x
    }
}

/// Row-range correctness of the selection: keeping only the rows whose
/// global index lies in `a..=b` of a block whose rows start at `g` yields
/// exactly the concatenation of the corresponding slice of its lines.
pub proof fn lemma_sel_concat_range(lines: Seq<Seq<u8>>, g: int, a: u64, b: u64)
    requires
        a <= b,
    ensures
        sel_concat(lines, g, Some((a, b))) == crate::container::concat_lines(
            lines.subrange(
                clip(a - g, lines.len() as int),
                clip(b + 1 - g, lines.len() as int),
            ),
        ),
    decreases lines.len(),
{
    let n = lines.len() as int;
    let lo = clip(a - g, n);
    let hi = clip(b + 1 - g, n);
    if lines.len() == 0 {
        assert(lines.subrange(lo, hi) =~= lines);
        assert(crate::container::concat_lines(lines) =~= Seq::<u8>::empty());
    } else {
        lemma_sel_concat_range(lines.skip(1), g + 1, a, b);
        let n2 = lines.skip(1).len() as int;
        let lo2 = clip(a - g - 1, n2);
        let hi2 = clip(b + 1 - g - 1, n2);
        if a <= g <= b {
            assert(lo == 0);
            assert(hi >= 1);
            assert(lo2 == 0);
            assert(hi2 == hi - 1);
            assert(lines.skip(1).subrange(lo2, hi2) =~= lines.subrange(1, hi));
            let sub = lines.subrange(0, hi);
            assert(sub[0] == lines[0]);
            assert(sub.skip(1) =~= lines.subrange(1, hi));
            assert(crate::container::concat_lines(sub) == lines[0]
                + crate::container::concat_lines(lines.subrange(1, hi)));
        } else if g < a as int {
            assert(lo >= 1);
            assert(hi >= lo);
            assert(lo2 == lo - 1);
            assert(hi2 == hi - 1);
            assert(lines.skip(1).subrange(lo2, hi2) =~= lines.subrange(lo, hi));
        } else {
            assert(g > b as int);
            assert(lo == 0 && hi == 0);
            assert(lo2 == 0 && hi2 == 0);
            assert(lines.subrange(0, 0) =~= lines.skip(1).subrange(0, 0));
        }
    }
}

// ---------------------------------------------------------------------------
// The archive model
// ---------------------------------------------------------------------------

/// Rows covered by the first `i` groups.
pub open spec fn rows_before(metas: Seq<RowGroupMetadata>, i: int) -> int
    decreases i,
{
    if i <= 0 {
        0
    } else {
        rows_before(metas, i - 1) + metas[i - 1].num_rows
    }
}

/// One past the last payload byte: the footer offset.
pub open spec fn payload_end(metas: Seq<RowGroupMetadata>) -> int {
    if metas.len() == 0 {
        0
    } else {
        metas.last().start_offset + metas.last().compressed_size
    }
}

/// The compressed slice of one group.
pub open spec fn group_piece(bytes: Seq<u8>, m: RowGroupMetadata) -> Seq<u8> {
    bytes.subrange(m.start_offset as int, m.start_offset + m.compressed_size)
}

/// The ghost model of a whole archive: its footer entries and, per group,
/// the Latin-1 flag, row-group state or raw payload its slice decodes to.
pub struct ArchiveModel {
    pub metas: Seq<RowGroupMetadata>,
    pub lats: Seq<bool>,
    pub skelss: Seq<Seq<Seq<u8>>>,
    pub idss: Seq<Seq<u32>>,
    pub colss: Seq<Seq<Seq<Seq<Seq<u8>>>>>,
    pub raws: Seq<Seq<u8>>,
}

/// One group's slice decodes (through `inf`) either to raw passthrough
/// bytes or to the serialization of a well-formed row-group.
pub open spec fn group_ok(
    inf: spec_fn(Seq<u8>) -> Option<Seq<u8>>,
    bytes: Seq<u8>,
    w: ArchiveModel,
    i: int,
) -> bool {
    if w.metas[i].kind == 1 {
        &&& inf(group_piece(bytes, w.metas[i])) == Some(w.raws[i])
        &&& w.metas[i].num_rows == 0
    } else {
        &&& w.metas[i].kind == 0
        &&& inf(group_piece(bytes, w.metas[i])) == Some(
            block_body(w.lats[i], w.skelss[i], w.idss[i], w.colss[i]),
        )
        &&& image_of(
            block_body(w.lats[i], w.skelss[i], w.idss[i], w.colss[i]),
            w.lats[i],
            w.skelss[i],
            w.idss[i],
            w.colss[i],
        )
        &&& w.metas[i].num_rows == w.idss[i].len()
    }
}

/// The archive image: contiguous groups, a trailing footer over them, and
/// every group's slice decoding as `group_ok` says.
pub open spec fn archive_wf(
    inf: spec_fn(Seq<u8>) -> Option<Seq<u8>>,
    bytes: Seq<u8>,
    w: ArchiveModel,
) -> bool {
    &&& w.metas.len() <= 0xffffffff
    &&& w.lats.len() == w.metas.len()
    &&& w.skelss.len() == w.metas.len()
    &&& w.idss.len() == w.metas.len()
    &&& w.colss.len() == w.metas.len()
    &&& w.raws.len() == w.metas.len()
    &&& payload_end(w.metas) <= 0xffff_ffff_ffff_ffff
    &&& rows_before(w.metas, w.metas.len() as int) <= 0xffff_ffff_ffff_ffff
    &&& (forall|i: int|
        0 <= i < w.metas.len() ==> (#[trigger] w.metas[i].start_offset) as int == (if i == 0 {
            0int
        } else {
            w.metas[i - 1].start_offset + w.metas[i - 1].compressed_size
        }))
    &&& payload_end(w.metas) >= 0
    &&& payload_end(w.metas) + footer_bytes(w.metas, payload_end(w.metas) as u64).len()
        == bytes.len()
    &&& bytes == bytes.take(payload_end(w.metas)) + footer_bytes(
        w.metas,
        payload_end(w.metas) as u64,
    )
    &&& (forall|i: int| 0 <= i < w.metas.len() ==> #[trigger] group_ok(inf, bytes, w, i))
}

/// What reading groups `i..` of an archive emits: raw groups whole (when
/// selected), CAST groups filtered to the requested row range.
pub open spec fn groups_output(
    w: ArchiveModel,
    i: int,
    row_start: int,
    target: Option<(u64, u64)>,
) -> Seq<u8>
    decreases w.metas.len() - i,
{
    if i < 0 || i >= w.metas.len() {
        Seq::empty()
    } else {
        let rows = w.metas[i].num_rows as int;
        let g = if w.metas[i].kind == 1 {
            match target {
                None => w.raws[i],
                Some((a, b)) => if rows > 0 && row_start + rows > a && row_start <= b as int {
                    w.raws[i]
                } else {
                    Seq::<u8>::empty()
                },
            }
        } else {
            if w.lats[i] {
                latin1_encode(
                    sel_concat(
                        block_lines(w.skelss[i], w.idss[i], w.colss[i]),
                        row_start,
                        target,
                    ),
                )
            } else {
                sel_concat(block_lines(w.skelss[i], w.idss[i], w.colss[i]), row_start, target)
            }
        };
        g + groups_output(w, i + 1, row_start + rows, target)
    }
}

/// Appending one group appends its unfiltered output.
pub proof fn lemma_groups_output_push(
    w: ArchiveModel,
    m: RowGroupMetadata,
    la: bool,
    sk: Seq<Seq<u8>>,
    id2: Seq<u32>,
    co: Seq<Seq<Seq<Seq<u8>>>>,
    raw: Seq<u8>,
    i: int,
    row_start: int,
)
    requires
        w.lats.len() == w.metas.len(),
        w.skelss.len() == w.metas.len(),
        w.idss.len() == w.metas.len(),
        w.colss.len() == w.metas.len(),
        w.raws.len() == w.metas.len(),
        0 <= i <= w.metas.len(),
    ensures
        groups_output(
            ArchiveModel {
                metas: w.metas.push(m),
                lats: w.lats.push(la),
                skelss: w.skelss.push(sk),
                idss: w.idss.push(id2),
                colss: w.colss.push(co),
                raws: w.raws.push(raw),
            },
            i,
            row_start,
            None,
        ) == groups_output(w, i, row_start, None) + (if m.kind == 1 {
            raw
        } else {
            if la {
                latin1_encode(concat_lines(block_lines(sk, id2, co)))
            } else {
                concat_lines(block_lines(sk, id2, co))
            }
        }),
    decreases w.metas.len() - i,
{
    let w2 = ArchiveModel {
        metas: w.metas.push(m),
        lats: w.lats.push(la),
        skelss: w.skelss.push(sk),
        idss: w.idss.push(id2),
        colss: w.colss.push(co),
        raws: w.raws.push(raw),
    };
    let p = groups_output(w2, i, row_start, None);
    if i == w.metas.len() {
        assert(groups_output(w, i, row_start, None) =~= Seq::<u8>::empty());
        assert(w2.metas[i] == m);
        assert(w2.lats[i] == la);
        assert(w2.skelss[i] == sk);
        assert(w2.idss[i] == id2);
        assert(w2.colss[i] == co);
        assert(w2.raws[i] == raw);
        assert(groups_output(w2, i + 1, row_start + m.num_rows, None) =~= Seq::<u8>::empty());
        if m.kind == 1 {
            assert(p =~= raw);
        } else {
            crate::compressor::lemma_sel_concat_none(block_lines(sk, id2, co), row_start);
            assert(p =~= (if la {
                latin1_encode(concat_lines(block_lines(sk, id2, co)))
            } else {
                concat_lines(block_lines(sk, id2, co))
            }));
        }
    } else {
        lemma_groups_output_push(
            w,
            m,
            la,
            sk,
            id2,
            co,
            raw,
            i + 1,
            row_start + w.metas[i].num_rows,
        );
        assert(w2.metas[i] == w.metas[i]);
        assert(w2.lats[i] == w.lats[i]);
        assert(w2.skelss[i] == w.skelss[i]);
        assert(w2.idss[i] == w.idss[i]);
        assert(w2.colss[i] == w.colss[i]);
        assert(w2.raws[i] == w.raws[i]);
    }
}

/// A pushed entry does not change the rows of an existing prefix.
pub proof fn lemma_rows_before_push(metas: Seq<RowGroupMetadata>, m: RowGroupMetadata, i: int)
    requires
        0 <= i <= metas.len(),
    ensures
        rows_before(metas.push(m), i) == rows_before(metas, i),
    decreases i,
{
    if i > 0 {
        lemma_rows_before_push(metas, m, i - 1);
        assert(metas.push(m)[i - 1] == metas[i - 1]);
    }
}

/// Contiguous groups end inside the payload.
#[verifier::rlimit(50)]
#[verifier::spinoff_prover]
pub proof fn lemma_group_end_le(metas: Seq<RowGroupMetadata>, i: int)
    requires
        forall|k: int|
            0 <= k < metas.len() ==> (#[trigger] metas[k].start_offset) as int == (if k == 0 {
                0int
            } else {
                metas[k - 1].start_offset + metas[k - 1].compressed_size
            }),
        0 <= i < metas.len(),
    ensures
        metas[i].start_offset + metas[i].compressed_size <= payload_end(metas),
    decreases metas.len() - i,
{
    if i < metas.len() - 1 {
        lemma_group_end_le(metas, i + 1);
    }
}

/// The rows of a prefix never exceed the whole.
pub proof fn lemma_rows_before_le(metas: Seq<RowGroupMetadata>, i: int)
    requires
        0 <= i <= metas.len(),
    ensures
        rows_before(metas, i) <= rows_before(metas, metas.len() as int),
        rows_before(metas, i) >= 0,
    decreases metas.len() - i,
{
    if i < metas.len() {
        lemma_rows_before_le(metas, i + 1);
    }
    if i > 0 {
        lemma_rows_before_nonneg(metas, i);
    }
}

proof fn lemma_rows_before_nonneg(metas: Seq<RowGroupMetadata>, i: int)
    requires
        0 <= i,
    ensures
        rows_before(metas, i) >= 0,
    decreases i,
{
    if i > 0 {
        lemma_rows_before_nonneg(metas, i - 1);
    }
}

/// Every group of `w` is a plain-text CAST group and the groups' lines, in
/// order, are consecutive slices of `lines`: group `k` holds exactly the
/// lines numbered `rows_before(k) .. rows_before(k + 1)`.  Each group holds
/// at most `limit` rows, every group but the last exactly `limit`, so the
/// group count is the line count divided by `limit`, rounded up.
pub open spec fn lined_groups(w: ArchiveModel, lines: Seq<Seq<u8>>, limit: int) -> bool {
    &&& w.lats.len() == w.metas.len()
    &&& w.skelss.len() == w.metas.len()
    &&& w.idss.len() == w.metas.len()
    &&& w.colss.len() == w.metas.len()
    &&& w.raws.len() == w.metas.len()
    &&& rows_before(w.metas, w.metas.len() as int) == lines.len()
    &&& forall|k: int| 0 <= k < w.metas.len() ==> (#[trigger] w.metas[k]).kind == 0
    &&& forall|k: int| 0 <= k < w.metas.len() ==> !(#[trigger] w.lats[k])
    &&& forall|k: int| 0 <= k < w.metas.len() ==> 1 <= (#[trigger] w.metas[k]).num_rows <= limit
    &&& forall|k: int| 0 <= k < w.metas.len() - 1 ==> (#[trigger] w.metas[k]).num_rows == limit
    &&& forall|k: int|
        0 <= k < w.metas.len() ==> (#[trigger] w.metas[k]).num_rows == w.idss[k].len()
    &&& forall|k: int|
        0 <= k < w.metas.len() ==> #[trigger] block_lines(w.skelss[k], w.idss[k], w.colss[k])
            == lines.subrange(rows_before(w.metas, k), rows_before(w.metas, k + 1))
}

/// The selection distributes over concatenation, with the row counter
/// advanced by the length of the first part.
pub proof fn lemma_sel_concat_append(
    a: Seq<Seq<u8>>,
    b: Seq<Seq<u8>>,
    g: int,
    target: Option<(u64, u64)>,
)
    ensures
        sel_concat(a + b, g, target) == sel_concat(a, g, target) + sel_concat(
            b,
            g + a.len(),
            target,
        ),
    decreases a.len(),
{
    if a.len() == 0 {
        assert(a + b =~= b);
        assert(sel_concat(a, g, target) =~= Seq::<u8>::empty());
        assert(sel_concat(a, g, target) + sel_concat(b, g, target) =~= sel_concat(b, g, target));
    } else {
        lemma_sel_concat_append(a.skip(1), b, g + 1, target);
        assert((a + b).skip(1) =~= a.skip(1) + b);
        assert((a + b)[0] == a[0]);
        assert(sel_concat(a + b, g, target) =~= sel_concat(a, g, target) + sel_concat(
            b,
            g + a.len(),
            target,
        ));
    }
}

/// Row-range correctness of a lined archive: whatever row range is
/// requested, reading groups `i..` of the archive emits exactly the
/// selected lines among those the remaining groups hold.
pub proof fn lemma_lined_groups_target(
    w: ArchiveModel,
    lines: Seq<Seq<u8>>,
    limit: int,
    i: int,
    target: Option<(u64, u64)>,
)
    requires
        lined_groups(w, lines, limit),
        0 <= i <= w.metas.len(),
    ensures
        groups_output(w, i, rows_before(w.metas, i), target) == sel_concat(
            lines.subrange(rows_before(w.metas, i), lines.len() as int),
            rows_before(w.metas, i),
            target,
        ),
    decreases w.metas.len() - i,
{
    let ri = rows_before(w.metas, i);
    lemma_rows_before_le(w.metas, i);
    if i == w.metas.len() {
        assert(ri == lines.len());
        assert(lines.subrange(ri, lines.len() as int) =~= Seq::<Seq<u8>>::empty());
    } else {
        let rows = w.metas[i].num_rows as int;
        let ri1 = rows_before(w.metas, i + 1);
        assert(ri1 == ri + rows);
        lemma_rows_before_le(w.metas, i + 1);
        lemma_lined_groups_target(w, lines, limit, i + 1, target);
        let mid = lines.subrange(ri, ri1);
        let tail = lines.subrange(ri1, lines.len() as int);
        assert(lines.subrange(ri, lines.len() as int) =~= mid + tail);
        lemma_sel_concat_append(mid, tail, ri, target);
        assert(block_lines(w.skelss[i], w.idss[i], w.colss[i]) == mid);
        assert(groups_output(w, i, ri, target) == sel_concat(mid, ri, target) + groups_output(
            w,
            i + 1,
            ri1,
            target,
        ));
    }
}

/// A block entirely outside the selection emits nothing.
pub proof fn lemma_sel_concat_outside(lines: Seq<Seq<u8>>, g: int, a: u64, b: u64)
    requires
        (b as int) < g || g + lines.len() <= a as int,
    ensures
        sel_concat(lines, g, Some((a, b))) == Seq::<u8>::empty(),
    decreases lines.len(),
{
    if lines.len() > 0 {
        lemma_sel_concat_outside(lines.skip(1), g + 1, a, b);
        assert(!sel(g, Some((a, b))));
        assert(sel_concat(lines, g, Some((a, b))) =~= Seq::<u8>::empty());
    }
}


} // verus!
