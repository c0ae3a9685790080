//! The block serializer and the mathematical model of one row-group.
//!
//! A row-group is modelled by its skeletons, its per-row template id stream,
//! and its columnar cells.  `block_lines` says which lines such a state
//! stands for; `block_body` says which bytes serialize it.

use vstd::prelude::*;
use crate::bytes_le::{le32, push_le32};
use crate::escape::{
    cells_enc, cols_enc, escape_bytes, escape_into, COL_SEP, ROW_SEP,
};
use crate::latin1::{is_utf8, is_utf8_exec};
use crate::registry::TemplateRegistry;
use crate::tokenizer::{contains_seq, count_ph, recon, rsep};

verus! {

// ---------------------------------------------------------------------------
// The row-group model
// ---------------------------------------------------------------------------

/// How many of the ids equal `t`.
pub open spec fn occ_count(ids: Seq<u32>, t: u32) -> nat
    decreases ids.len(),
{
    if ids.len() == 0 {
        0
    } else {
        occ_count(ids.drop_last(), t) + (if ids.last() == t {
            1nat
        } else {
            0
        })
    }
}

/// The cells of row `r`: for each column of its template, the cell at this
/// row's occurrence index.
pub open spec fn row_cells(ids: Seq<u32>, cols: Seq<Seq<Seq<Seq<u8>>>>, r: int) -> Seq<Seq<u8>> {
    Seq::new(
        cols[ids[r] as int].len(),
        |j: int| cols[ids[r] as int][j][occ_count(ids.take(r), ids[r]) as int],
    )
}

/// The lines that a row-group state stands for, in row order.
pub open spec fn block_lines(
    skels: Seq<Seq<u8>>,
    ids: Seq<u32>,
    cols: Seq<Seq<Seq<Seq<u8>>>>,
) -> Seq<Seq<u8>> {
    Seq::new(ids.len(), |r: int| recon(skels[ids[r] as int], row_cells(ids, cols, r)))
}

/// Well-formedness of a row-group state: one column per placeholder, ids in
/// range, every template used, every column holding one cell per use of its
/// template, and skeletons free of the registry separator.
pub open spec fn state_wf(skels: Seq<Seq<u8>>, ids: Seq<u32>, cols: Seq<Seq<Seq<Seq<u8>>>>) -> bool {
    &&& skels.len() <= 0xffffffff
    &&& cols.len() == skels.len()
    &&& forall|t: int| 0 <= t < skels.len() ==> (#[trigger] cols[t]).len() == count_ph(skels[t])
    &&& forall|r: int| 0 <= r < ids.len() ==> (#[trigger] ids[r] as int) < skels.len()
    &&& forall|t: int| 0 <= t < skels.len() ==> #[trigger] occ_count(ids, t as u32) >= 1
    &&& forall|t: int, j: int|
        0 <= t < skels.len() && 0 <= j < cols[t].len() ==> (#[trigger] cols[t][j]).len()
            == occ_count(ids, t as u32)
    &&& forall|t: int| 0 <= t < skels.len() ==> !contains_seq(#[trigger] skels[t], rsep())
}

// ---------------------------------------------------------------------------
// The byte layout
// ---------------------------------------------------------------------------

/// Skeletons joined by the registry separator.
pub open spec fn sep_join(parts: Seq<Seq<u8>>) -> Seq<u8>
    decreases parts.len(),
{
    if parts.len() == 0 {
        Seq::empty()
    } else if parts.len() == 1 {
        parts[0]
    } else {
        parts[0] + rsep() + sep_join(parts.skip(1))
    }
}

/// One byte per id.
pub open spec fn ids_enc1(ids: Seq<u32>) -> Seq<u8>
    decreases ids.len(),
{
    if ids.len() == 0 {
        Seq::empty()
    } else {
        seq![(ids[0] & 0xff) as u8] + ids_enc1(ids.skip(1))
    }
}

/// Two little-endian bytes per id.
pub open spec fn ids_enc2(ids: Seq<u32>) -> Seq<u8>
    decreases ids.len(),
{
    if ids.len() == 0 {
        Seq::empty()
    } else {
        seq![(ids[0] & 0xff) as u8, ((ids[0] >> 8) & 0xff) as u8] + ids_enc2(ids.skip(1))
    }
}

/// Four little-endian bytes per id.
pub open spec fn ids_enc4(ids: Seq<u32>) -> Seq<u8>
    decreases ids.len(),
{
    if ids.len() == 0 {
        Seq::empty()
    } else {
        le32(ids[0]) + ids_enc4(ids.skip(1))
    }
}

/// The low bits of the id-encoding flag, from the template count.
pub open spec fn flag_low_of(nt: int) -> u8 {
    if nt == 1 {
        3
    } else if nt < 256 {
        2
    } else if nt > 65535 {
        1
    } else {
        0
    }
}

/// The id stream bytes, by flag.
pub open spec fn ids_bytes(nt: int, ids: Seq<u32>) -> Seq<u8> {
    if nt == 1 {
        Seq::empty()
    } else if nt < 256 {
        ids_enc1(ids)
    } else if nt > 65535 {
        ids_enc4(ids)
    } else {
        ids_enc2(ids)
    }
}

/// The flattened column list, template by template.
pub open spec fn flat_cols(cols: Seq<Seq<Seq<Seq<u8>>>>) -> Seq<Seq<Seq<u8>>>
    decreases cols.len(),
{
    if cols.len() == 0 {
        Seq::empty()
    } else {
        cols[0] + flat_cols(cols.skip(1))
    }
}

/// The byte-stuffed variable region.
pub open spec fn vars_bytes(cols: Seq<Seq<Seq<Seq<u8>>>>) -> Seq<u8> {
    cols_enc(flat_cols(cols))
}

/// The second header field: the id stream length, except for
/// single-template blocks, where it carries the row count when the template
/// has no variables (and `0` otherwise).
pub open spec fn second_field(nt: int, ids: Seq<u32>, cols: Seq<Seq<Seq<Seq<u8>>>>) -> u32 {
    if nt == 1 {
        if cols[0].len() == 0 {
            ids.len() as u32
        } else {
            0
        }
    } else {
        ids_bytes(nt, ids).len() as u32
    }
}

/// The whole serialized (uncompressed) unified block.
pub open spec fn block_body(
    is_latin1: bool,
    skels: Seq<Seq<u8>>,
    ids: Seq<u32>,
    cols: Seq<Seq<Seq<Seq<u8>>>>,
) -> Seq<u8> {
    let flag = if is_latin1 {
        (flag_low_of(skels.len() as int) | 0x80) as u8
    } else {
        flag_low_of(skels.len() as int)
    };
    seq![flag] + le32(sep_join(skels).len() as u32) + le32(second_field(skels.len() as int, ids, cols))
        + sep_join(skels) + ids_bytes(skels.len() as int, ids) + vars_bytes(cols)
}

/// Header lengths fit their 32-bit fields.
pub open spec fn lens_ok(skels: Seq<Seq<u8>>, ids: Seq<u32>) -> bool {
    &&& sep_join(skels).len() <= 0xffffffff
    &&& ids.len() <= 0xffffffff
    &&& ids_bytes(skels.len() as int, ids).len() <= 0xffffffff
}

// ---------------------------------------------------------------------------
// Append lemmas for the encoders
// ---------------------------------------------------------------------------

/// Joining one more part appends a separator and the part.
pub proof fn lemma_sep_join_push(ps: Seq<Seq<u8>>, p: Seq<u8>)
    ensures
        ps.len() == 0 ==> sep_join(ps.push(p)) == p,
        ps.len() > 0 ==> sep_join(ps.push(p)) == sep_join(ps) + rsep() + p,
    decreases ps.len(),
{
    let q = ps.push(p);
    if ps.len() == 0 {
        assert(sep_join(q) == q[0]);
        assert(q[0] == p);
    } else if ps.len() == 1 {
        assert(q.len() == 2);
        assert(q.skip(1) =~= seq![p]);
        assert(sep_join(q.skip(1)) == p);
        assert(sep_join(q) == q[0] + rsep() + p);
        assert(q[0] == ps[0]);
        assert(sep_join(ps) == ps[0]);
    } else {
        lemma_sep_join_push(ps.skip(1), p);
        assert(q.skip(1) =~= ps.skip(1).push(p));
        assert(sep_join(q) == q[0] + rsep() + sep_join(ps.skip(1).push(p)));
        assert(sep_join(ps.skip(1).push(p)) == sep_join(ps.skip(1)) + rsep() + p);
        assert(q[0] + rsep() + (sep_join(ps.skip(1)) + rsep() + p) =~= (ps[0] + rsep()
            + sep_join(ps.skip(1))) + rsep() + p);
    }
}

/// The one-byte id encoding distributes over concatenation.
pub proof fn lemma_ids_enc1_add(a: Seq<u32>, b: Seq<u32>)
    ensures
        ids_enc1(a + b) == ids_enc1(a) + ids_enc1(b),
    decreases a.len(),
{
    if a.len() == 0 {
        assert(a + b =~= b);
        assert(ids_enc1(a) + ids_enc1(b) =~= ids_enc1(b));
    } else {
        lemma_ids_enc1_add(a.skip(1), b);
        assert((a + b).skip(1) =~= a.skip(1) + b);
        assert(seq![(a[0] & 0xff) as u8] + (ids_enc1(a.skip(1)) + ids_enc1(b)) =~= (seq![
            (a[0] & 0xff) as u8,
        ] + ids_enc1(a.skip(1))) + ids_enc1(b));
    }
}

/// The two-byte id encoding distributes over concatenation.
pub proof fn lemma_ids_enc2_add(a: Seq<u32>, b: Seq<u32>)
    ensures
        ids_enc2(a + b) == ids_enc2(a) + ids_enc2(b),
    decreases a.len(),
{
    if a.len() == 0 {
        assert(a + b =~= b);
        assert(ids_enc2(a) + ids_enc2(b) =~= ids_enc2(b));
    } else {
        lemma_ids_enc2_add(a.skip(1), b);
        assert((a + b).skip(1) =~= a.skip(1) + b);
        assert(seq![(a[0] & 0xff) as u8, ((a[0] >> 8) & 0xff) as u8] + (ids_enc2(a.skip(1))
            + ids_enc2(b)) =~= (seq![(a[0] & 0xff) as u8, ((a[0] >> 8) & 0xff) as u8]
            + ids_enc2(a.skip(1))) + ids_enc2(b));
    }
}

/// The four-byte id encoding distributes over concatenation.
pub proof fn lemma_ids_enc4_add(a: Seq<u32>, b: Seq<u32>)
    ensures
        ids_enc4(a + b) == ids_enc4(a) + ids_enc4(b),
    decreases a.len(),
{
    if a.len() == 0 {
        assert(a + b =~= b);
        assert(ids_enc4(a) + ids_enc4(b) =~= ids_enc4(b));
    } else {
        lemma_ids_enc4_add(a.skip(1), b);
        assert((a + b).skip(1) =~= a.skip(1) + b);
        assert(le32(a[0]) + (ids_enc4(a.skip(1)) + ids_enc4(b)) =~= (le32(a[0]) + ids_enc4(
            a.skip(1),
        )) + ids_enc4(b));
    }
}

/// Encoding one more cell appends a row separator and the escaped cell.
pub proof fn lemma_cells_enc_push(cs: Seq<Seq<u8>>, c: Seq<u8>)
    ensures
        cs.len() == 0 ==> cells_enc(cs.push(c)) == escape_bytes(c),
        cs.len() > 0 ==> cells_enc(cs.push(c)) == cells_enc(cs) + seq![ROW_SEP] + escape_bytes(
            c,
        ),
    decreases cs.len(),
{
    let q = cs.push(c);
    if cs.len() == 0 {
        assert(q[0] == c);
    } else if cs.len() == 1 {
        assert(q.skip(1) =~= seq![c]);
        assert(cells_enc(q.skip(1)) == escape_bytes(c));
        assert(q[0] == cs[0]);
    } else {
        lemma_cells_enc_push(cs.skip(1), c);
        assert(q.skip(1) =~= cs.skip(1).push(c));
        assert(escape_bytes(q[0]) + seq![ROW_SEP] + (cells_enc(cs.skip(1)) + seq![ROW_SEP]
            + escape_bytes(c)) =~= (escape_bytes(cs[0]) + seq![ROW_SEP] + cells_enc(
            cs.skip(1),
        )) + seq![ROW_SEP] + escape_bytes(c));
    }
}

/// The column encoding distributes over concatenation.
pub proof fn lemma_cols_enc_add(a: Seq<Seq<Seq<u8>>>, b: Seq<Seq<Seq<u8>>>)
    ensures
        cols_enc(a + b) == cols_enc(a) + cols_enc(b),
    decreases a.len(),
{
    if a.len() == 0 {
        assert(a + b =~= b);
        assert(cols_enc(a) + cols_enc(b) =~= cols_enc(b));
    } else {
        lemma_cols_enc_add(a.skip(1), b);
        assert((a + b).skip(1) =~= a.skip(1) + b);
        assert(cells_enc(a[0]) + seq![COL_SEP] + (cols_enc(a.skip(1)) + cols_enc(b)) =~= ((
        cells_enc(a[0]) + seq![COL_SEP] + cols_enc(a.skip(1)))) + cols_enc(b));
    }
}

/// Flattening distributes over concatenation.
pub proof fn lemma_flat_cols_add(a: Seq<Seq<Seq<Seq<u8>>>>, b: Seq<Seq<Seq<Seq<u8>>>>)
    ensures
        flat_cols(a + b) == flat_cols(a) + flat_cols(b),
    decreases a.len(),
{
    if a.len() == 0 {
        assert(a + b =~= b);
        assert(flat_cols(a) + flat_cols(b) =~= flat_cols(b));
    } else {
        lemma_flat_cols_add(a.skip(1), b);
        assert((a + b).skip(1) =~= a.skip(1) + b);
        assert(a[0] + (flat_cols(a.skip(1)) + flat_cols(b)) =~= (a[0] + flat_cols(a.skip(1)))
            + flat_cols(b));
    }
}

// ---------------------------------------------------------------------------
// The exec serializer
// ---------------------------------------------------------------------------

/// The columnar cells of every template of a registry.
pub open spec fn reg_cols(reg: &TemplateRegistry) -> Seq<Seq<Seq<Seq<u8>>>> {
    Seq::new(reg.templates@.len(), |t: int| reg.cols_of(t))
}

/// Serializes one row-group into its unified byte layout.  Returns `None`
/// exactly when a length field would not fit 32 bits.
#[verifier::loop_isolation(false)]
#[verifier::rlimit(100)]
pub fn serialize_block(
    reg: &TemplateRegistry,
    ids: &Vec<u32>,
    is_latin1: bool,
) -> (r: Option<Vec<u8>>)
    requires
        reg.wf(),
        reg.skels().len() >= 1,
        forall|t: int|
            0 <= t < reg.skels().len() ==> #[trigger] reg.cols_of(t).len() == count_ph(
                reg.skels()[t],
            ),
    ensures
        match r {
            Some(b) => lens_ok(reg.skels(), ids@) && is_utf8(sep_join(reg.skels())) && b@
                == block_body(is_latin1, reg.skels(), ids@, reg_cols(reg)),
            None => !(lens_ok(reg.skels(), ids@) && is_utf8(sep_join(reg.skels()))),
        },
{
    let nt = reg.num_templates();
    // Registry bytes: skeletons joined by the separator.
    let mut reg_buf: Vec<u8> = Vec::new();
    let mut t: usize = 0;
    proof {
        assert(reg.skels().take(0) =~= Seq::<Seq<u8>>::empty());
    }
    while t < nt
        invariant
            t <= nt,
            reg_buf@ == sep_join(reg.skels().take(t as int)),
        decreases nt - t,
    {
        proof {
            lemma_sep_join_push(reg.skels().take(t as int), reg.skels()[t as int]);
            assert(reg.skels().take(t + 1) =~= reg.skels().take(t as int).push(
                reg.skels()[t as int],
            ));
        }
        if t > 0 {
            reg_buf.push(0xEE);
            reg_buf.push(0x80);
            reg_buf.push(0x81);
            proof {
                assert(reg_buf@ =~= sep_join(reg.skels().take(t as int)) + rsep());
            }
        }
        let skel = &reg.templates[t].skeleton;
        let slen = skel.len();
        let ghost before = reg_buf@;
        let mut k: usize = 0;
        while k < slen
            invariant
                k <= slen,
                slen == skel@.len(),
                reg_buf@ == before + skel@.take(k as int),
            decreases slen - k,
        {
            reg_buf.push(skel[k]);
            assert(reg_buf@ =~= before + skel@.take(k + 1));
            k = k + 1;
        }
        proof {
            assert(skel@.take(slen as int) =~= skel@);
            assert(reg.skels()[t as int] == skel@);
            if t == 0 {
                assert(reg_buf@ =~= sep_join(reg.skels().take(t + 1)));
            } else {
                assert(reg_buf@ =~= sep_join(reg.skels().take(t + 1)));
            }
        }
        t = t + 1;
    }
    proof {
        assert(reg.skels().take(nt as int) =~= reg.skels());
    }
    if reg_buf.len() > 0xffffffffusize {
        return None;
    }
    // The decoder insists on a UTF-8 registry; refuse to serialize anything
    // else (the caller then falls back to passthrough).
    if !is_utf8_exec(&reg_buf) {
        return None;
    }
    // Id stream bytes.
    let nrows = ids.len();
    if nrows > 0xffffffffusize {
        return None;
    }
    let mut ids_buf: Vec<u8> = Vec::new();
    let mut i: usize = 0;
    if nt == 1 {
        // Single template: the id stream is omitted.
    } else if nt < 256 {
        proof {
            assert(ids@.take(0) =~= Seq::<u32>::empty());
        }
        while i < nrows
            invariant
                i <= nrows,
                nt >= 2,
                ids_buf@ == ids_enc1(ids@.take(i as int)),
            decreases nrows - i,
        {
            let id = ids[i];
            ids_buf.push((id & 0xff) as u8);
            proof {
                lemma_ids_enc1_add(ids@.take(i as int), seq![ids@[i as int]]);
                assert(ids@.take(i + 1) =~= ids@.take(i as int) + seq![ids@[i as int]]);
                assert(seq![ids@[i as int]].skip(1) =~= Seq::<u32>::empty());
                assert(ids_enc1(Seq::<u32>::empty()) =~= Seq::<u8>::empty());
                assert(ids_enc1(seq![ids@[i as int]]) =~= seq![(ids@[i as int] & 0xff) as u8]);
                assert(ids_buf@ =~= ids_enc1(ids@.take(i + 1)));
            }
            i = i + 1;
        }
        proof {
            assert(ids@.take(nrows as int) =~= ids@);
        }
    } else if nt > 65535 {
        proof {
            assert(ids@.take(0) =~= Seq::<u32>::empty());
        }
        while i < nrows
            invariant
                i <= nrows,
                nt > 65535,
                ids_buf@ == ids_enc4(ids@.take(i as int)),
            decreases nrows - i,
        {
            let id = ids[i];
            push_le32(&mut ids_buf, id);
            proof {
                lemma_ids_enc4_add(ids@.take(i as int), seq![ids@[i as int]]);
                assert(ids@.take(i + 1) =~= ids@.take(i as int) + seq![ids@[i as int]]);
                assert(seq![ids@[i as int]].skip(1) =~= Seq::<u32>::empty());
                assert(ids_enc4(Seq::<u32>::empty()) =~= Seq::<u8>::empty());
                assert(ids_enc4(seq![ids@[i as int]]) =~= le32(ids@[i as int]));
                assert(ids_buf@ =~= ids_enc4(ids@.take(i + 1)));
            }
            i = i + 1;
        }
        proof {
            assert(ids@.take(nrows as int) =~= ids@);
        }
    } else {
        proof {
            assert(ids@.take(0) =~= Seq::<u32>::empty());
        }
        while i < nrows
            invariant
                i <= nrows,
                256 <= nt <= 65535,
                ids_buf@ == ids_enc2(ids@.take(i as int)),
            decreases nrows - i,
        {
            let id = ids[i];
            ids_buf.push((id & 0xff) as u8);
            ids_buf.push(((id >> 8) & 0xff) as u8);
            proof {
                lemma_ids_enc2_add(ids@.take(i as int), seq![ids@[i as int]]);
                assert(ids@.take(i + 1) =~= ids@.take(i as int) + seq![ids@[i as int]]);
                assert(seq![ids@[i as int]].skip(1) =~= Seq::<u32>::empty());
                assert(ids_enc2(Seq::<u32>::empty()) =~= Seq::<u8>::empty());
                assert(ids_enc2(seq![ids@[i as int]]) =~= seq![
                    (ids@[i as int] & 0xff) as u8,
                    ((ids@[i as int] >> 8) & 0xff) as u8,
                ]);
                assert(ids_buf@ =~= ids_enc2(ids@.take(i + 1)));
            }
            i = i + 1;
        }
        proof {
            assert(ids@.take(nrows as int) =~= ids@);
        }
    }
    proof {
        assert(ids_buf@ == ids_bytes(reg.skels().len() as int, ids@));
    }
    if ids_buf.len() > 0xffffffffusize {
        return None;
    }
    // Variable region: all columns of template 0, then template 1, and so on.
    let mut vars_buf: Vec<u8> = Vec::new();
    let mut t2: usize = 0;
    proof {
        assert(reg_cols(reg).take(0) =~= Seq::<Seq<Seq<Seq<u8>>>>::empty());
        assert(flat_cols(Seq::<Seq<Seq<Seq<u8>>>>::empty()) =~= Seq::<Seq<Seq<u8>>>::empty());
        assert(vars_buf@ =~= cols_enc(flat_cols(reg_cols(reg).take(0))));
    }
    while t2 < nt
        invariant
            t2 <= nt,
            vars_buf@ == cols_enc(flat_cols(reg_cols(reg).take(t2 as int))),
        decreases nt - t2,
    {
        let ncols = reg.templates[t2].cols.len();
        let ghost tcols = reg.cols_of(t2 as int);
        let ghost before_t = vars_buf@;
        let mut j: usize = 0;
        proof {
            assert(tcols.take(0) =~= Seq::<Seq<Seq<u8>>>::empty());
            assert(vars_buf@ =~= before_t + cols_enc(tcols.take(0)));
        }
        while j < ncols
            invariant
                j <= ncols,
                t2 < nt,
                ncols == tcols.len(),
                tcols == reg.cols_of(t2 as int),
                vars_buf@ == before_t + cols_enc(tcols.take(j as int)),
            decreases ncols - j,
        {
            let col = &reg.templates[t2].cols[j];
            let ccount = col.len();
            let ghost ccells = col.cells();
            let ghost before_c = vars_buf@;
            let mut idx: usize = 0;
            proof {
                assert(ccells.take(0) =~= Seq::<Seq<u8>>::empty());
                assert(cells_enc(Seq::<Seq<u8>>::empty()) =~= Seq::<u8>::empty());
                assert(vars_buf@ =~= before_c + cells_enc(ccells.take(0)));
            }
            while idx < ccount
                invariant
                    idx <= ccount,
                    t2 < nt,
                    j < ncols,
                    ncols == tcols.len(),
                    ccount == ccells.len(),
                    col.wf(),
                    ccells == col.cells(),
                    vars_buf@ == before_c + cells_enc(ccells.take(idx as int)),
                decreases ccount - idx,
            {
                if idx > 0 {
                    vars_buf.push(0x00);
                }
                let cell = col.get(idx);
                escape_into(&mut vars_buf, &cell);
                proof {
                    lemma_cells_enc_push(ccells.take(idx as int), ccells[idx as int]);
                    assert(ccells.take(idx + 1) =~= ccells.take(idx as int).push(
                        ccells[idx as int],
                    ));
                    if idx == 0 {
                        assert(vars_buf@ =~= before_c + cells_enc(ccells.take(idx + 1)));
                    } else {
                        assert(vars_buf@ =~= before_c + cells_enc(ccells.take(idx + 1)));
                    }
                }
                idx = idx + 1;
            }
            vars_buf.push(0x02);
            proof {
                assert(ccells.take(ccount as int) =~= ccells);
                lemma_cols_enc_add(tcols.take(j as int), seq![ccells]);
                assert(tcols.take(j + 1) =~= tcols.take(j as int) + seq![ccells]);
                assert(seq![ccells].skip(1) =~= Seq::<Seq<Seq<u8>>>::empty());
                assert(cols_enc(seq![ccells]) =~= cells_enc(ccells) + seq![COL_SEP]);
                assert(tcols[j as int] == ccells);
                assert(vars_buf@ =~= before_t + cols_enc(tcols.take(j + 1)));
            }
            j = j + 1;
        }
        proof {
            assert(tcols.take(ncols as int) =~= tcols);
            lemma_flat_cols_add(reg_cols(reg).take(t2 as int), seq![tcols]);
            lemma_cols_enc_add(flat_cols(reg_cols(reg).take(t2 as int)), flat_cols(seq![tcols]));
            assert(reg_cols(reg).take(t2 + 1) =~= reg_cols(reg).take(t2 as int).push(tcols));
            assert(reg_cols(reg).take(t2 as int).push(tcols) =~= reg_cols(reg).take(t2 as int)
                + seq![tcols]);
            assert(seq![tcols].skip(1) =~= Seq::<Seq<Seq<Seq<u8>>>>::empty());
            assert(flat_cols(Seq::<Seq<Seq<Seq<u8>>>>::empty()) =~= Seq::<Seq<Seq<u8>>>::empty());
            assert(flat_cols(seq![tcols]) =~= tcols);
            assert(vars_buf@ =~= cols_enc(flat_cols(reg_cols(reg).take(t2 + 1))));
        }
        t2 = t2 + 1;
    }
    proof {
        assert(reg_cols(reg).take(nt as int) =~= reg_cols(reg));
    }
    // Header: flag, registry length, id-stream length or row count.
    let flag_low: u8 = if nt == 1 {
        3
    } else if nt < 256 {
        2
    } else if nt > 65535 {
        1
    } else {
        0
    };
    let flag: u8 = if is_latin1 {
        flag_low | 0x80
    } else {
        flag_low
    };
    let second: u32 = if nt == 1 {
        let has_vars = reg.templates[0].cols.len() > 0;
        if has_vars {
            0
        } else {
            nrows as u32
        }
    } else {
        ids_buf.len() as u32
    };
    let mut out: Vec<u8> = Vec::new();
    out.push(flag);
    let reg_len = reg_buf.len() as u32;
    push_le32(&mut out, reg_len);
    push_le32(&mut out, second);
    let ghost header = out@;
    append_vec(&mut out, &reg_buf);
    append_vec(&mut out, &ids_buf);
    append_vec(&mut out, &vars_buf);
    proof {
        assert(out@ =~= block_body(is_latin1, reg.skels(), ids@, reg_cols(reg)));
    }
    Some(out)
}

/// Appends all bytes of `src` to `dst`.
pub fn append_vec(dst: &mut Vec<u8>, src: &Vec<u8>)
    ensures
        final(dst)@ == old(dst)@ + src@,
{
    let n = src.len();
    let mut i: usize = 0;
    while i < n
        invariant
            i <= n,
            n == src@.len(),
            dst@ == old(dst)@ + src@.take(i as int),
        decreases n - i,
    {
        dst.push(src[i]);
        assert(dst@ =~= old(dst)@ + src@.take(i + 1));
        i = i + 1;
    }
    proof {
        assert(src@.take(n as int) =~= src@);
    }
}

// ---------------------------------------------------------------------------
// Occurrence-count lemmas
// ---------------------------------------------------------------------------

/// A count never exceeds the stream length.
pub proof fn lemma_occ_le_len(ids: Seq<u32>, t: u32)
    ensures
        occ_count(ids, t) <= ids.len(),
    decreases ids.len(),
{
    if ids.len() > 0 {
        lemma_occ_le_len(ids.drop_last(), t);
    }
}

/// A count over a prefix never exceeds the count over the whole stream, and
/// is strictly smaller when the element right after the prefix matches.
pub proof fn lemma_occ_take(ids: Seq<u32>, t: u32, r: int)
    requires
        0 <= r <= ids.len(),
    ensures
        occ_count(ids.take(r), t) <= occ_count(ids, t),
        r < ids.len() && ids[r] == t ==> occ_count(ids.take(r), t) < occ_count(ids, t),
    decreases ids.len(),
{
    if ids.len() == 0 {
    } else if r == ids.len() {
        assert(ids.take(r) =~= ids);
    } else {
        lemma_occ_take(ids.drop_last(), t, r);
        assert(ids.take(r) =~= ids.drop_last().take(r));
        if r < ids.len() - 1 {
            assert(ids.drop_last()[r] == ids[r]);
        }
    }
}

/// A value that never occurs has count zero.
pub proof fn lemma_occ_zero(ids: Seq<u32>, t: u32)
    requires
        forall|r: int| 0 <= r < ids.len() ==> ids[r] != t,
    ensures
        occ_count(ids, t) == 0,
    decreases ids.len(),
{
    if ids.len() > 0 {
        assert(forall|r: int| 0 <= r < ids.drop_last().len() ==> ids.drop_last()[r] != t);
        lemma_occ_zero(ids.drop_last(), t);
    }
}

/// Appending one more row for template `t` appends that row's
/// reconstruction to the block's lines.
pub proof fn lemma_lines_push(
    skels: Seq<Seq<u8>>,
    ids: Seq<u32>,
    cols: Seq<Seq<Seq<Seq<u8>>>>,
    t: u32,
    vars: Seq<Seq<u8>>,
)
    requires
        cols.len() == skels.len(),
        (t as int) < skels.len(),
        vars.len() == cols[t as int].len(),
        forall|r: int| 0 <= r < ids.len() ==> (#[trigger] ids[r] as int) < skels.len(),
        forall|j: int|
            0 <= j < cols[t as int].len() ==> (#[trigger] cols[t as int][j]).len() == occ_count(
                ids,
                t,
            ),
    ensures
        block_lines(
            skels,
            ids.push(t),
            cols.update(
                t as int,
                Seq::new(vars.len(), |j: int| cols[t as int][j].push(vars[j])),
            ),
        ) == block_lines(skels, ids, cols).push(recon(skels[t as int], vars)),
{
    let ids2 = ids.push(t);
    let cols2 = cols.update(
        t as int,
        Seq::new(vars.len(), |j: int| cols[t as int][j].push(vars[j])),
    );
    let l1 = block_lines(skels, ids, cols);
    let l2 = block_lines(skels, ids2, cols2);
    assert(ids2.drop_last() =~= ids);
    assert forall|r: int| 0 <= r < ids.len() implies l2[r] == l1[r] by {
        assert(ids2.take(r) =~= ids.take(r));
        assert(ids2[r] == ids[r]);
        let u = ids[r];
        lemma_occ_take(ids, u, r);
        if u == t {
            assert forall|j: int| 0 <= j < cols2[u as int].len() implies cols2[u as int][j][occ_count(
                ids.take(r),
                u,
            ) as int] == cols[u as int][j][occ_count(ids.take(r), u) as int] by {
                assert(cols2[u as int][j] == cols[u as int][j].push(vars[j]));
                assert(occ_count(ids.take(r), u) < occ_count(ids, u));
            }
            assert(row_cells(ids2, cols2, r) =~= row_cells(ids, cols, r));
        } else {
            assert(cols2[u as int] == cols[u as int]);
            assert(row_cells(ids2, cols2, r) =~= row_cells(ids, cols, r));
        }
    }
    let rn = ids.len() as int;
    assert(ids2.take(rn) =~= ids);
    assert(ids2[rn] == t);
    assert forall|j: int| 0 <= j < vars.len() implies row_cells(ids2, cols2, rn)[j] == vars[j] by {
        assert(cols2[t as int][j] == cols[t as int][j].push(vars[j]));
        assert(cols[t as int][j].len() == occ_count(ids, t));
    }
    assert(row_cells(ids2, cols2, rn) =~= vars);
    assert(l2 =~= l1.push(recon(skels[t as int], vars)));
}

/// Adding a fresh template together with its first row appends that row's
/// reconstruction to the block's lines.
pub proof fn lemma_lines_new_template(
    skels: Seq<Seq<u8>>,
    ids: Seq<u32>,
    cols: Seq<Seq<Seq<Seq<u8>>>>,
    ns: Seq<u8>,
    vars: Seq<Seq<u8>>,
)
    requires
        cols.len() == skels.len(),
        skels.len() < 0x100000000,
        forall|r: int| 0 <= r < ids.len() ==> (#[trigger] ids[r] as int) < skels.len(),
    ensures
        block_lines(
            skels.push(ns),
            ids.push(skels.len() as u32),
            cols.push(Seq::new(vars.len(), |j: int| seq![vars[j]])),
        ) == block_lines(skels, ids, cols).push(recon(ns, vars)),
{
    let nid = skels.len() as u32;
    let skels2 = skels.push(ns);
    let ids2 = ids.push(nid);
    let cols2 = cols.push(Seq::new(vars.len(), |j: int| seq![vars[j]]));
    let l1 = block_lines(skels, ids, cols);
    let l2 = block_lines(skels2, ids2, cols2);
    assert(ids2.drop_last() =~= ids);
    assert forall|r: int| 0 <= r < ids.len() implies l2[r] == l1[r] by {
        assert(ids2.take(r) =~= ids.take(r));
        assert(ids2[r] == ids[r]);
        let u = ids[r];
        assert(skels2[u as int] == skels[u as int]);
        assert(cols2[u as int] == cols[u as int]);
        assert(row_cells(ids2, cols2, r) =~= row_cells(ids, cols, r));
    }
    let rn = ids.len() as int;
    assert(ids2.take(rn) =~= ids);
    assert(ids2[rn] == nid);
    assert(ids.take(rn) =~= ids);
    lemma_occ_zero(ids, nid);
    assert forall|j: int| 0 <= j < vars.len() implies row_cells(ids2, cols2, rn)[j] == vars[j] by {
        assert(cols2[nid as int] == Seq::new(vars.len(), |k: int| seq![vars[k]]));
        assert(cols2[nid as int][j] == seq![vars[j]]);
        assert(occ_count(ids.take(rn), nid) == 0);
    }
    assert(row_cells(ids2, cols2, rn) =~= vars);
    assert(l2 =~= l1.push(recon(ns, vars)));
}

// ---------------------------------------------------------------------------
// Unified remapping
// ---------------------------------------------------------------------------

/// `order` lists each template index below `nt` exactly once.
pub open spec fn is_perm(order: Seq<u32>, nt: int) -> bool {
    &&& order.len() == nt
    &&& forall|k: int| 0 <= k < nt ==> (#[trigger] order[k] as int) < nt
    &&& forall|k1: int, k2: int| 0 <= k1 < k2 < nt ==> order[k1] != order[k2]
    &&& forall|t: u32| 0 <= (t as int) < nt ==> #[trigger] order.contains(t)
}

/// Renaming the ids through a permutation renames the counts.
pub proof fn lemma_occ_mapped(ids1: Seq<u32>, ids2: Seq<u32>, order: Seq<u32>, n: u32)
    requires
        ids1.len() == ids2.len(),
        (n as int) < order.len(),
        forall|k1: int, k2: int|
            0 <= k1 < k2 < order.len() ==> order[k1] != order[k2],
        forall|k: int|
            0 <= k < ids2.len() ==> 0 <= (#[trigger] ids2[k] as int) < order.len() && order[
                ids2[k] as int] == ids1[k],
    ensures
        occ_count(ids2, n) == occ_count(ids1, order[n as int]),
    decreases ids1.len(),
{
    if ids1.len() > 0 {
        assert(forall|k: int|
            0 <= k < ids2.drop_last().len() ==> ids2.drop_last()[k] == ids2[k]);
        lemma_occ_mapped(ids1.drop_last(), ids2.drop_last(), order, n);
        let a = ids2.last();
        if a == n {
            assert(ids1.last() == order[n as int]);
        } else {
            if ids1.last() == order[n as int] {
                assert(order[a as int] == order[n as int]);
                if (a as int) < (n as int) {
                    assert(order[a as int] != order[n as int]);
                } else {
                    assert(order[n as int] != order[a as int]);
                }
                assert(false);
            }
        }
    }
}

/// Renaming templates and ids through a permutation leaves the block's
/// lines unchanged.
pub proof fn lemma_lines_permuted(
    skels1: Seq<Seq<u8>>,
    ids1: Seq<u32>,
    cols1: Seq<Seq<Seq<Seq<u8>>>>,
    skels2: Seq<Seq<u8>>,
    ids2: Seq<u32>,
    cols2: Seq<Seq<Seq<Seq<u8>>>>,
    order: Seq<u32>,
)
    requires
        is_perm(order, skels1.len() as int),
        cols1.len() == skels1.len(),
        skels2.len() == skels1.len(),
        cols2.len() == skels1.len(),
        forall|k: int| 0 <= k < skels1.len() ==> (#[trigger] skels2[k]) == skels1[order[k] as int],
        forall|k: int| 0 <= k < skels1.len() ==> (#[trigger] cols2[k]) == cols1[order[k] as int],
        ids2.len() == ids1.len(),
        forall|k: int|
            0 <= k < ids2.len() ==> 0 <= (#[trigger] ids2[k] as int) < skels1.len() && order[
                ids2[k] as int] == ids1[k],
    ensures
        block_lines(skels2, ids2, cols2) == block_lines(skels1, ids1, cols1),
{
    let l1 = block_lines(skels1, ids1, cols1);
    let l2 = block_lines(skels2, ids2, cols2);
    assert forall|r: int| 0 <= r < ids1.len() implies l2[r] == l1[r] by {
        let u2 = ids2[r];
        let u1 = ids1[r];
        assert(order[u2 as int] == u1);
        assert(skels2[u2 as int] == skels1[u1 as int] && cols2[u2 as int] == cols1[u1 as int]);
        assert(forall|k: int|
            0 <= k < r ==> ids2.take(r)[k] == ids2[k] && ids1.take(r)[k] == ids1[k]);
        lemma_occ_mapped(ids1.take(r), ids2.take(r), order, u2);
        assert(occ_count(ids2.take(r), u2) == occ_count(ids1.take(r), u1));
        assert(row_cells(ids2, cols2, r) =~= row_cells(ids1, cols1, r));
    }
    assert(l2 =~= l1);
}

/// Whether template `a` ranks before `b`: higher count first, ties broken
/// by the smaller id, which is the earlier-created (first-appearing) one.
pub open spec fn ranked_before(counts: Seq<u64>, a: u32, b: u32) -> bool {
    counts[a as int] > counts[b as int] || (counts[a as int] == counts[b as int] && a < b)
}

/// Selection sort of the template ids by rank.
#[verifier::loop_isolation(false)]
#[verifier::rlimit(100)]
fn sort_by_rank(counts: &Vec<u64>) -> (order: Vec<u32>)
    requires
        counts@.len() <= 0xffffffff,
    ensures
        is_perm(order@, counts@.len() as int),
        forall|n1: int, n2: int|
            0 <= n1 < n2 < order@.len() ==> ranked_before(
                counts@,
                #[trigger] order@[n1],
                #[trigger] order@[n2],
            ),
{
    let nt = counts.len();
    let mut order: Vec<u32> = Vec::new();
    let mut k: usize = 0;
    while k < nt
        invariant
            k <= nt,
            order@.len() == k,
            forall|i: int| 0 <= i < k ==> (#[trigger] order@[i]) == i as u32,
        decreases nt - k,
    {
        order.push(k as u32);
        k = k + 1;
    }
    proof {
        assert forall|t: u32| 0 <= (t as int) < nt implies #[trigger] order@.contains(t) by {
            assert(order@[t as int] == t);
        }
        assert(is_perm(order@, nt as int));
    }
    let mut n: usize = 0;
    while n < nt
        invariant
            n <= nt,
            order@.len() == nt,
            is_perm(order@, nt as int),
            forall|n1: int, n2: int|
                0 <= n1 < n2 < n ==> ranked_before(
                    counts@,
                    #[trigger] order@[n1],
                    #[trigger] order@[n2],
                ),
            forall|n1: int, n2: int|
                0 <= n1 < n && n <= n2 < nt ==> ranked_before(
                    counts@,
                    #[trigger] order@[n1],
                    #[trigger] order@[n2],
                ),
        decreases nt - n,
    {
        let mut m: usize = n;
        let mut i: usize = n + 1;
        while i < nt
            invariant
                n <= m < i <= nt,
                order@.len() == nt,
                is_perm(order@, nt as int),
                forall|k2: int|
                    n <= k2 < i && k2 != m ==> ranked_before(
                        counts@,
                        order@[m as int],
                        #[trigger] order@[k2],
                    ),
            decreases nt - i,
        {
            let a = order[i];
            let b = order[m];
            if counts[a as usize] > counts[b as usize] || (counts[a as usize] == counts[
                b as usize] && a < b) {
                m = i;
            }
            i = i + 1;
        }
        let ghost before = order@;
        let va = order[n];
        let vb = order[m];
        {
            let p = &mut order[n];
            *p = vb;
        }
        {
            let p = &mut order[m];
            *p = va;
        }
        proof {
            let after = order@;
            assert(after =~= before.update(n as int, vb).update(m as int, va));
            assert forall|k1: int, k2: int| 0 <= k1 < k2 < nt implies after[k1] != after[k2] by {
                if k1 == n as int {
                } else if k2 == n as int {
                } else if k1 == m as int {
                } else if k2 == m as int {
                }
            }
            assert forall|t: u32| 0 <= (t as int) < nt implies #[trigger] after.contains(t) by {
                assert(before.contains(t));
                let k0 = choose|k0: int| 0 <= k0 < before.len() && before[k0] == t;
                assert(before[k0] == t);
                if k0 == n as int {
                    assert(after[m as int] == t);
                } else if k0 == m as int {
                    assert(after[n as int] == t);
                } else {
                    assert(after[k0] == t);
                }
            }
            assert(is_perm(after, nt as int));
            // The selected element ranks before every other element of the
            // unsorted region.
            assert forall|k2: int| n < k2 < nt implies ranked_before(
                counts@,
                after[n as int],
                #[trigger] after[k2],
            ) by {
                if k2 == m as int {
                    if m != n {
                        assert(after[k2] == before[n as int]);
                        assert(ranked_before(counts@, before[m as int], before[n as int]));
                    }
                } else {
                    assert(after[k2] == before[k2]);
                    assert(ranked_before(counts@, before[m as int], before[k2]));
                }
            }
            assert forall|n1: int, n2: int| 0 <= n1 < n2 < n + 1 implies ranked_before(
                counts@,
                #[trigger] after[n1],
                #[trigger] after[n2],
            ) by {
                if n2 < n as int {
                    assert(after[n1] == before[n1] && after[n2] == before[n2]);
                } else {
                    assert(n2 == n as int);
                    assert(after[n1] == before[n1]);
                    assert(after[n2] == before[m as int]);
                    assert(ranked_before(counts@, before[n1], before[m as int]));
                }
            }
            assert forall|n1: int, n2: int| 0 <= n1 < n + 1 && n + 1 <= n2 < nt
                implies ranked_before(counts@, #[trigger] after[n1], #[trigger] after[n2]) by {
                if n1 < n as int {
                    if n2 == m as int && m != n {
                        assert(after[n2] == before[n as int]);
                        assert(ranked_before(counts@, before[n1], before[n as int]));
                    } else {
                        assert(after[n2] == before[n2]);
                    }
                } else {
                    assert(n1 == n as int);
                }
            }
        }
        n = n + 1;
    }
    order
}

/// Remaps a row-group so that template ids are assigned by descending
/// frequency, ties broken by creation order (first appearance).  The lines
/// the row-group stands for are unchanged.
#[verifier::loop_isolation(false)]
#[verifier::rlimit(100)]
pub fn remap_unified(reg: &TemplateRegistry, ids: &Vec<u32>) -> (r: (TemplateRegistry, Vec<u32>))
    requires
        reg.wf(),
        state_wf(reg.skels(), ids@, reg_cols(reg)),
        1 <= reg.skels().len() <= 0xffffffff,
    ensures
        r.0.wf(),
        state_wf(r.0.skels(), r.1@, reg_cols(&r.0)),
        r.0.skels().len() == reg.skels().len(),
        r.1@.len() == ids@.len(),
        block_lines(r.0.skels(), r.1@, reg_cols(&r.0)) == block_lines(
            reg.skels(),
            ids@,
            reg_cols(reg),
        ),
        forall|n1: int, n2: int|
            0 <= n1 < n2 < r.0.skels().len() ==> #[trigger] occ_count(r.1@, n1 as u32)
                >= #[trigger] occ_count(r.1@, n2 as u32),
{
    let nt = reg.num_templates();
    let nrows = ids.len();
    // Per-template row counts.
    let mut counts: Vec<u64> = Vec::new();
    let mut k: usize = 0;
    while k < nt
        invariant
            k <= nt,
            counts@.len() == k,
            forall|t: int| 0 <= t < k ==> (#[trigger] counts@[t]) == 0,
        decreases nt - k,
    {
        counts.push(0);
        k = k + 1;
    }
    proof {
        assert(forall|t: u32|
            0 <= (t as int) < nt ==> #[trigger] occ_count(ids@.take(0), t) == 0);
    }
    let mut r: usize = 0;
    while r < nrows
        invariant
            r <= nrows,
            nrows == ids@.len(),
            counts@.len() == nt,
            forall|t: u32|
                0 <= (t as int) < nt ==> (#[trigger] occ_count(ids@.take(r as int), t))
                    == counts@[t as int],
        decreases nrows - r,
    {
        let t = ids[r];
        assert((t as int) < nt);
        let ghost cbefore = counts@;
        let c = counts[t as usize];
        proof {
            lemma_occ_le_len(ids@.take(r as int), t);
        }
        {
            let p = &mut counts[t as usize];
            *p = c + 1;
        }
        proof {
            assert(counts@ == cbefore.update(t as int, (c + 1) as u64));
            assert forall|u: u32| 0 <= (u as int) < nt implies (#[trigger] occ_count(
                ids@.take(r + 1),
                u,
            )) == counts@[u as int] by {
                assert(ids@.take(r + 1).drop_last() =~= ids@.take(r as int));
                assert(ids@.take(r + 1).last() == ids@[r as int]);
                assert(occ_count(ids@.take(r as int), u) == cbefore[u as int]);
                assert(occ_count(ids@.take(r + 1), u) == occ_count(ids@.take(r as int), u) + (
                if ids@[r as int] == u {
                    1nat
                } else {
                    0nat
                }));
                if u == t {
                    assert(counts@[u as int] == c + 1);
                } else {
                    assert(counts@[u as int] == cbefore[u as int]);
                }
            }
        }
        r = r + 1;
    }
    proof {
        assert(ids@.take(nrows as int) =~= ids@);
    }
    let order = sort_by_rank(&counts);
    // Inverse of the permutation.
    let mut inv: Vec<u32> = Vec::new();
    let mut k2: usize = 0;
    while k2 < nt
        invariant
            k2 <= nt,
            inv@.len() == k2,
        decreases nt - k2,
    {
        inv.push(0);
        k2 = k2 + 1;
    }
    let mut n: usize = 0;
    while n < nt
        invariant
            n <= nt,
            inv@.len() == nt,
            order@.len() == nt,
            forall|k3: int|
                0 <= k3 < n ==> (#[trigger] inv@[order@[k3] as int]) == k3 as u32,
        decreases nt - n,
    {
        let oi = order[n];
        let ghost ibefore = inv@;
        {
            let p = &mut inv[oi as usize];
            *p = n as u32;
        }
        proof {
            assert forall|k3: int| 0 <= k3 < n + 1 implies (#[trigger] inv@[order@[k3] as int])
                == k3 as u32 by {
                if k3 < n as int {
                    assert(order@[k3] != order@[n as int]);
                }
            }
        }
        n = n + 1;
    }
    // Rebuild the registry in rank order.
    let mut new_templates: Vec<crate::registry::Template> = Vec::new();
    let mut n2: usize = 0;
    while n2 < nt
        invariant
            n2 <= nt,
            new_templates@.len() == n2,
            order@.len() == nt,
            is_perm(order@, nt as int),
            forall|j: int|
                0 <= j < n2 ==> (#[trigger] new_templates@[j]).skeleton@ == reg.skels()[
                    order@[j] as int] && new_templates@[j].cols_model() == reg_cols(reg)[
                    order@[j] as int] && new_templates@[j].wf(),
        decreases nt - n2,
    {
        let t_old = order[n2] as usize;
        let src = &reg.templates[t_old];
        let mut skel_copy: Vec<u8> = Vec::new();
        let slen = src.skeleton.len();
        let mut q: usize = 0;
        while q < slen
            invariant
                q <= slen,
                slen == src.skeleton@.len(),
                skel_copy@ == src.skeleton@.take(q as int),
            decreases slen - q,
        {
            skel_copy.push(src.skeleton[q]);
            assert(skel_copy@ =~= src.skeleton@.take(q + 1));
            q = q + 1;
        }
        proof {
            assert(src.skeleton@.take(slen as int) =~= src.skeleton@);
        }
        let mut cols_copy: Vec<crate::column::ColumnBuffer> = Vec::new();
        let ncols = src.cols.len();
        let mut j: usize = 0;
        while j < ncols
            invariant
                j <= ncols,
                ncols == src.cols@.len(),
                cols_copy@.len() == j,
                forall|p: int|
                    0 <= p < j ==> (#[trigger] cols_copy@[p]).cells() == src.cols@[p].cells()
                        && cols_copy@[p].wf() == src.cols@[p].wf(),
            decreases ncols - j,
        {
            let cb = src.cols[j].duplicate();
            cols_copy.push(cb);
            j = j + 1;
        }
        let tpl = crate::registry::Template { skeleton: skel_copy, cols: cols_copy };
        proof {
            assert(tpl.cols_model() =~= src.cols_model());
            assert(reg.wf());
            assert(reg.templates@[t_old as int].wf());
            assert(tpl.wf());
            assert(reg_cols(reg)[t_old as int] == src.cols_model());
            assert(reg.skels()[t_old as int] == src.skeleton@);
        }
        new_templates.push(tpl);
        n2 = n2 + 1;
    }
    let new_reg = TemplateRegistry { templates: new_templates };
    // Rewrite the id stream.
    let mut new_ids: Vec<u32> = Vec::new();
    let mut r2: usize = 0;
    while r2 < nrows
        invariant
            r2 <= nrows,
            nrows == ids@.len(),
            new_ids@.len() == r2,
            inv@.len() == nt,
            order@.len() == nt,
            is_perm(order@, nt as int),
            forall|k3: int| 0 <= k3 < nt ==> (#[trigger] inv@[order@[k3] as int]) == k3 as u32,
            forall|p: int|
                0 <= p < r2 ==> 0 <= (#[trigger] new_ids@[p] as int) < nt && order@[
                    new_ids@[p] as int] == ids@[p],
        decreases nrows - r2,
    {
        let t = ids[r2];
        assert((t as int) < nt);
        proof {
            assert(order@.contains(t));
            let k0 = choose|k0: int| 0 <= k0 < order@.len() && order@[k0] == t;
            assert(inv@[order@[k0] as int] == k0 as u32);
            assert(inv@[t as int] == k0 as u32);
            assert(order@[inv@[t as int] as int] == t);
        }
        let ni = inv[t as usize];
        new_ids.push(ni);
        r2 = r2 + 1;
    }
    proof {
        let skels1 = reg.skels();
        let cols1 = reg_cols(reg);
        let skels2 = new_reg.skels();
        let cols2 = reg_cols(&new_reg);
        assert(skels2.len() == nt);
        assert(cols2.len() == nt);
        assert forall|j: int| 0 <= j < nt implies (#[trigger] skels2[j]) == skels1[
            order@[j] as int] by {
            assert(skels2[j] == new_reg.templates@[j].skeleton@);
            assert(new_reg.templates@[j].skeleton@ == skels1[order@[j] as int]);
        }
        assert forall|j: int| 0 <= j < nt implies (#[trigger] cols2[j]) == cols1[
            order@[j] as int] by {
            assert(cols2[j] == new_reg.templates@[j].cols_model());
            assert(new_reg.templates@[j].cols_model() == cols1[order@[j] as int]);
        }
        lemma_lines_permuted(skels1, ids@, cols1, skels2, new_ids@, cols2, order@);
        // Well-formedness of the renamed state.
        assert forall|j: int| 0 <= j < nt implies #[trigger] occ_count(new_ids@, j as u32)
            == occ_count(ids@, order@[j]) by {
            lemma_occ_mapped(ids@, new_ids@, order@, j as u32);
        }
        assert forall|j: int| 0 <= j < nt implies (#[trigger] cols2[j]).len() == count_ph(
            skels2[j],
        ) by {
            assert(cols1[order@[j] as int].len() == count_ph(skels1[order@[j] as int]));
        }
        assert forall|j: int| 0 <= j < nt implies #[trigger] occ_count(new_ids@, j as u32)
            >= 1 by {
            let t = order@[j];
            assert(occ_count(ids@, ((t as int) as u32)) >= 1);
            assert(((t as int) as u32) == t);
        }
        assert forall|j: int, p: int|
            0 <= j < nt && 0 <= p < cols2[j].len() implies (#[trigger] cols2[j][p]).len()
                == occ_count(new_ids@, j as u32) by {
            let t = order@[j];
            assert(cols2[j][p] == cols1[t as int][p]);
            assert(cols1[t as int][p].len() == occ_count(ids@, (t as int) as u32));
            assert(((t as int) as u32) == t);
        }
        assert forall|j: int| 0 <= j < nt implies !contains_seq(
            #[trigger] skels2[j],
            rsep(),
        ) by {
            let t = order@[j];
            assert(!contains_seq(skels1[t as int], rsep()));
        }
        assert(state_wf(skels2, new_ids@, cols2));
        assert(new_reg.wf());
        // Frequency monotonicity.
        assert forall|n1: int, n2a: int| 0 <= n1 < n2a < nt implies #[trigger] occ_count(
            new_ids@,
            n1 as u32,
        ) >= #[trigger] occ_count(new_ids@, n2a as u32) by {
            assert(ranked_before(counts@, order@[n1], order@[n2a]));
            assert(occ_count(ids@, order@[n1]) == counts@[order@[n1] as int]);
            assert(occ_count(ids@, order@[n2a]) == counts@[order@[n2a] as int]);
        }
    }
    (new_reg, new_ids)
}

} // verus!
