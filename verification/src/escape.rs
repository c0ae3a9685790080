//! Byte stuffing for the variable payload of a block.
//!
//! Cells of one column are joined by `0x00`; columns are each terminated by
//! `0x02`; `0x01` escapes all three bytes (`01 01` for `0x01`, `01 00` for
//! `0x00`, `01 03` for `0x02`), so one escape-aware scan recovers every
//! boundary regardless of the cell contents.

use vstd::prelude::*;

verus! {

/// Row separator between cells of one column.
pub const ROW_SEP: u8 = 0x00;

/// Column terminator, written after every column.
pub const COL_SEP: u8 = 0x02;

/// Escape prefix.
pub const ESC: u8 = 0x01;

/// The stuffed encoding of one byte.
pub open spec fn esc_byte(b: u8) -> Seq<u8> {
    if b == 0x01 {
        seq![0x01u8, 0x01u8]
    } else if b == 0x00 {
        seq![0x01u8, 0x00u8]
    } else if b == 0x02 {
        seq![0x01u8, 0x03u8]
    } else {
        seq![b]
    }
}

/// The stuffed encoding of a cell.
pub open spec fn escape_bytes(s: Seq<u8>) -> Seq<u8>
    decreases s.len(),
{
    if s.len() == 0 {
        Seq::empty()
    } else {
        esc_byte(s[0]) + escape_bytes(s.skip(1))
    }
}

/// The byte an escape pair stands for.
pub open spec fn unesc_pair(b: u8) -> u8 {
    if b == 0x01 {
        0x01u8
    } else if b == 0x00 {
        0x00u8
    } else {
        0x02u8
    }
}

/// Reverses `escape_bytes`; a trailing lone escape byte is kept literally.
pub open spec fn unescape_bytes(s: Seq<u8>) -> Seq<u8>
    decreases s.len(),
{
    if s.len() == 0 {
        Seq::empty()
    } else if s[0] == ESC && s.len() >= 2 {
        seq![unesc_pair(s[1])] + unescape_bytes(s.skip(2))
    } else {
        seq![s[0]] + unescape_bytes(s.skip(1))
    }
}

/// Position of the first occurrence of `target` that is not covered by an
/// escape pair, scanning left to right.
pub open spec fn find_unescaped(s: Seq<u8>, target: u8) -> Option<int>
    decreases s.len(),
{
    if s.len() == 0 {
        None
    } else if s[0] == ESC {
        if s.len() == 1 {
            None
        } else {
            match find_unescaped(s.skip(2), target) {
                Some(i) => Some(i + 2),
                None => None,
            }
        }
    } else if s[0] == target {
        Some(0int)
    } else {
        match find_unescaped(s.skip(1), target) {
            Some(i) => Some(i + 1),
            None => None,
        }
    }
}

/// A found position lies in the sequence and holds the target byte.
pub proof fn lemma_find_in_range(s: Seq<u8>, target: u8)
    ensures
        match find_unescaped(s, target) {
            Some(i) => 0 <= i < s.len() && s[i] == target,
            None => true,
        },
    decreases s.len(),
{
    if s.len() == 0 {
    } else if s[0] == ESC {
        if s.len() > 1 {
            lemma_find_in_range(s.skip(2), target);
        }
    } else if s[0] == target {
    } else {
        lemma_find_in_range(s.skip(1), target);
    }
}

/// The escaped cells of one column joined by the row separator.
pub open spec fn cells_enc(cells: Seq<Seq<u8>>) -> Seq<u8>
    decreases cells.len(),
{
    if cells.len() == 0 {
        Seq::empty()
    } else if cells.len() == 1 {
        escape_bytes(cells[0])
    } else {
        escape_bytes(cells[0]) + seq![ROW_SEP] + cells_enc(cells.skip(1))
    }
}

/// The encoded columns, each terminated by the column separator.
pub open spec fn cols_enc(cols: Seq<Seq<Seq<u8>>>) -> Seq<u8>
    decreases cols.len(),
{
    if cols.len() == 0 {
        Seq::empty()
    } else {
        cells_enc(cols[0]) + seq![COL_SEP] + cols_enc(cols.skip(1))
    }
}

/// Splits a column body into its unescaped cells.
pub open spec fn cells_split(s: Seq<u8>) -> Seq<Seq<u8>>
    decreases s.len(),
    via cells_split_decreases
{
    match find_unescaped(s, ROW_SEP) {
        Some(i) => seq![unescape_bytes(s.take(i))] + cells_split(s.skip(i + 1)),
        None => seq![unescape_bytes(s)],
    }
}

#[via_fn]
proof fn cells_split_decreases(s: Seq<u8>) {
    lemma_find_in_range(s, ROW_SEP);
}

/// Splits the variable region into raw column bodies.
pub open spec fn cols_split(s: Seq<u8>) -> Seq<Seq<u8>>
    decreases s.len(),
    via cols_split_decreases
{
    if s.len() == 0 {
        Seq::<Seq<u8>>::empty()
    } else {
        match find_unescaped(s, COL_SEP) {
            Some(i) => seq![s.take(i)] + cols_split(s.skip(i + 1)),
            None => seq![s],
        }
    }
}

#[via_fn]
proof fn cols_split_decreases(s: Seq<u8>) {
    lemma_find_in_range(s, COL_SEP);
}

/// Escaping distributes over concatenation.
pub proof fn lemma_escape_add(a: Seq<u8>, b: Seq<u8>)
    ensures
        escape_bytes(a + b) == escape_bytes(a) + escape_bytes(b),
    decreases a.len(),
{
    if a.len() == 0 {
        assert(a + b =~= b);
        assert(escape_bytes(a) + escape_bytes(b) =~= escape_bytes(b));
    } else {
        lemma_escape_add(a.skip(1), b);
        assert((a + b).skip(1) =~= a.skip(1) + b);
        assert(esc_byte(a[0]) + (escape_bytes(a.skip(1)) + escape_bytes(b)) =~= (esc_byte(a[0])
            + escape_bytes(a.skip(1))) + escape_bytes(b));
    }
}

/// Unescaping recovers the bytes that were escaped.
pub proof fn lemma_unescape_escape(c: Seq<u8>)
    ensures
        unescape_bytes(escape_bytes(c)) == c,
    decreases c.len(),
{
    if c.len() == 0 {
        assert(unescape_bytes(escape_bytes(c)) =~= c);
    } else {
        lemma_unescape_escape(c.skip(1));
        let e = escape_bytes(c);
        let b = c[0];
        if b == 0x01 || b == 0x00 || b == 0x02 {
            assert(e =~= esc_byte(b) + escape_bytes(c.skip(1)));
            assert(e[0] == ESC);
            assert(e.len() >= 2);
            assert(e.skip(2) =~= escape_bytes(c.skip(1)));
            assert(unesc_pair(e[1]) == b);
            assert(unescape_bytes(e) =~= seq![b] + c.skip(1));
            assert(seq![b] + c.skip(1) =~= c);
        } else {
            assert(e =~= seq![b] + escape_bytes(c.skip(1)));
            assert(e[0] != ESC);
            assert(e.skip(1) =~= escape_bytes(c.skip(1)));
            assert(unescape_bytes(e) =~= seq![b] + c.skip(1));
            assert(seq![b] + c.skip(1) =~= c);
        }
    }
}

/// Scanning for a separator steps over a whole escaped cell.
pub proof fn lemma_find_past_escaped(c: Seq<u8>, rest: Seq<u8>, target: u8)
    requires
        target == ROW_SEP || target == COL_SEP,
    ensures
        find_unescaped(escape_bytes(c) + rest, target) == match find_unescaped(rest, target) {
            Some(i) => Some(i + escape_bytes(c).len()),
            None => None::<int>,
        },
    decreases c.len(),
{
    if c.len() == 0 {
        assert(escape_bytes(c) + rest =~= rest);
    } else {
        lemma_find_past_escaped(c.skip(1), rest, target);
        let s = escape_bytes(c) + rest;
        let b = c[0];
        let tailseq = escape_bytes(c.skip(1)) + rest;
        if b == 0x01 || b == 0x00 || b == 0x02 {
            assert(s =~= (esc_byte(b) + escape_bytes(c.skip(1))) + rest);
            assert(s[0] == ESC);
            assert(s.len() >= 2);
            assert(s.skip(2) =~= tailseq);
        } else {
            assert(s =~= (seq![b] + escape_bytes(c.skip(1))) + rest);
            assert(s[0] == b);
            assert(b != ESC && b != target);
            assert(s.skip(1) =~= tailseq);
        }
    }
}

/// Scanning for the column separator steps over a whole encoded column body.
pub proof fn lemma_find_col_past_cells(cells: Seq<Seq<u8>>, rest: Seq<u8>)
    ensures
        find_unescaped(cells_enc(cells) + rest, COL_SEP) == match find_unescaped(
            rest,
            COL_SEP,
        ) {
            Some(i) => Some(i + cells_enc(cells).len()),
            None => None::<int>,
        },
    decreases cells.len(),
{
    if cells.len() == 0 {
        assert(cells_enc(cells) + rest =~= rest);
    } else if cells.len() == 1 {
        lemma_find_past_escaped(cells[0], rest, COL_SEP);
    } else {
        lemma_find_col_past_cells(cells.skip(1), rest);
        let mid = seq![ROW_SEP] + (cells_enc(cells.skip(1)) + rest);
        lemma_find_past_escaped(cells[0], mid, COL_SEP);
        assert(cells_enc(cells) + rest =~= escape_bytes(cells[0]) + mid);
        assert(mid[0] == ROW_SEP);
        assert(mid[0] != ESC && mid[0] != COL_SEP);
        assert(mid.skip(1) =~= cells_enc(cells.skip(1)) + rest);
    }
}

/// Splitting a column body at the row separators recovers the cells.
pub proof fn lemma_cells_split_enc(cells: Seq<Seq<u8>>)
    requires
        cells.len() >= 1,
    ensures
        cells_split(cells_enc(cells)) == cells,
    decreases cells.len(),
{
    let e = cells_enc(cells);
    if cells.len() == 1 {
        lemma_find_past_escaped(cells[0], Seq::empty(), ROW_SEP);
        assert(escape_bytes(cells[0]) + Seq::<u8>::empty() =~= e);
        assert(find_unescaped(e, ROW_SEP) is None);
        lemma_unescape_escape(cells[0]);
        assert(cells_split(e) =~= cells);
    } else {
        lemma_cells_split_enc(cells.skip(1));
        let tail = seq![ROW_SEP] + cells_enc(cells.skip(1));
        lemma_find_past_escaped(cells[0], tail, ROW_SEP);
        assert(e =~= escape_bytes(cells[0]) + tail);
        let k = escape_bytes(cells[0]).len() as int;
        assert(find_unescaped(tail, ROW_SEP) == Some(0int));
        assert(find_unescaped(e, ROW_SEP) == Some(k));
        assert(e.take(k) =~= escape_bytes(cells[0]));
        assert(e.skip(k + 1) =~= cells_enc(cells.skip(1)));
        lemma_unescape_escape(cells[0]);
        lemma_find_in_range(e, ROW_SEP);
        assert(cells_split(e) =~= seq![cells[0]] + cells.skip(1));
        assert(seq![cells[0]] + cells.skip(1) =~= cells);
    }
}

/// Splitting the variable region at the column separators recovers the
/// encoded column bodies, in order.
pub proof fn lemma_cols_split_enc(cols: Seq<Seq<Seq<u8>>>)
    ensures
        cols_split(cols_enc(cols)) == cols.map_values(|cells: Seq<Seq<u8>>| cells_enc(cells)),
    decreases cols.len(),
{
    let e = cols_enc(cols);
    if cols.len() == 0 {
        assert(cols_split(e) =~= cols.map_values(|cells: Seq<Seq<u8>>| cells_enc(cells)));
    } else {
        lemma_cols_split_enc(cols.skip(1));
        let tail = seq![COL_SEP] + cols_enc(cols.skip(1));
        lemma_find_col_past_cells(cols[0], tail);
        assert(e =~= cells_enc(cols[0]) + tail);
        let k = cells_enc(cols[0]).len() as int;
        assert(find_unescaped(tail, COL_SEP) == Some(0int));
        assert(find_unescaped(e, COL_SEP) == Some(k));
        assert(e.len() > 0);
        assert(e.take(k) =~= cells_enc(cols[0]));
        assert(e.skip(k + 1) =~= cols_enc(cols.skip(1)));
        lemma_find_in_range(e, COL_SEP);
        assert(cols_split(e) =~= seq![cells_enc(cols[0])] + cols.skip(1).map_values(
            |cells: Seq<Seq<u8>>| cells_enc(cells),
        ));
        assert(seq![cells_enc(cols[0])] + cols.skip(1).map_values(
            |cells: Seq<Seq<u8>>| cells_enc(cells),
        ) =~= cols.map_values(|cells: Seq<Seq<u8>>| cells_enc(cells)));
    }
}

/// Appends the stuffed encoding of `cell` to `out`.
pub fn escape_into(out: &mut Vec<u8>, cell: &Vec<u8>)
    ensures
        final(out)@ == old(out)@ + escape_bytes(cell@),
{
    let n = cell.len();
    let mut i: usize = 0;
    while i < n
        invariant
            n == cell@.len(),
            i <= n,
            out@ == old(out)@ + escape_bytes(cell@.take(i as int)),
        decreases n - i,
    {
        let b = cell[i];
        if b == ESC {
            out.push(0x01);
            out.push(0x01);
        } else if b == ROW_SEP {
            out.push(0x01);
            out.push(0x00);
        } else if b == COL_SEP {
            out.push(0x01);
            out.push(0x03);
        } else {
            out.push(b);
        }
        proof {
            lemma_escape_add(cell@.take(i as int), seq![cell@[i as int]]);
            assert(cell@.take(i + 1) =~= cell@.take(i as int) + seq![cell@[i as int]]);
            assert(seq![cell@[i as int]].skip(1) =~= Seq::<u8>::empty());
            assert(escape_bytes(Seq::<u8>::empty()) =~= Seq::<u8>::empty());
            assert(escape_bytes(seq![cell@[i as int]]) =~= esc_byte(cell@[i as int]));
            assert(out@ =~= old(out)@ + escape_bytes(cell@.take(i + 1)));
        }
        i = i + 1;
    }
    proof {
        assert(cell@.take(n as int) =~= cell@);
    }
}

} // verus!
