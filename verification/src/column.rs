//! A columnar cell buffer: the cells of one column stored as a packed byte
//! buffer plus end offsets, one per cell.

use vstd::prelude::*;

verus! {

/// One column of a template: an ordered sequence of byte cells.
pub struct ColumnBuffer {
    data: Vec<u8>,
    offsets: Vec<usize>,
}

impl ColumnBuffer {
    /// The offsets are sorted and the last one covers the whole buffer.
    pub closed spec fn wf(&self) -> bool {
        &&& forall|i: int, j: int|
            0 <= i <= j < self.offsets@.len() ==> #[trigger] self.offsets@[i] <= #[trigger] self.offsets@[j]
        &&& self.offsets@.len() == 0 ==> self.data@.len() == 0
        &&& self.offsets@.len() > 0 ==> self.offsets@[self.offsets@.len() - 1] == self.data@.len()
    }

    /// The bytes of cell `i`.
    pub closed spec fn cell(&self, i: int) -> Seq<u8> {
        self.data@.subrange(
            if i == 0 {
                0
            } else {
                self.offsets@[i - 1] as int
            },
            self.offsets@[i] as int,
        )
    }

    /// The cells held, in insertion order.
    pub closed spec fn cells(&self) -> Seq<Seq<u8>> {
        Seq::new(self.offsets@.len(), |i: int| self.cell(i))
    }

    /// An empty column.
    pub fn new() -> (r: ColumnBuffer)
        ensures
            r.wf(),
            r.cells() == Seq::<Seq<u8>>::empty(),
    {
        let r = ColumnBuffer { data: Vec::new(), offsets: Vec::new() };
        proof {
            assert(r.cells() =~= Seq::<Seq<u8>>::empty());
        }
        r
    }

    /// Drops all cells; allocations are kept for reuse.
    pub fn clear(&mut self)
        ensures
            final(self).wf(),
            final(self).cells() == Seq::<Seq<u8>>::empty(),
    {
        self.data.clear();
        self.offsets.clear();
        proof {
            assert(self.cells() =~= Seq::<Seq<u8>>::empty());
        }
    }

    /// Appends one cell.
    pub fn push(&mut self, s: &Vec<u8>)
        requires
            old(self).wf(),
        ensures
            final(self).wf(),
            final(self).cells() == old(self).cells().push(s@),
    {
        let ghost old_data = self.data@;
        let ghost old_offsets = self.offsets@;
        let ghost old_cells = self.cells();
        let n = s.len();
        let mut j: usize = 0;
        while j < n
            invariant
                j <= n,
                n == s@.len(),
                self.data@ == old_data + s@.take(j as int),
                self.offsets@ == old_offsets,
            decreases n - j,
        {
            self.data.push(s[j]);
            assert(self.data@ =~= old_data + s@.take(j + 1));
            j = j + 1;
        }
        proof {
            assert(s@.take(n as int) =~= s@);
        }
        let end = self.data.len();
        self.offsets.push(end);
        proof {
            let newself = self;
            assert forall|i: int, j2: int| 0 <= i <= j2 < newself.offsets@.len() implies #[trigger] newself.offsets@[i]
                <= #[trigger] newself.offsets@[j2] by {
                if j2 < newself.offsets@.len() - 1 {
                    assert(old(self).wf());
                } else {
                    if i < newself.offsets@.len() - 1 {
                        assert(old_offsets[i] <= old_data.len());
                    }
                }
            }
            assert forall|i: int| 0 <= i < old_offsets.len() implies newself.cell(i)
                == old(self).cell(i) by {
                assert(old_offsets[i] <= old_data.len());
                if i > 0 {
                    assert(old_offsets[i - 1] <= old_data.len());
                }
                assert(newself.cell(i) =~= old(self).cell(i));
            }
            assert(newself.cell(old_offsets.len() as int) =~= s@);
            assert(newself.cells() =~= old_cells.push(s@));
        }
    }

    /// Returns a copy of cell `index`.
    pub fn get(&self, index: usize) -> (r: Vec<u8>)
        requires
            self.wf(),
            index < self.cells().len(),
        ensures
            r@ == self.cells()[index as int],
    {
        let start = if index == 0 {
            0
        } else {
            self.offsets[index - 1]
        };
        let end = self.offsets[index];
        let mut r: Vec<u8> = Vec::new();
        let mut j = start;
        proof {
            assert(self.offsets@[index as int] <= self.data@.len());
            if index > 0 {
                assert(self.offsets@[index - 1] <= self.offsets@[index as int]);
            }
        }
        while j < end
            invariant
                start <= j <= end,
                end <= self.data@.len(),
                r@ == self.data@.subrange(start as int, j as int),
            decreases end - j,
        {
            r.push(self.data[j]);
            assert(r@ =~= self.data@.subrange(start as int, j + 1));
            j = j + 1;
        }
        proof {
            assert(r@ =~= self.cells()[index as int]);
        }
        r
    }

    /// A copy of this column.
    pub fn duplicate(&self) -> (r: ColumnBuffer)
        ensures
            r.wf() == self.wf(),
            r.cells() == self.cells(),
    {
        let mut data: Vec<u8> = Vec::new();
        let dn = self.data.len();
        let mut i: usize = 0;
        while i < dn
            invariant
                i <= dn,
                dn == self.data@.len(),
                data@ == self.data@.take(i as int),
            decreases dn - i,
        {
            data.push(self.data[i]);
            assert(data@ =~= self.data@.take(i + 1));
            i = i + 1;
        }
        let mut offsets: Vec<usize> = Vec::new();
        let on = self.offsets.len();
        let mut j: usize = 0;
        while j < on
            invariant
                j <= on,
                on == self.offsets@.len(),
                offsets@ == self.offsets@.take(j as int),
            decreases on - j,
        {
            offsets.push(self.offsets[j]);
            assert(offsets@ =~= self.offsets@.take(j + 1));
            j = j + 1;
        }
        let r = ColumnBuffer { data, offsets };
        proof {
            assert(r.data@ =~= self.data@);
            assert(r.offsets@ =~= self.offsets@);
            assert(r.cells() =~= self.cells());
        }
        r
    }

    /// Number of cells held.
    pub fn len(&self) -> (r: usize)
        ensures
            r == self.cells().len(),
    {
        self.offsets.len()
    }
}

} // verus!
