//! The template registry: interns skeletons into small integer ids, in
//! insertion order, and stores the columnar cells of every template.  A
//! registry lives for one row-group only.

use vstd::prelude::*;
use crate::column::ColumnBuffer;
use crate::tokenizer::count_ph;

verus! {

/// A skeleton with its columnar storage, one column per placeholder.
pub struct Template {
    pub skeleton: Vec<u8>,
    pub cols: Vec<ColumnBuffer>,
}

impl Template {
    /// The cells of every column.
    pub open spec fn cols_model(&self) -> Seq<Seq<Seq<u8>>> {
        self.cols@.map_values(|c: ColumnBuffer| c.cells())
    }

    /// Columns are well formed, and their number is fixed by the first row:
    /// either none yet, or one per skeleton placeholder.
    pub open spec fn wf(&self) -> bool {
        &&& forall|j: int| 0 <= j < self.cols@.len() ==> (#[trigger] self.cols@[j]).wf()
        &&& self.cols@.len() == 0 || self.cols@.len() == count_ph(self.skeleton@)
    }
}

/// First index of `x` among `ss`, if any.
pub open spec fn find_skel(ss: Seq<Seq<u8>>, x: Seq<u8>) -> Option<int>
    decreases ss.len(),
{
    if ss.len() == 0 {
        None
    } else if ss[0] == x {
        Some(0int)
    } else {
        match find_skel(ss.skip(1), x) {
            Some(i) => Some(i + 1),
            None => None,
        }
    }
}

/// A found index is in range, holds `x`, and is the first such index.
pub proof fn lemma_find_skel(ss: Seq<Seq<u8>>, x: Seq<u8>)
    ensures
        match find_skel(ss, x) {
            Some(i) => 0 <= i < ss.len() && ss[i] == x && forall|j: int| 0 <= j < i ==> ss[j] != x,
            None => forall|j: int| 0 <= j < ss.len() ==> ss[j] != x,
        },
    decreases ss.len(),
{
    if ss.len() > 0 && ss[0] != x {
        lemma_find_skel(ss.skip(1), x);
        match find_skel(ss.skip(1), x) {
            Some(i) => {
                assert forall|j: int| 0 <= j < i + 1 implies ss[j] != x by {
                    if j > 0 {
                        assert(ss.skip(1)[j - 1] == ss[j]);
                    }
                }
            },
            None => {
                assert forall|j: int| 0 <= j < ss.len() implies ss[j] != x by {
                    if j > 0 {
                        assert(ss.skip(1)[j - 1] == ss[j]);
                    }
                }
            },
        }
    }
}

/// Whether two byte vectors hold the same bytes.
pub fn vec_u8_eq(a: &Vec<u8>, b: &Vec<u8>) -> (r: bool)
    ensures
        r == (a@ == b@),
{
    if a.len() != b.len() {
        return false;
    }
    let n = a.len();
    let mut i: usize = 0;
    while i < n
        invariant
            i <= n,
            n == a@.len() == b@.len(),
            forall|j: int| 0 <= j < i ==> a@[j] == b@[j],
        decreases n - i,
    {
        if a[i] != b[i] {
            return false;
        }
        i = i + 1;
    }
    proof {
        assert(a@ =~= b@);
    }
    true
}

/// The per-row-group template registry.
pub struct TemplateRegistry {
    pub templates: Vec<Template>,
}

impl TemplateRegistry {
    /// The interned skeletons, in id order.
    pub open spec fn skels(&self) -> Seq<Seq<u8>> {
        self.templates@.map_values(|t: Template| t.skeleton@)
    }

    /// The columnar cells of template `t`.
    pub open spec fn cols_of(&self, t: int) -> Seq<Seq<Seq<u8>>> {
        self.templates@[t].cols_model()
    }

    pub open spec fn wf(&self) -> bool {
        forall|t: int| 0 <= t < self.templates@.len() ==> (#[trigger] self.templates@[t]).wf()
    }

    /// An empty registry.
    pub fn new() -> (r: TemplateRegistry)
        ensures
            r.wf(),
            r.skels() == Seq::<Seq<u8>>::empty(),
            r.templates@.len() == 0,
    {
        let r = TemplateRegistry { templates: Vec::new() };
        proof {
            assert(r.skels() =~= Seq::<Seq<u8>>::empty());
        }
        r
    }

    /// Number of templates interned so far.
    pub fn num_templates(&self) -> (r: usize)
        ensures
            r == self.skels().len(),
    {
        self.templates.len()
    }

    /// Interns a skeleton: returns its id, and whether it was new.  A new
    /// skeleton gets the next id and an empty column list.
    #[verifier::loop_isolation(false)]
    pub fn intern(&mut self, skel: &Vec<u8>) -> (r: (usize, bool))
        requires
            old(self).wf(),
        ensures
            final(self).wf(),
            match find_skel(old(self).skels(), skel@) {
                Some(j) => r.0 == j && r.1 == false && final(self).templates@
                    == old(self).templates@,
                None => r.0 == old(self).skels().len() && r.1 == true && final(self).skels()
                    == old(self).skels().push(skel@) && final(self).templates@.len() == old(
                    self,
                ).templates@.len() + 1 && forall|t: int|
                    0 <= t < old(self).templates@.len() ==> final(self).templates@[t] == old(
                        self,
                    ).templates@[t],
            },
            match find_skel(old(self).skels(), skel@) {
                Some(j) => true,
                None => final(self).cols_of(old(self).skels().len() as int)
                    == Seq::<Seq<Seq<u8>>>::empty(),
            },
    {
        let n = self.templates.len();
        let mut i: usize = 0;
        while i < n
            invariant
                i <= n,
                n == self.templates@.len(),
                forall|j: int| 0 <= j < i ==> self.skels()[j] != skel@,
            decreases n - i,
        {
            if vec_u8_eq(&self.templates[i].skeleton, skel) {
                proof {
                    lemma_find_skel(self.skels(), skel@);
                    assert(self.skels()[i as int] == skel@);
                    match find_skel(self.skels(), skel@) {
                        Some(j) => {
                            assert(j <= i);
                            assert(j >= i);
                        },
                        None => {
                            assert(false);
                        },
                    }
                }
                proof {
                    assert(self.wf());
                }
                return (i, false);
            }
            proof {
                assert(self.skels()[i as int] == self.templates@[i as int].skeleton@);
            }
            i = i + 1;
        }
        proof {
            lemma_find_skel(self.skels(), skel@);
            match find_skel(self.skels(), skel@) {
                Some(j) => {
                    assert(self.skels()[j] != skel@);
                    assert(false);
                },
                None => {},
            }
        }
        let mut skel_copy: Vec<u8> = Vec::new();
        let slen = skel.len();
        let mut j: usize = 0;
        while j < slen
            invariant
                j <= slen,
                slen == skel@.len(),
                skel_copy@ == skel@.take(j as int),
            decreases slen - j,
        {
            skel_copy.push(skel[j]);
            assert(skel_copy@ =~= skel@.take(j + 1));
            j = j + 1;
        }
        proof {
            assert(skel@.take(slen as int) =~= skel@);
        }
        let ghost old_templates = self.templates@;
        self.templates.push(Template { skeleton: skel_copy, cols: Vec::new() });
        proof {
            assert(self.skels() =~= old(self).skels().push(skel@));
            assert(self.templates@[old_templates.len() as int].cols_model()
                =~= Seq::<Seq<Seq<u8>>>::empty());
        }
        (n, true)
    }

    /// Records one row for template `id`.  The first row fixes the column
    /// count; later rows append one cell per column, extra variables being
    /// truncated.
    #[verifier::loop_isolation(false)]
    pub fn push_row(&mut self, id: usize, vars: &Vec<Vec<u8>>)
        requires
            old(self).wf(),
            id < old(self).templates@.len(),
            old(self).cols_of(id as int).len() == 0 ==> vars@.len() == count_ph(
                old(self).templates@[id as int].skeleton@,
            ),
        ensures
            final(self).wf(),
            final(self).skels() == old(self).skels(),
            final(self).templates@.len() == old(self).templates@.len(),
            forall|t: int|
                0 <= t < old(self).templates@.len() && t != id ==> final(self).templates@[t]
                    == old(self).templates@[t],
            old(self).cols_of(id as int).len() == 0 ==> final(self).cols_of(id as int)
                == Seq::new(vars@.len(), |j: int| seq![vars@[j]@]),
            old(self).cols_of(id as int).len() > 0 ==> final(self).cols_of(id as int).len()
                == old(self).cols_of(id as int).len() && (forall|j: int|
                0 <= j < old(self).cols_of(id as int).len() ==> final(self).cols_of(id as int)[j]
                    == (if j < vars@.len() {
                    old(self).cols_of(id as int)[j].push(vars@[j]@)
                } else {
                    old(self).cols_of(id as int)[j]
                })),
    {
        let ghost old_templates = self.templates@;
        let ghost target_cols = (if old(self).cols_of(id as int).len() == 0 {
            Seq::new(vars@.len(), |j: int| seq![vars@[j]@])
        } else {
            Seq::new(
                old(self).cols_of(id as int).len(),
                |j: int|
                    if j < vars@.len() {
                        old(self).cols_of(id as int)[j].push(vars@[j]@)
                    } else {
                        old(self).cols_of(id as int)[j]
                    },
            )
        });
        {
            let t = &mut self.templates[id];
            let ghost old_t = *t;
            if t.cols.len() == 0 {
                let vn = vars.len();
                let mut j: usize = 0;
                while j < vn
                    invariant
                        j <= vn,
                        vn == vars@.len(),
                        t.cols@.len() == j,
                        t.skeleton == old_t.skeleton,
                        forall|k: int|
                            0 <= k < j ==> (#[trigger] t.cols@[k]).wf() && t.cols@[k].cells()
                                == seq![vars@[k]@],
                    decreases vn - j,
                {
                    let mut cb = ColumnBuffer::new();
                    cb.push(&vars[j]);
                    proof {
                        assert(Seq::<Seq<u8>>::empty().push(vars@[j as int]@) =~= seq![
                            vars@[j as int]@,
                        ]);
                    }
                    t.cols.push(cb);
                    j = j + 1;
                }
                proof {
                    assert(t.cols_model() =~= target_cols);
                }
            } else {
                let cn = t.cols.len();
                let vn = vars.len();
                let limit = if vn < cn {
                    vn
                } else {
                    cn
                };
                let mut j: usize = 0;
                while j < limit
                    invariant
                        j <= limit,
                        limit <= cn,
                        limit <= vn,
                        limit == (if vn < cn {
                            vn
                        } else {
                            cn
                        }),
                        cn == t.cols@.len(),
                        vn == vars@.len(),
                        t.skeleton == old_t.skeleton,
                        forall|k: int| 0 <= k < cn ==> (#[trigger] t.cols@[k]).wf(),
                        forall|k: int|
                            0 <= k < j ==> (#[trigger] t.cols@[k]).cells()
                                == old_t.cols@[k].cells().push(vars@[k]@),
                        forall|k: int|
                            j <= k < cn ==> (#[trigger] t.cols@[k]).cells()
                                == old_t.cols@[k].cells(),
                    decreases limit - j,
                {
                    let cb = &mut t.cols[j];
                    cb.push(&vars[j]);
                    j = j + 1;
                }
                proof {
                    assert forall|k: int| 0 <= k < cn implies t.cols_model()[k]
                        == target_cols[k] by {
                        if k >= limit {
                            assert(t.cols@[k].cells() == old_t.cols@[k].cells());
                        }
                    }
                    assert(t.cols_model() =~= target_cols);
                }
            }
            proof {
                assert(t.wf());
                assert(t.skeleton@ == old_t.skeleton@);
                assert(t.cols_model() == target_cols);
            }
        }
        proof {
            assert(self.templates@.len() == old_templates.len());
            assert(forall|t2: int|
                0 <= t2 < old_templates.len() && t2 != id ==> self.templates@[t2]
                    == old_templates[t2]);
            assert(self.templates@[id as int].cols_model() == target_cols);
            assert(self.templates@[id as int].skeleton@ == old_templates[id as int].skeleton@);
            assert(self.skels() =~= old(self).skels());
            if old(self).cols_of(id as int).len() == 0 {
                assert(self.cols_of(id as int) =~= Seq::new(
                    vars@.len(),
                    |j: int| seq![vars@[j]@],
                ));
            }
        }
    }

    /// Resets the registry for the next row-group.
    pub fn clear(&mut self)
        ensures
            final(self).wf(),
            final(self).skels() == Seq::<Seq<u8>>::empty(),
            final(self).templates@.len() == 0,
    {
        self.templates.clear();
        proof {
            assert(self.skels() =~= Seq::<Seq<u8>>::empty());
        }
    }
}

} // verus!
