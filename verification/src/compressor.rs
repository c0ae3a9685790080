//! The streaming compressor: parses lines, interns their skeletons, buffers
//! their variables in columns, and flushes row-groups through the entropy
//! backend.

use vstd::prelude::*;
use crate::backend::NativeCompressor;
use crate::container::{
    concat_lines, footer_bytes, split_lines, write_footer, RowGroupMetadata,
};
use crate::deserializer::{
    archive_wf, group_ok, group_piece, groups_output, image_of, lined_groups, payload_end,
    rows_before, sel_concat, ArchiveModel,
};
use crate::latin1::{is_utf8, is_utf8_exec, latin1_decode, decode_python_latin1};
use crate::oracle::{is_likely_binary, prefers_aggressive, prefers_split};
use crate::registry::{find_skel, lemma_find_skel, TemplateRegistry};
use crate::serializer::{
    block_body, block_lines, occ_count, reg_cols, remap_unified, sep_join, serialize_block,
    state_wf, lemma_lines_push, lemma_lines_new_template,
};
use crate::tokenizer::{
    contains_seq, count_ph, parse_line_manual, ph, recon, rsep, tok_skel, views_of, ParsingMode,
};

verus! {

/// What processing one line did to the current block.
#[derive(Clone, Copy, PartialEq, Eq, Structural, Debug)]
pub enum LineOutcome {
    /// The line was parsed and recorded.
    Added,
    /// The line holds a reserved placeholder; the stream must fall back to
    /// passthrough.
    Collision,
    /// The template table grew beyond the entropy limit; the stream falls
    /// back to passthrough.
    Bailout,
}

/// The CAST compressor: per-block template state plus the backend.
pub struct CASTCompressor<C: NativeCompressor> {
    pub registry: TemplateRegistry,
    pub stream_template_ids: Vec<u32>,
    pub mode: ParsingMode,
    pub backend: C,
    pub rows_in_current_block: usize,
    pub chunk_limit_rows: usize,
}

impl<C: NativeCompressor> CASTCompressor<C> {
    /// The current block's state is well formed.
    pub open spec fn block_wf(&self) -> bool {
        &&& self.registry.wf()
        &&& state_wf(
            self.registry.skels(),
            self.stream_template_ids@,
            reg_cols(&self.registry),
        )
        &&& self.rows_in_current_block == self.stream_template_ids@.len()
    }

    /// The lines the current block stands for.
    pub open spec fn cur_lines(&self) -> Seq<Seq<u8>> {
        block_lines(self.registry.skels(), self.stream_template_ids@, reg_cols(&self.registry))
    }

    /// A compressor with an empty block, Strict mode and the default row
    /// budget per row-group.
    pub fn new(backend: C) -> (r: CASTCompressor<C>)
        ensures
            r.block_wf(),
            r.cur_lines() == Seq::<Seq<u8>>::empty(),
            r.mode == ParsingMode::Strict,
            r.chunk_limit_rows == 200000,
            r.rows_in_current_block == 0,
            r.stream_template_ids@.len() == 0,
            r.registry.skels().len() == 0,
            r.backend == backend,
    {
        let r = CASTCompressor {
            registry: TemplateRegistry::new(),
            stream_template_ids: Vec::new(),
            mode: ParsingMode::Strict,
            backend,
            rows_in_current_block: 0,
            chunk_limit_rows: 200000,
        };
        proof {
            assert(r.registry.templates@.len() == 0);
            assert(reg_cols(&r.registry) =~= Seq::<Seq<Seq<Seq<u8>>>>::empty());
            assert(r.cur_lines() =~= Seq::<Seq<u8>>::empty());
        }
        r
    }

    /// Sets the number of rows per row-group.
    pub fn set_chunk_size(&mut self, rows: usize)
        ensures
            *final(self) == (CASTCompressor { chunk_limit_rows: rows, ..*old(self) }),
    {
        self.chunk_limit_rows = rows;
    }

    /// Clears the block state for the next row-group.
    pub fn reset_block_state(&mut self)
        ensures
            final(self).block_wf(),
            final(self).cur_lines() == Seq::<Seq<u8>>::empty(),
            final(self).stream_template_ids@.len() == 0,
            final(self).registry.skels().len() == 0,
            final(self).rows_in_current_block == 0,
            final(self).mode == old(self).mode,
            final(self).chunk_limit_rows == old(self).chunk_limit_rows,
            final(self).backend == old(self).backend,
    {
        self.registry.clear();
        self.stream_template_ids.clear();
        self.rows_in_current_block = 0;
        proof {
            assert(self.registry.templates@.len() == 0);
            assert(reg_cols(&self.registry) =~= Seq::<Seq<Seq<Seq<u8>>>>::empty());
            assert(self.cur_lines() =~= Seq::<Seq<u8>>::empty());
        }
    }

    /// Parses one line and records it in the current block.  On success the
    /// block stands for one more line, the line itself; a collision or a
    /// template-table blowup leaves the stream to fall back to passthrough.
    #[verifier::loop_isolation(false)]
    #[verifier::rlimit(100)]
    pub fn process_line(&mut self, line: &Vec<u8>, unique_limit: u64) -> (r: LineOutcome)
        requires
            old(self).block_wf(),
        ensures
            final(self).mode == old(self).mode,
            final(self).chunk_limit_rows == old(self).chunk_limit_rows,
            final(self).backend == old(self).backend,
            r == LineOutcome::Collision <==> (contains_seq(line@, ph()) || contains_seq(
                line@,
                rsep(),
            )),
            r == LineOutcome::Collision ==> *final(self) == *old(self),
            r == LineOutcome::Added ==> final(self).block_wf() && final(self).cur_lines()
                == old(self).cur_lines().push(line@) && final(self).stream_template_ids@.len()
                == old(self).stream_template_ids@.len() + 1 && final(self).rows_in_current_block
                == old(self).rows_in_current_block + 1,
            r == LineOutcome::Added ==> final(self).registry.skels() == (
            if find_skel(old(self).registry.skels(), tok_skel(line@, old(self).mode, 0))
                is Some {
                old(self).registry.skels()
            } else {
                old(self).registry.skels().push(tok_skel(line@, old(self).mode, 0))
            }),
            r == LineOutcome::Added ==> final(self).stream_template_ids@ == old(
                self,
            ).stream_template_ids@.push(
                (match find_skel(
                    old(self).registry.skels(),
                    tok_skel(line@, old(self).mode, 0),
                ) {
                    Some(j) => j,
                    None => old(self).registry.skels().len() as int,
                }) as u32,
            ),
            r == LineOutcome::Bailout ==> final(self).stream_template_ids@ == old(
                self,
            ).stream_template_ids@ && final(self).rows_in_current_block == old(
                self,
            ).rows_in_current_block && final(self).registry.skels().len() <= old(
                self,
            ).registry.skels().len() + 1,
            r == LineOutcome::Bailout <==> (!(contains_seq(line@, ph()) || contains_seq(
                line@,
                rsep(),
            )) && find_skel(old(self).registry.skels(), tok_skel(line@, old(self).mode, 0))
                is None && ((old(self).registry.skels().len() as u64 > unique_limit && old(
                self,
            ).registry.skels().len() > 100) || old(self).registry.skels().len()
                >= 0xffffffff)),
    {
        let mut vars: Vec<Vec<u8>> = Vec::new();
        let mut skel: Vec<u8> = Vec::new();
        if !parse_line_manual(line, self.mode, &mut vars, &mut skel) {
            return LineOutcome::Collision;
        }
        proof {
            assert(skel@.skip(0) =~= skel@);
            assert(vars@.skip(0) =~= vars@);
            assert(recon(skel@, views_of(vars@)) == line@);
            assert(count_ph(skel@) == vars@.len());
            assert(!contains_seq(skel@, rsep()));
            assert(skel@ == tok_skel(line@, old(self).mode, 0));
        }
        let nt_before = self.registry.num_templates();
        let ghost skels0 = self.registry.skels();
        let ghost ids0 = self.stream_template_ids@;
        let ghost cols0 = reg_cols(&self.registry);
        proof {
            lemma_find_skel(skels0, skel@);
        }
        let (id, created) = self.registry.intern(&skel);
        if created {
            // A blown-up template table defeats the transform: fall back.
            if (nt_before as u64 > unique_limit && nt_before > 100) || nt_before >= 0xffffffffusize {
                return LineOutcome::Bailout;
            }
        }
        let ghost skels1 = self.registry.skels();
        let ghost cols1 = reg_cols(&self.registry);
        proof {
            if created {
                assert(skels1 =~= skels0.push(skel@));
                assert forall|t: int| 0 <= t < skels0.len() implies #[trigger] cols1[t]
                    == cols0[t] by {
                    assert(self.registry.templates@[t] == old(self).registry.templates@[t]);
                }
            } else {
                assert(skels1 == skels0);
                assert(cols1 =~= cols0);
                assert(skels0[id as int] == skel@);
            }
        }
        proof {
            assert(id < self.registry.templates@.len());
            if created {
                assert(self.registry.cols_of(id as int) == Seq::<Seq<Seq<u8>>>::empty());
                assert(self.registry.skels()[id as int] == skel@);
                assert(self.registry.skels()[id as int] == self.registry.templates@[
                    id as int].skeleton@);
            } else {
                assert(self.registry.skels()[id as int] == self.registry.templates@[
                    id as int].skeleton@);
                assert(self.registry.templates@[id as int].skeleton@ == skels0[id as int]);
                assert(self.registry.cols_of(id as int) == cols0[id as int]);
                assert(cols0[id as int].len() == count_ph(skels0[id as int]));
            }
            assert(count_ph(self.registry.templates@[id as int].skeleton@) == vars@.len());
        }
        self.registry.push_row(id, &vars);
        self.stream_template_ids.push(id as u32);
        self.rows_in_current_block = self.stream_template_ids.len();
        proof {
            let skels2 = self.registry.skels();
            let cols2 = reg_cols(&self.registry);
            let ids2 = self.stream_template_ids@;
            assert(skels2 == skels1);
            assert(ids2 =~= ids0.push(id as u32));
            let nv = vars@.len() as int;
            if created {
                // A fresh template with its first row.
                assert(cols1[id as int] == Seq::<Seq<Seq<u8>>>::empty());
                assert(cols2[id as int] =~= Seq::new(nv as nat, |j: int| seq![vars@[j]@]));
                assert forall|t: int| 0 <= t < skels0.len() implies #[trigger] cols2[t]
                    == cols0[t] by {
                    assert(cols2[t] == cols1[t]);
                }
                assert(cols2 =~~= cols0.push(
                    Seq::new(views_of(vars@).len(), |j: int| seq![views_of(vars@)[j]]),
                ));
                lemma_lines_new_template(skels0, ids0, cols0, skel@, views_of(vars@));
                assert(recon(skel@, views_of(vars@)) == line@);
                assert(block_lines(skels2, ids2, cols2) =~= old(self).cur_lines().push(line@));
                // Well-formedness of the grown state.
                assert forall|t: int| 0 <= t < skels2.len() implies #[trigger] occ_count(
                    ids2,
                    t as u32,
                ) >= 1 by {
                    assert(ids2.drop_last() =~= ids0);
                    if t < skels0.len() {
                        assert(occ_count(ids0, t as u32) >= 1);
                    } else {
                        crate::serializer::lemma_occ_zero(ids0, t as u32);
                    }
                }
                assert forall|t: int, j: int|
                    0 <= t < skels2.len() && 0 <= j < cols2[t].len() implies (#[trigger] cols2[
                    t][j]).len() == occ_count(ids2, t as u32) by {
                    assert(ids2.drop_last() =~= ids0);
                    if t < skels0.len() {
                        assert(cols2[t] == cols0[t]);
                        assert(cols0[t][j].len() == occ_count(ids0, t as u32));
                    } else {
                        crate::serializer::lemma_occ_zero(ids0, t as u32);
                        assert(cols2[t][j] == seq![vars@[j]@]);
                    }
                }
                assert(state_wf(skels2, ids2, cols2));
            } else {
                // One more row of an existing template.
                assert(cols0[id as int].len() == count_ph(skels0[id as int]));
                assert(count_ph(skel@) == vars@.len());
                assert(nv == cols0[id as int].len());
                assert(cols2[id as int] =~= Seq::new(
                    cols0[id as int].len(),
                    |j: int| cols0[id as int][j].push(views_of(vars@)[j]),
                ));
                assert forall|t: int| 0 <= t < skels0.len() && t != id implies #[trigger] cols2[
                    t] == cols0[t] by {
                    assert(self.registry.templates@[t] == old(self).registry.templates@[t]);
                }
                assert(cols2 =~= cols0.update(
                    id as int,
                    Seq::new(
                        views_of(vars@).len(),
                        |j: int| cols0[id as int][j].push(views_of(vars@)[j]),
                    ),
                ));
                lemma_lines_push(skels0, ids0, cols0, id as u32, views_of(vars@));
                assert(recon(skel@, views_of(vars@)) == line@);
                assert(block_lines(skels2, ids2, cols2) =~= old(self).cur_lines().push(line@));
                assert forall|t: int| 0 <= t < skels2.len() implies #[trigger] occ_count(
                    ids2,
                    t as u32,
                ) >= 1 by {
                    assert(ids2.drop_last() =~= ids0);
                    assert(occ_count(ids0, t as u32) >= 1);
                }
                assert forall|t: int, j: int|
                    0 <= t < skels2.len() && 0 <= j < cols2[t].len() implies (#[trigger] cols2[
                    t][j]).len() == occ_count(ids2, t as u32) by {
                    assert(ids2.drop_last() =~= ids0);
                    if t == id as int {
                        assert(cols2[t][j] == cols0[t][j].push(views_of(vars@)[j]));
                        assert(cols0[t][j].len() == occ_count(ids0, t as u32));
                    } else {
                        assert(cols2[t] == cols0[t]);
                        assert(cols0[t][j].len() == occ_count(ids0, t as u32));
                    }
                }
                assert(state_wf(skels2, ids2, cols2));
            }
        }
        LineOutcome::Added
    }
}

/// With no row range requested, the selection is everything.
pub proof fn lemma_sel_concat_none(lines: Seq<Seq<u8>>, g: int)
    ensures
        crate::deserializer::sel_concat(lines, g, None) == concat_lines(lines),
    decreases lines.len(),
{
    if lines.len() > 0 {
        lemma_sel_concat_none(lines.skip(1), g + 1);
    }
}

/// The analysis sample of one line: its first 16 KiB.
pub open spec fn sample_line(l: Seq<u8>) -> Seq<u8> {
    if l.len() <= 16384 {
        l
    } else {
        l.take(16384)
    }
}

/// One line collides with the reserved placeholder byte sequences.
pub open spec fn line_collides(l: Seq<u8>) -> bool {
    contains_seq(l, ph()) || contains_seq(l, rsep())
}

/// The distinct Strict skeletons of the parsable sampled lines, in first
/// appearance order; a line that collides with the reserved bytes is not
/// counted.
pub open spec fn distinct_strict_skels(lines: Seq<Seq<u8>>) -> Seq<Seq<u8>>
    decreases lines.len(),
{
    if lines.len() == 0 {
        Seq::empty()
    } else {
        let prev = distinct_strict_skels(lines.drop_last());
        let l = sample_line(lines.last());
        if line_collides(l) {
            prev
        } else if find_skel(prev, tok_skel(l, ParsingMode::Strict, 0)) is Some {
            prev
        } else {
            prev.push(tok_skel(l, ParsingMode::Strict, 0))
        }
    }
}

impl<C: NativeCompressor> CASTCompressor<C> {
    /// Runs the Strict tokenizer over up to 1000 sample lines (each capped
    /// at 16 KiB) and switches to Aggressive mode when more than a tenth of
    /// them have distinct skeletons.  Only the mode is changed; the result
    /// is the pair (distinct skeletons, sampled lines) that decided it.
    #[verifier::loop_isolation(false)]
    pub fn analyze_strategy_from_sample(&mut self, text: &Vec<u8>) -> (r: (usize, usize))
        ensures
            *final(self) == (CASTCompressor { mode: final(self).mode, ..*old(self) }),
            r.1 as int == (if split_lines(text@).len() <= 1000 {
                split_lines(text@).len() as int
            } else {
                1000int
            }),
            r.0 <= r.1,
            r.0 as int == distinct_strict_skels(split_lines(text@).take(r.1 as int)).len(),
            r.1 > 0 ==> ((final(self).mode == ParsingMode::Aggressive) == (r.0 * 10 > r.1)),
            r.1 == 0 ==> final(self).mode == old(self).mode,
    {
        let n = text.len();
        let ghost all_lines = split_lines(text@);
        let mut distinct: Vec<Vec<u8>> = Vec::new();
        let mut line_count: usize = 0;
        let mut cursor: usize = 0;
        let mut vars: Vec<Vec<u8>> = Vec::new();
        let mut skel: Vec<u8> = Vec::new();
        proof {
            assert(text@.skip(0) =~= text@);
            assert(all_lines.skip(0) =~= all_lines);
            assert(all_lines.take(0) =~= Seq::<Seq<u8>>::empty());
        }
        while cursor < n && line_count < 1000
            invariant
                cursor <= n,
                n == text@.len(),
                line_count <= 1000,
                distinct@.len() <= line_count,
                all_lines == split_lines(text@),
                line_count <= all_lines.len(),
                split_lines(text@.skip(cursor as int)) == all_lines.skip(line_count as int),
                line_count + split_lines(text@.skip(cursor as int)).len() == split_lines(
                    text@,
                ).len(),
                views_of(distinct@) == distinct_strict_skels(all_lines.take(line_count as int)),
                *self == (CASTCompressor { mode: self.mode, ..*old(self) }),
            decreases n - cursor,
        {
            let ghost rest = text@.skip(cursor as int);
            proof {
                crate::container::lemma_find_nl_in_range(rest);
                assert(rest.len() > 0);
                match crate::container::find_nl(rest) {
                    Some(i) => {
                        assert(rest.take(i + 1) =~= text@.subrange(cursor as int, cursor + i + 1));
                        assert(rest.skip(i + 1) =~= text@.skip(cursor + i + 1));
                    },
                    None => {
                        assert(rest =~= text@.subrange(cursor as int, n as int));
                        assert(rest.skip(rest.len() as int) =~= text@.skip(n as int));
                    },
                }
            }
            let line_end = match crate::container::find_nl_exec(text, cursor) {
                Some(p) => p + 1,
                None => n,
            };
            let sample_end = if line_end - cursor > 16384 {
                cursor + 16384
            } else {
                line_end
            };
            let line = crate::deserializer::copy_range(text, cursor, sample_end);
            let ghost full = text@.subrange(cursor as int, line_end as int);
            proof {
                assert(split_lines(rest) =~= seq![full] + split_lines(text@.skip(line_end as int)));
                assert(all_lines.skip(line_count as int).len() >= 1);
                assert((line_count as int) < all_lines.len());
                assert(all_lines[line_count as int] == full) by {
                    assert(all_lines.skip(line_count as int)[0] == all_lines[line_count as int]);
                }
                assert(all_lines.skip(line_count + 1) =~= split_lines(
                    text@.skip(line_end as int),
                )) by {
                    assert(all_lines.skip(line_count + 1) =~= all_lines.skip(
                        line_count as int,
                    ).skip(1));
                    assert((seq![full] + split_lines(text@.skip(line_end as int))).skip(1)
                        =~= split_lines(text@.skip(line_end as int)));
                }
                assert(line@ =~= sample_line(full));
            }
            line_count = line_count + 1;
            vars.clear();
            skel.clear();
            let ghost dist_before = views_of(distinct@);
            // The analysis ignores collisions: the skeleton of an unparsable
            // line is simply not counted.
            if parse_line_manual(&line, ParsingMode::Strict, &mut vars, &mut skel) {
                proof {
                    assert(skel@.skip(0) =~= skel@);
                    assert(skel@ == tok_skel(sample_line(full), ParsingMode::Strict, 0));
                }
                let mut seen = false;
                let dn = distinct.len();
                let mut k: usize = 0;
                while k < dn && !seen
                    invariant
                        k <= dn,
                        dn == distinct@.len(),
                        !seen ==> forall|kk: int|
                            0 <= kk < k ==> (#[trigger] distinct@[kk])@ != skel@,
                        seen ==> exists|kk: int|
                            0 <= kk < dn && (#[trigger] distinct@[kk])@ == skel@,
                    decreases dn - k,
                {
                    if crate::registry::vec_u8_eq(&distinct[k], &skel) {
                        seen = true;
                    }
                    k = k + 1;
                }
                proof {
                    lemma_find_skel(dist_before, skel@);
                    if seen {
                        let kk = choose|kk: int|
                            0 <= kk < dn && (#[trigger] distinct@[kk])@ == skel@;
                        assert(dist_before[kk] == skel@);
                        assert(find_skel(dist_before, skel@) is Some);
                    } else {
                        if find_skel(dist_before, skel@) is Some {
                            let i = find_skel(dist_before, skel@).unwrap();
                            assert(distinct@[i]@ == skel@);
                            assert(false);
                        }
                    }
                }
                if !seen {
                    let copy = crate::deserializer::copy_range(&skel, 0, skel.len());
                    distinct.push(copy);
                    proof {
                        assert(views_of(distinct@) =~= dist_before.push(skel@));
                    }
                }
            } else {
                proof {
                    assert(line_collides(sample_line(full)));
                }
            }
            proof {
                assert(split_lines(rest).len() == 1 + split_lines(
                    text@.skip(line_end as int),
                ).len());
                assert(all_lines.take(line_count as int).drop_last() =~= all_lines.take(
                    line_count - 1,
                ));
                assert(all_lines.take(line_count as int).last() == full);
                assert(views_of(distinct@) == distinct_strict_skels(
                    all_lines.take(line_count as int),
                ));
            }
            cursor = line_end;
        }
        proof {
            if cursor == n {
                assert(split_lines(text@.skip(n as int)).len() == 0);
            }
        }
        let d = distinct.len();
        if line_count == 0 {
            return (d, line_count);
        }
        if prefers_aggressive(d, line_count) {
            self.mode = ParsingMode::Aggressive;
        } else {
            self.mode = ParsingMode::Strict;
        }
        (d, line_count)
    }

    /// The sampled-mode analysis of a whole buffer: Aggressive exactly when
    /// more than a tenth of the sampled lines had distinct Strict skeletons.
    pub fn analyze_strategy(&mut self, text: &Vec<u8>) -> (r: (usize, usize))
        ensures
            *final(self) == (CASTCompressor { mode: final(self).mode, ..*old(self) }),
            r.1 as int == (if split_lines(text@).len() <= 1000 {
                split_lines(text@).len() as int
            } else {
                1000int
            }),
            r.0 <= r.1,
            r.0 as int == distinct_strict_skels(split_lines(text@).take(r.1 as int)).len(),
            r.1 > 0 ==> ((final(self).mode == ParsingMode::Aggressive) == (r.0 * 10 > r.1)),
            r.1 == 0 ==> final(self).mode == old(self).mode,
    {
        self.analyze_strategy_from_sample(text)
    }

    /// Hands the whole input to the backend as one passthrough blob.
    pub fn create_passthrough(&self, data: &Vec<u8>) -> (r: Vec<u8>)
        ensures
            self.backend.inflate(r@) == Some(data@),
    {
        self.backend.compress(data)
    }

    /// Serializes and backend-compresses the current block.  The block is
    /// always emitted in the unified layout; the Split heuristic (tokens
    /// compressing worse than 3:1) only skips the frequency remapping, as
    /// the row-group container stores one blob per group.  `None` comes
    /// only when the block cannot be framed — a length field would overflow
    /// 32 bits or the joined registry is not UTF-8 — and the stream must
    /// then fall back to passthrough.  An empty block is never flushed
    /// (callers only flush after at least one recorded row; a zero-row
    /// block has nothing to frame).
    #[verifier::loop_isolation(false)]
    #[verifier::rlimit(100)]
    pub fn flush_current_block(&self, is_latin1: bool) -> (r: Option<Vec<u8>>)
        requires
            self.block_wf(),
            self.stream_template_ids@.len() >= 1,
        ensures
            match r {
                Some(cb) => exists|sk: Seq<Seq<u8>>, id2: Seq<u32>, co: Seq<Seq<Seq<Seq<u8>>>>|
                    {
                        &&& self.backend.inflate(cb@) == Some(
                            #[trigger] block_body(is_latin1, sk, id2, co),
                        )
                        &&& image_of(
                            block_body(is_latin1, sk, id2, co),
                            is_latin1,
                            sk,
                            id2,
                            co,
                        )
                        &&& block_lines(sk, id2, co) == self.cur_lines()
                        &&& id2.len() == self.stream_template_ids@.len()
                        &&& sk.len() == self.registry.skels().len()
                    },
                None => !(crate::serializer::lens_ok(
                    self.registry.skels(),
                    self.stream_template_ids@,
                ) && is_utf8(sep_join(self.registry.skels()))),
            },
    {
        proof {
            assert((self.stream_template_ids@[0] as int) < self.registry.skels().len());
        }
        // The layout heuristic: sample up to 50 cells of the first five
        // templates; tokens that compress worse than 3:1 skip the remapping.
        let nt = self.registry.num_templates();
        let mut skip_remap = false;
        if nt < 256 {
            let mut sample: Vec<u8> = Vec::new();
            let lim_t = if nt < 5 {
                nt
            } else {
                5
            };
            let mut t: usize = 0;
            let mut collected: usize = 0;
            while t < lim_t && collected <= 2000
                invariant
                    t <= lim_t,
                    lim_t <= self.registry.templates@.len(),
                decreases lim_t - t,
            {
                let ncols = self.registry.templates[t].cols.len();
                let mut j: usize = 0;
                while j < ncols
                    invariant
                        j <= ncols,
                        t < self.registry.templates@.len(),
                        ncols == self.registry.templates@[t as int].cols@.len(),
                        self.registry.wf(),
                    decreases ncols - j,
                {
                    let col = &self.registry.templates[t].cols[j];
                    let cl = col.len();
                    let lim_c = if cl < 50 {
                        cl
                    } else {
                        50
                    };
                    let mut k: usize = 0;
                    while k < lim_c
                        invariant
                            k <= lim_c,
                            lim_c <= col.cells().len(),
                            col.wf(),
                        decreases lim_c - k,
                    {
                        let cell = col.get(k);
                        crate::serializer::append_vec(&mut sample, &cell);
                        k = k + 1;
                    }
                    if collected <= usize::MAX - lim_c {
                        collected = collected + lim_c;
                    }
                    j = j + 1;
                }
                t = t + 1;
            }
            if sample.len() > 0 {
                let c_sample = self.backend.compress(&sample);
                skip_remap = prefers_split(sample.len(), c_sample.len());
            }
        }
        proof {
            assert forall|t: int| 0 <= t < self.registry.skels().len() implies #[trigger] self
                .registry.cols_of(t).len() == count_ph(self.registry.skels()[t]) by {
                assert(reg_cols(&self.registry)[t] == self.registry.cols_of(t));
                assert(reg_cols(&self.registry)[t].len() == count_ph(
                    self.registry.skels()[t],
                ));
            }
        }
        if !skip_remap {
            let (reg2, ids2) = remap_unified(&self.registry, &self.stream_template_ids);
            proof {
                assert forall|t: int| 0 <= t < reg2.skels().len() implies #[trigger] reg2
                    .cols_of(t).len() == count_ph(reg2.skels()[t]) by {
                    assert(reg_cols(&reg2)[t] == reg2.cols_of(t));
                    assert(reg_cols(&reg2)[t].len() == count_ph(reg2.skels()[t]));
                }
            }
            match serialize_block(&reg2, &ids2, is_latin1) {
                Some(bytes) => {
                    let cb = self.backend.compress(&bytes);
                    proof {
                        let sk = reg2.skels();
                        let id2 = ids2@;
                        let co = reg_cols(&reg2);
                        assert(bytes@ == block_body(is_latin1, sk, id2, co));
                        assert(image_of(block_body(is_latin1, sk, id2, co), is_latin1, sk, id2, co));
                        assert(self.backend.inflate(cb@) == Some(
                            block_body(is_latin1, sk, id2, co),
                        ));
                        assert(block_lines(sk, id2, co) == self.cur_lines());
                    }
                    Some(cb)
                },
                None => {
                    // The remapped layout would not frame; fall back to the
                    // creation order before giving up.
                    match serialize_block(&self.registry, &self.stream_template_ids, is_latin1) {
                        Some(bytes) => {
                            let cb = self.backend.compress(&bytes);
                            proof {
                                let sk = self.registry.skels();
                                let id2 = self.stream_template_ids@;
                                let co = reg_cols(&self.registry);
                                assert(bytes@ == block_body(is_latin1, sk, id2, co));
                                assert(image_of(
                                    block_body(is_latin1, sk, id2, co),
                                    is_latin1,
                                    sk,
                                    id2,
                                    co,
                                ));
                                assert(self.backend.inflate(cb@) == Some(
                                    block_body(is_latin1, sk, id2, co),
                                ));
                            }
                            Some(cb)
                        },
                        None => None,
                    }
                },
            }
        } else {
            match serialize_block(&self.registry, &self.stream_template_ids, is_latin1) {
                Some(bytes) => {
                    let cb = self.backend.compress(&bytes);
                    proof {
                        let sk = self.registry.skels();
                        let id2 = self.stream_template_ids@;
                        let co = reg_cols(&self.registry);
                        assert(bytes@ == block_body(is_latin1, sk, id2, co));
                        assert(image_of(block_body(is_latin1, sk, id2, co), is_latin1, sk, id2, co));
                        assert(self.backend.inflate(cb@) == Some(
                            block_body(is_latin1, sk, id2, co),
                        ));
                    }
                    Some(cb)
                },
                None => None,
            }
        }
    }

    /// Compresses one whole buffer as a single solid block.  The result is
    /// `(registry stream, id stream, payload, flag, mode label)`: this codec
    /// always emits the unified layout, so the first two parts are empty and
    /// the payload holds either one CAST block (the flag's low bits give the
    /// id width, bit `0x80` marks Latin-1) or, under flag 255, the
    /// passthrough copy of the input.
    #[verifier::loop_isolation(false)]
    #[verifier::rlimit(100)]
    pub fn compress(&mut self, input_data: &Vec<u8>) -> (r: (
        Vec<u8>,
        Vec<u8>,
        Vec<u8>,
        u8,
        String,
    ))
        requires
            old(self).block_wf(),
        ensures
            r.0@.len() == 0,
            r.1@.len() == 0,
            crate::oracle::is_likely_binary_spec(input_data@) ==> r.3 == 255,
            r.3 == 255 ==> old(self).backend.inflate(r.2@) == Some(input_data@),
            r.3 != 255 ==> ((r.3 & 0x80 != 0) == !is_utf8(input_data@)) && (exists|
                sk: Seq<Seq<u8>>,
                id2: Seq<u32>,
                co: Seq<Seq<Seq<Seq<u8>>>>,
            |
                {
                    &&& old(self).backend.inflate(r.2@) == Some(
                        block_body(!is_utf8(input_data@), sk, id2, co),
                    )
                    &&& image_of(
                        block_body(!is_utf8(input_data@), sk, id2, co),
                        !is_utf8(input_data@),
                        sk,
                        id2,
                        co,
                    )
                    &&& #[trigger] block_lines(sk, id2, co) == split_lines(
                        if is_utf8(input_data@) {
                            input_data@
                        } else {
                            latin1_decode(input_data@)
                        },
                    )
                    &&& r.3 & 0x7f == crate::serializer::flag_low_of(sk.len() as int)
                }),
    {
        let empty_reg: Vec<u8> = Vec::new();
        let empty_ids: Vec<u8> = Vec::new();
        // Binary inputs skip the transform entirely.
        if is_likely_binary(input_data) {
            let c = self.create_passthrough(input_data);
            return (empty_reg, empty_ids, c, 255, "Binary Guard Detected".to_string());
        }
        let lat = !is_utf8_exec(input_data);
        let text = if lat {
            decode_python_latin1(input_data)
        } else {
            crate::deserializer::copy_range(input_data, 0, input_data.len())
        };
        proof {
            if lat {
                assert(text@ == latin1_decode(input_data@));
            } else {
                assert(text@ =~= input_data@);
            }
        }
        if text.len() == 0 {
            let c = self.create_passthrough(input_data);
            return (empty_reg, empty_ids, c, 255, "Strict".to_string());
        }
        let _counts = self.analyze_strategy(&text);
        self.reset_block_state();
        // The entropy bailout budget, from the total line count.
        let n = text.len();
        let mut nl_count: u64 = 0;
        let mut ci: usize = 0;
        while ci < n
            invariant
                ci <= n,
                nl_count <= ci as u64,
            decreases n - ci,
        {
            if text[ci] == 0x0a {
                nl_count = nl_count + 1;
            }
            ci = ci + 1;
        }
        let line_count_real: u64 = if nl_count == 0xffff_ffff_ffff_ffffu64 {
            nl_count
        } else {
            nl_count + 1
        };
        let unique_limit: u64 = if self.mode == ParsingMode::Aggressive {
            (line_count_real / 5) * 2
        } else {
            line_count_real / 4
        };
        // One pass over the lines.
        let mut cursor: usize = 0;
        proof {
            assert(text@.skip(0) =~= text@);
        }
        while cursor < n
            invariant
                cursor <= n,
                n == text@.len(),
                self.block_wf(),
                self.mode == old(self).mode || true,
                self.backend == old(self).backend,
                self.cur_lines() + split_lines(text@.skip(cursor as int)) == split_lines(text@),
            decreases n - cursor,
        {
            let ghost rest = text@.skip(cursor as int);
            proof {
                crate::container::lemma_find_nl_in_range(rest);
            }
            let line_end = match crate::container::find_nl_exec(&text, cursor) {
                Some(p) => p + 1,
                None => n,
            };
            proof {
                assert(rest.len() > 0);
                match crate::container::find_nl(rest) {
                    Some(i) => {
                        assert(rest.take(i + 1) =~= text@.subrange(cursor as int, cursor + i + 1));
                        assert(rest.skip(i + 1) =~= text@.skip(cursor + i + 1));
                    },
                    None => {
                        assert(rest =~= text@.subrange(cursor as int, n as int));
                        assert(rest.skip(rest.len() as int) =~= text@.skip(n as int));
                    },
                }
            }
            let line = crate::deserializer::copy_range(&text, cursor, line_end);
            let ghost lines_before = self.cur_lines();
            let outcome = self.process_line(&line, unique_limit);
            if outcome != LineOutcome::Added {
                let c = self.create_passthrough(input_data);
                return (empty_reg, empty_ids, c, 255, "Collision Protected".to_string());
            }
            proof {
                assert(split_lines(rest) =~= seq![line@] + split_lines(
                    text@.skip(line_end as int),
                ));
                assert(self.cur_lines() =~= lines_before.push(line@));
                assert(self.cur_lines() + split_lines(text@.skip(line_end as int))
                    =~= split_lines(text@));
            }
            cursor = line_end;
        }
        proof {
            assert(split_lines(text@.skip(n as int)).len() == 0);
            assert(self.cur_lines() =~= split_lines(text@));
            assert(self.cur_lines().len() >= 1);
        }
        match self.flush_current_block(lat) {
            Some(cb) => {
                let nt = self.registry.num_templates();
                let flag_low: u8 = if nt == 1 {
                    3
                } else if nt < 256 {
                    2
                } else if nt > 65535 {
                    1
                } else {
                    0
                };
                let flag: u8 = if lat {
                    flag_low | 0x80
                } else {
                    flag_low
                };
                proof {
                    assert(flag != 255) by (bit_vector)
                        requires
                            flag_low == 0 || flag_low == 1 || flag_low == 2 || flag_low == 3,
                            flag == flag_low | 0x80 || flag == flag_low,
                    ;
                }
                proof {
                    assert(((flag & 0x80) != 0) == lat) by (bit_vector)
                        requires
                            flag_low == 0 || flag_low == 1 || flag_low == 2 || flag_low == 3,
                            flag == (if lat {
                                flag_low | 0x80
                            } else {
                                flag_low
                            }),
                    ;
                    let (sk, id2, co) = choose|
                        sk: Seq<Seq<u8>>,
                        id2: Seq<u32>,
                        co: Seq<Seq<Seq<Seq<u8>>>>,
                    |
                        {
                            &&& self.backend.inflate(cb@) == Some(
                                #[trigger] block_body(lat, sk, id2, co),
                            )
                            &&& image_of(block_body(lat, sk, id2, co), lat, sk, id2, co)
                            &&& block_lines(sk, id2, co) == self.cur_lines()
                            &&& id2.len() == self.stream_template_ids@.len()
                            &&& sk.len() == self.registry.skels().len()
                        };
                    assert(lat == !is_utf8(input_data@));
                    assert(self.cur_lines() == split_lines(text@));
                    assert(flag_low == crate::serializer::flag_low_of(sk.len() as int));
                    assert(flag & 0x7f == flag_low) by (bit_vector)
                        requires
                            flag_low == 0 || flag_low == 1 || flag_low == 2 || flag_low == 3,
                            flag == flag_low | 0x80 || flag == flag_low,
                    ;
                    assert({
                        &&& old(self).backend.inflate(cb@) == Some(
                            block_body(!is_utf8(input_data@), sk, id2, co),
                        )
                        &&& image_of(
                            block_body(!is_utf8(input_data@), sk, id2, co),
                            !is_utf8(input_data@),
                            sk,
                            id2,
                            co,
                        )
                        &&& #[trigger] block_lines(sk, id2, co) == split_lines(
                            if is_utf8(input_data@) {
                                input_data@
                            } else {
                                latin1_decode(input_data@)
                            },
                        )
                    });
                }
                let label = if self.mode == ParsingMode::Aggressive {
                    "Aggressive".to_string()
                } else {
                    "Strict".to_string()
                };
                (empty_reg, empty_ids, cb, flag, label)
            },
            None => {
                let c = self.create_passthrough(input_data);
                (empty_reg, empty_ids, c, 255, "Passthrough [Entropy]".to_string())
            },
        }
    }
}

impl<C: NativeCompressor> CASTCompressor<C> {
    /// Stores the whole input as raw passthrough row-groups (16 MiB each)
    /// followed by a footer: every group has kind 1 and zero rows, and the
    /// backend-decoded group slices concatenate back to the input.
    #[verifier::loop_isolation(false)]
    #[verifier::rlimit(100)]
    #[verifier::spinoff_prover]
    pub fn passthrough_archive(&self, input: &Vec<u8>) -> (r: Vec<u8>)
        ensures
            exists|w: ArchiveModel|
                {
                    &&& archive_wf(|s: Seq<u8>| self.backend.inflate(s), r@, w)
                    &&& #[trigger] groups_output(w, 0, 0, None) == input@
                    &&& forall|k: int|
                        0 <= k < w.metas.len() ==> (#[trigger] w.metas[k]).kind == 1
                },
    {
        let ghost inf = |s: Seq<u8>| self.backend.inflate(s);
        let n = input.len();
        let mut payload: Vec<u8> = Vec::new();
        let mut metas: Vec<RowGroupMetadata> = Vec::new();
        let mut off: usize = 0;
        let ghost mut gm = ArchiveModel {
            metas: Seq::empty(),
            lats: Seq::empty(),
            skelss: Seq::empty(),
            idss: Seq::empty(),
            colss: Seq::empty(),
            raws: Seq::empty(),
        };
        proof {
            assert(groups_output(gm, 0, 0, None) =~= Seq::<u8>::empty());
            assert(input@.take(0) =~= Seq::<u8>::empty());
        }
        while off < n
            invariant
                off <= n,
                n == input@.len(),
                metas@.len() <= 0xffffffff,
                off < n ==> metas@.len() <= 0xfffffffe,
                gm.metas == metas@,
                gm.lats.len() == gm.metas.len(),
                gm.skelss.len() == gm.metas.len(),
                gm.idss.len() == gm.metas.len(),
                gm.colss.len() == gm.metas.len(),
                gm.raws.len() == gm.metas.len(),
                payload_end(gm.metas) == payload@.len(),
                rows_before(gm.metas, gm.metas.len() as int) == 0,
                forall|k: int|
                    0 <= k < gm.metas.len() ==> (#[trigger] gm.metas[k]).start_offset as int
                        == (if k == 0 {
                        0int
                    } else {
                        gm.metas[k - 1].start_offset + gm.metas[k - 1].compressed_size
                    }),
                forall|k: int| 0 <= k < gm.metas.len() ==> (#[trigger] gm.metas[k]).kind == 1,
                forall|k: int|
                    0 <= k < gm.metas.len() ==> #[trigger] group_ok(inf, payload@, gm, k),
                groups_output(gm, 0, 0, None) == input@.take(off as int),
            decreases n - off,
        {
            let end = if n - off > 16777216 || metas.len() == 0xfffffffe {
                if metas.len() == 0xfffffffe {
                    n
                } else {
                    off + 16777216
                }
            } else {
                n
            };
            let chunk = crate::deserializer::copy_range(input, off, end);
            let cb = self.backend.compress(&chunk);
            let start = payload.len();
            let ghost pay_before = payload@;
            crate::serializer::append_vec(&mut payload, &cb);
            let m = RowGroupMetadata {
                start_offset: start as u64,
                compressed_size: (payload.len() - start) as u64,
                num_rows: 0,
                kind: 1,
            };
            let ghost gm_old = gm;
            metas.push(m);
            proof {
                gm = ArchiveModel {
                    metas: gm_old.metas.push(m),
                    lats: gm_old.lats.push(false),
                    skelss: gm_old.skelss.push(Seq::empty()),
                    idss: gm_old.idss.push(Seq::empty()),
                    colss: gm_old.colss.push(Seq::empty()),
                    raws: gm_old.raws.push(chunk@),
                };
                crate::deserializer::lemma_rows_before_push(
                    gm_old.metas,
                    m,
                    gm_old.metas.len() as int,
                );
                assert forall|k: int| 0 <= k < gm.metas.len() implies #[trigger] group_ok(
                    inf,
                    payload@,
                    gm,
                    k,
                ) by {
                    if k < gm_old.metas.len() {
                        assert(group_ok(inf, pay_before, gm_old, k));
                        assert(gm.metas[k] == gm_old.metas[k]);
                        assert(gm.raws[k] == gm_old.raws[k]);
                        crate::deserializer::lemma_group_end_le(gm_old.metas, k);
                        assert(group_piece(payload@, gm.metas[k]) =~= group_piece(
                            pay_before,
                            gm_old.metas[k],
                        ));
                    } else {
                        assert(gm.metas[k] == m);
                        assert(gm.raws[k] == chunk@);
                        assert(group_piece(payload@, m) =~= cb@);
                    }
                }
                crate::deserializer::lemma_groups_output_push(
                    gm_old,
                    m,
                    false,
                    Seq::empty(),
                    Seq::empty(),
                    Seq::empty(),
                    chunk@,
                    0,
                    0,
                );
                assert(groups_output(gm, 0, 0, None) =~= input@.take(end as int));
            }
            off = end;
        }
        let ghost pay = payload@;
        let fs = payload.len() as u64;
        write_footer(&mut payload, &metas, fs);
        proof {
            assert(input@.take(n as int) =~= input@);
            assert(payload@.take(pay.len() as int) =~= pay);
            assert forall|k: int| 0 <= k < gm.metas.len() implies #[trigger] group_ok(
                inf,
                payload@,
                gm,
                k,
            ) by {
                assert(group_ok(inf, pay, gm, k));
                crate::deserializer::lemma_group_end_le(gm.metas, k);
                assert(group_piece(payload@, gm.metas[k]) =~= group_piece(pay, gm.metas[k]));
            }
            assert(archive_wf(inf, payload@, gm));
        }
        payload
    }

    /// Compresses a whole input into the row-group container: CAST blocks of
    /// up to the configured row budget, a footer of group entries, and the
    /// magic trailer.  Binary-looking or non-UTF-8 input, placeholder
    /// collisions, framing limits and template blowups all fall back to
    /// passthrough groups.  Whatever path is taken, the archive's groups
    /// decode back to exactly the input; on the transform path the groups
    /// are lined: group `k` holds exactly the input's lines numbered
    /// `rows_before(k) .. rows_before(k + 1)` under global row numbering,
    /// every group but the last holds exactly the configured row budget, and
    /// any requested row range decodes to exactly the selected lines.
    #[verifier::loop_isolation(false)]
    #[verifier::rlimit(100)]
    #[verifier::spinoff_prover]
    pub fn compress_archive(&mut self, input: &Vec<u8>) -> (r: Vec<u8>)
        requires
            old(self).block_wf(),
            old(self).chunk_limit_rows >= 1,
        ensures
            final(self).backend == old(self).backend,
            exists|w: ArchiveModel|
                {
                    &&& archive_wf(|s: Seq<u8>| old(self).backend.inflate(s), r@, w)
                    &&& #[trigger] groups_output(w, 0, 0, None) == input@
                    &&& (lined_groups(w, split_lines(input@), old(self).chunk_limit_rows as int)
                        && (forall|target: Option<(u64, u64)>|
                        #[trigger] groups_output(w, 0, 0, target) == sel_concat(
                            split_lines(input@),
                            0,
                            target,
                        ))) || (forall|k: int|
                        0 <= k < w.metas.len() ==> (#[trigger] w.metas[k]).kind == 1)
                    &&& (crate::oracle::is_likely_binary_spec(input@) || !is_utf8(input@))
                        ==> (forall|k: int|
                        0 <= k < w.metas.len() ==> (#[trigger] w.metas[k]).kind == 1)
                    &&& (exists|j: int|
                        0 <= j < split_lines(input@).len() && (contains_seq(
                            #[trigger] split_lines(input@)[j],
                            ph(),
                        ) || contains_seq(split_lines(input@)[j], rsep()))) ==> (forall|k: int|
                        0 <= k < w.metas.len() ==> (#[trigger] w.metas[k]).kind == 1)
                },
    {
        let ghost inf = |s: Seq<u8>| self.backend.inflate(s);
        if is_likely_binary(input) {
            return self.passthrough_archive(input);
        }
        // Only UTF-8 text goes through the transform here; anything else is
        // stored as passthrough groups (the solid pipeline handles Latin-1
        // blocks in full).
        if !is_utf8_exec(input) {
            return self.passthrough_archive(input);
        }
        let text = crate::deserializer::copy_range(input, 0, input.len());
        if text.len() == 0 {
            let empty_metas: Vec<RowGroupMetadata> = Vec::new();
            let mut outv: Vec<u8> = Vec::new();
            write_footer(&mut outv, &empty_metas, 0);
            proof {
                let gm = ArchiveModel {
                    metas: Seq::empty(),
                    lats: Seq::empty(),
                    skelss: Seq::empty(),
                    idss: Seq::empty(),
                    colss: Seq::empty(),
                    raws: Seq::empty(),
                };
                assert(outv@.take(0) =~= Seq::<u8>::empty());
                assert(outv@ == outv@.take(payload_end(gm.metas)) + footer_bytes(
                    gm.metas,
                    payload_end(gm.metas) as u64,
                ));
                assert(archive_wf(inf, outv@, gm));
                assert(groups_output(gm, 0, 0, None) =~= input@);
                assert(split_lines(input@).len() == 0);
                assert(lined_groups(gm, split_lines(input@), self.chunk_limit_rows as int));
                assert forall|target: Option<(u64, u64)>| #[trigger] groups_output(
                    gm,
                    0,
                    0,
                    target,
                ) == sel_concat(split_lines(input@), 0, target) by {
                    assert(groups_output(gm, 0, 0, target) =~= Seq::<u8>::empty());
                    assert(sel_concat(split_lines(input@), 0, target) =~= Seq::<u8>::empty());
                }
            }
            return outv;
        }
        let _counts = self.analyze_strategy_from_sample(&text);
        self.reset_block_state();
        let n = text.len();
        let mut nl_count: u64 = 0;
        let mut ci: usize = 0;
        while ci < n
            invariant
                ci <= n,
                nl_count <= ci as u64,
            decreases n - ci,
        {
            if text[ci] == 0x0a {
                nl_count = nl_count + 1;
            }
            ci = ci + 1;
        }
        let unique_limit: u64 = if self.mode == ParsingMode::Aggressive {
            (nl_count / 5) * 2 + 1
        } else {
            nl_count / 4 + 1
        };
        let mut payload: Vec<u8> = Vec::new();
        let mut metas: Vec<RowGroupMetadata> = Vec::new();
        let mut cursor: usize = 0;
        let ghost mut covered: int = 0;
        let ghost mut rows_done: int = 0;
        let ghost lines_all = split_lines(text@);
        let ghost mut gm = ArchiveModel {
            metas: Seq::empty(),
            lats: Seq::empty(),
            skelss: Seq::empty(),
            idss: Seq::empty(),
            colss: Seq::empty(),
            raws: Seq::empty(),
        };
        proof {
            assert(text@.skip(0) =~= text@);
            assert(groups_output(gm, 0, 0, None) =~= Seq::<u8>::empty());
            assert(text@.take(0) =~= Seq::<u8>::empty());
            assert(concat_lines(Seq::<Seq<u8>>::empty()) =~= Seq::<u8>::empty());
            assert(text@.subrange(0, 0) =~= Seq::<u8>::empty());
            assert(self.cur_lines() =~= lines_all.subrange(0, 0));
            assert(lines_all.skip(0) =~= lines_all);
        }
        while cursor < n
            invariant
                cursor <= n,
                n == text@.len(),
                text@ == input@,
                0 <= covered <= cursor,
                self.block_wf(),
                self.backend == old(self).backend,
                self.chunk_limit_rows == old(self).chunk_limit_rows,
                self.chunk_limit_rows >= 1,
                metas@.len() <= 0xfffffffe,
                gm.metas == metas@,
                gm.lats.len() == gm.metas.len(),
                gm.skelss.len() == gm.metas.len(),
                gm.idss.len() == gm.metas.len(),
                gm.colss.len() == gm.metas.len(),
                gm.raws.len() == gm.metas.len(),
                payload_end(gm.metas) == payload@.len(),
                0 <= rows_before(gm.metas, gm.metas.len() as int) <= covered,
                forall|k: int|
                    0 <= k < gm.metas.len() ==> (#[trigger] gm.metas[k]).start_offset as int
                        == (if k == 0 {
                        0int
                    } else {
                        gm.metas[k - 1].start_offset + gm.metas[k - 1].compressed_size
                    }),
                forall|k: int|
                    0 <= k < gm.metas.len() ==> #[trigger] group_ok(inf, payload@, gm, k),
                groups_output(gm, 0, 0, None) == text@.take(covered),
                concat_lines(self.cur_lines()) == text@.subrange(covered, cursor as int),
                self.stream_template_ids@.len() <= cursor - covered,
                lines_all == split_lines(text@),
                rows_before(gm.metas, gm.metas.len() as int) == rows_done,
                0 <= rows_done,
                rows_done + self.cur_lines().len() <= lines_all.len(),
                forall|k: int| 0 <= k < gm.metas.len() ==> (#[trigger] gm.metas[k]).kind == 0,
                forall|k: int| 0 <= k < gm.metas.len() ==> !(#[trigger] gm.lats[k]),
                forall|k: int|
                    0 <= k < gm.metas.len() ==> (#[trigger] gm.metas[k]).num_rows as int
                        == self.chunk_limit_rows as int,
                forall|k: int|
                    0 <= k < gm.metas.len() ==> (#[trigger] gm.metas[k]).num_rows
                        == gm.idss[k].len(),
                forall|k: int|
                    0 <= k < gm.metas.len() ==> #[trigger] block_lines(
                        gm.skelss[k],
                        gm.idss[k],
                        gm.colss[k],
                    ) == lines_all.subrange(
                        rows_before(gm.metas, k),
                        rows_before(gm.metas, k + 1),
                    ),
                self.cur_lines() == lines_all.subrange(
                    rows_done,
                    rows_done + self.cur_lines().len(),
                ),
                split_lines(text@.skip(cursor as int)) == lines_all.skip(
                    rows_done + self.cur_lines().len(),
                ),
                self.stream_template_ids@.len() < self.chunk_limit_rows,
                forall|j: int|
                    0 <= j < rows_done + self.cur_lines().len() ==> !contains_seq(
                        #[trigger] lines_all[j],
                        ph(),
                    ) && !contains_seq(lines_all[j], rsep()),
            decreases n - cursor,
        {
            let ghost rest = text@.skip(cursor as int);
            proof {
                crate::container::lemma_find_nl_in_range(rest);
                assert(rest.len() > 0);
                match crate::container::find_nl(rest) {
                    Some(i2) => {
                        assert(rest.take(i2 + 1) =~= text@.subrange(
                            cursor as int,
                            cursor + i2 + 1,
                        ));
                        assert(rest.skip(i2 + 1) =~= text@.skip(cursor + i2 + 1));
                    },
                    None => {
                        assert(rest =~= text@.subrange(cursor as int, n as int));
                        assert(rest.skip(rest.len() as int) =~= text@.skip(n as int));
                    },
                }
            }
            let line_end = match crate::container::find_nl_exec(&text, cursor) {
                Some(p) => p + 1,
                None => n,
            };
            let line = crate::deserializer::copy_range(&text, cursor, line_end);
            let ghost lines_before = self.cur_lines();
            let outcome = self.process_line(&line, unique_limit);
            if outcome != LineOutcome::Added {
                // Collision or entropy bailout: the whole stream becomes
                // passthrough.
                self.reset_block_state();
                return self.passthrough_archive(input);
            }
            let ghost m0 = rows_done + lines_before.len();
            proof {
                assert(self.cur_lines() =~= lines_before.push(line@));
                crate::container::lemma_concat_lines_push(lines_before, line@);
                assert(concat_lines(self.cur_lines()) =~= text@.subrange(
                    covered,
                    line_end as int,
                ));
                assert(split_lines(rest) =~= seq![line@] + split_lines(
                    text@.skip(line_end as int),
                ));
                assert(lines_all.skip(m0) == split_lines(rest));
                assert(lines_all.skip(m0).len() >= 1);
                assert(m0 < lines_all.len());
                assert(lines_all[m0] == line@) by {
                    assert(lines_all.skip(m0)[0] == lines_all[m0]);
                }
                assert(lines_all.skip(m0 + 1) =~= split_lines(text@.skip(line_end as int))) by {
                    assert(lines_all.skip(m0 + 1) =~= lines_all.skip(m0).skip(1));
                    assert((seq![line@] + split_lines(text@.skip(line_end as int))).skip(1)
                        =~= split_lines(text@.skip(line_end as int)));
                }
                assert(self.cur_lines() =~= lines_all.subrange(rows_done, m0 + 1));
                assert(!contains_seq(line@, ph()) && !contains_seq(line@, rsep()));
                assert forall|j: int| 0 <= j < m0 + 1 implies !contains_seq(
                    #[trigger] lines_all[j],
                    ph(),
                ) && !contains_seq(lines_all[j], rsep()) by {
                    if j < m0 {
                    } else {
                        assert(lines_all[j] == line@);
                    }
                }
            }
            cursor = line_end;
            if self.rows_in_current_block >= self.chunk_limit_rows {
                let rows = self.rows_in_current_block;
                match self.flush_current_block(false) {
                    Some(cb) => {
                        if metas.len() >= 0xfffffffe {
                            self.reset_block_state();
                            return self.passthrough_archive(input);
                        }
                        let start = payload.len();
                        let ghost pay_before = payload@;
                        crate::serializer::append_vec(&mut payload, &cb);
                        let m = RowGroupMetadata {
                            start_offset: start as u64,
                            compressed_size: (payload.len() - start) as u64,
                            num_rows: rows as u64,
                            kind: 0,
                        };
                        let ghost gm_old = gm;
                        let ghost cov_old = covered;
                        metas.push(m);
                        proof {
                            let (sk, id2, co) = choose|
                                sk: Seq<Seq<u8>>,
                                id2: Seq<u32>,
                                co: Seq<Seq<Seq<Seq<u8>>>>,
                            |
                                {
                                    &&& self.backend.inflate(cb@) == Some(
                                        #[trigger] block_body(false, sk, id2, co),
                                    )
                                    &&& image_of(block_body(false, sk, id2, co), false, sk, id2, co)
                                    &&& block_lines(sk, id2, co) == self.cur_lines()
                                    &&& id2.len() == self.stream_template_ids@.len()
                                    &&& sk.len() == self.registry.skels().len()
                                };
                            gm = ArchiveModel {
                                metas: gm_old.metas.push(m),
                                lats: gm_old.lats.push(false),
                                skelss: gm_old.skelss.push(sk),
                                idss: gm_old.idss.push(id2),
                                colss: gm_old.colss.push(co),
                                raws: gm_old.raws.push(Seq::empty()),
                            };
                            crate::deserializer::lemma_rows_before_push(
                                gm_old.metas,
                                m,
                                gm_old.metas.len() as int,
                            );
                            assert forall|k: int| 0 <= k < gm.metas.len() implies #[trigger] group_ok(
                                inf,
                                payload@,
                                gm,
                                k,
                            ) by {
                                if k < gm_old.metas.len() {
                                    assert(group_ok(inf, pay_before, gm_old, k));
                                    assert(gm.metas[k] == gm_old.metas[k]);
                                    assert(gm.lats[k] == gm_old.lats[k]);
                                    assert(gm.skelss[k] == gm_old.skelss[k]);
                                    assert(gm.idss[k] == gm_old.idss[k]);
                                    assert(gm.colss[k] == gm_old.colss[k]);
                                    assert(gm.raws[k] == gm_old.raws[k]);
                                    crate::deserializer::lemma_group_end_le(gm_old.metas, k);
                                    assert(group_piece(payload@, gm.metas[k]) =~= group_piece(
                                        pay_before,
                                        gm_old.metas[k],
                                    ));
                                } else {
                                    assert(gm.metas[k] == m);
                                    assert(group_piece(payload@, m) =~= cb@);
                                }
                            }
                            crate::deserializer::lemma_groups_output_push(
                                gm_old,
                                m,
                                false,
                                sk,
                                id2,
                                co,
                                Seq::empty(),
                                0,
                                0,
                            );
                            covered = cursor as int;
                            assert(groups_output(gm, 0, 0, None) =~= text@.take(covered));
                            assert(rows == self.chunk_limit_rows);
                            assert(self.cur_lines().len() == rows);
                            assert forall|k: int| 0 <= k < gm.metas.len() implies #[trigger] block_lines(
                                gm.skelss[k],
                                gm.idss[k],
                                gm.colss[k],
                            ) == lines_all.subrange(
                                rows_before(gm.metas, k),
                                rows_before(gm.metas, k + 1),
                            ) by {
                                crate::deserializer::lemma_rows_before_push(gm_old.metas, m, k);
                                if k < gm_old.metas.len() {
                                    crate::deserializer::lemma_rows_before_push(
                                        gm_old.metas,
                                        m,
                                        k + 1,
                                    );
                                    assert(gm.skelss[k] == gm_old.skelss[k]);
                                    assert(gm.idss[k] == gm_old.idss[k]);
                                    assert(gm.colss[k] == gm_old.colss[k]);
                                    assert(gm.metas[k] == gm_old.metas[k]);
                                } else {
                                    assert(gm.skelss[k] == sk && gm.idss[k] == id2 && gm.colss[k]
                                        == co);
                                    assert(rows_before(gm.metas, k) == rows_done);
                                    assert(gm.metas[k] == m);
                                    assert(rows_before(gm.metas, k + 1) == rows_done + rows);
                                    assert(block_lines(sk, id2, co) == lines_all.subrange(
                                        rows_done,
                                        rows_done + rows,
                                    ));
                                }
                            }
                            assert(rows_before(gm.metas, gm.metas.len() as int) == rows_done
                                + rows);
                            rows_done = rows_done + rows;
                        }
                        self.reset_block_state();
                        proof {
                            assert(concat_lines(self.cur_lines()) =~= text@.subrange(
                                covered,
                                cursor as int,
                            ));
                            assert(self.cur_lines() =~= lines_all.subrange(rows_done, rows_done));
                            assert(split_lines(text@.skip(cursor as int)) == lines_all.skip(
                                rows_done,
                            ));
                        }
                    },
                    None => {
                        self.reset_block_state();
                        return self.passthrough_archive(input);
                    },
                }
            }
        }
        if self.rows_in_current_block > 0 {
            let rows = self.rows_in_current_block;
            match self.flush_current_block(false) {
                Some(cb) => {
                    if metas.len() >= 0xfffffffe {
                        self.reset_block_state();
                        return self.passthrough_archive(input);
                    }
                    let start = payload.len();
                    let ghost pay_before = payload@;
                    crate::serializer::append_vec(&mut payload, &cb);
                    let m = RowGroupMetadata {
                        start_offset: start as u64,
                        compressed_size: (payload.len() - start) as u64,
                        num_rows: rows as u64,
                        kind: 0,
                    };
                    let ghost gm_old = gm;
                    metas.push(m);
                    proof {
                        let (sk, id2, co) = choose|
                            sk: Seq<Seq<u8>>,
                            id2: Seq<u32>,
                            co: Seq<Seq<Seq<Seq<u8>>>>,
                        |
                            {
                                &&& self.backend.inflate(cb@) == Some(
                                    #[trigger] block_body(false, sk, id2, co),
                                )
                                &&& image_of(block_body(false, sk, id2, co), false, sk, id2, co)
                                &&& block_lines(sk, id2, co) == self.cur_lines()
                                &&& id2.len() == self.stream_template_ids@.len()
                                &&& sk.len() == self.registry.skels().len()
                            };
                        gm = ArchiveModel {
                            metas: gm_old.metas.push(m),
                            lats: gm_old.lats.push(false),
                            skelss: gm_old.skelss.push(sk),
                            idss: gm_old.idss.push(id2),
                            colss: gm_old.colss.push(co),
                            raws: gm_old.raws.push(Seq::empty()),
                        };
                        crate::deserializer::lemma_rows_before_push(
                            gm_old.metas,
                            m,
                            gm_old.metas.len() as int,
                        );
                        assert forall|k: int| 0 <= k < gm.metas.len() implies #[trigger] group_ok(
                            inf,
                            payload@,
                            gm,
                            k,
                        ) by {
                            if k < gm_old.metas.len() {
                                assert(group_ok(inf, pay_before, gm_old, k));
                                assert(gm.metas[k] == gm_old.metas[k]);
                                assert(gm.lats[k] == gm_old.lats[k]);
                                assert(gm.skelss[k] == gm_old.skelss[k]);
                                assert(gm.idss[k] == gm_old.idss[k]);
                                assert(gm.colss[k] == gm_old.colss[k]);
                                assert(gm.raws[k] == gm_old.raws[k]);
                                crate::deserializer::lemma_group_end_le(gm_old.metas, k);
                                assert(group_piece(payload@, gm.metas[k]) =~= group_piece(
                                    pay_before,
                                    gm_old.metas[k],
                                ));
                            } else {
                                assert(gm.metas[k] == m);
                                assert(group_piece(payload@, m) =~= cb@);
                            }
                        }
                        crate::deserializer::lemma_groups_output_push(
                            gm_old,
                            m,
                            false,
                            sk,
                            id2,
                            co,
                            Seq::empty(),
                            0,
                            0,
                        );
                        covered = n as int;
                        assert(groups_output(gm, 0, 0, None) =~= text@.take(covered));
                        assert(split_lines(text@.skip(n as int)).len() == 0);
                        assert(lines_all.skip(rows_done + rows).len() == 0);
                        assert(rows_done + rows == lines_all.len());
                        assert(self.cur_lines().len() == rows);
                        assert forall|k: int| 0 <= k < gm.metas.len() implies #[trigger] block_lines(
                            gm.skelss[k],
                            gm.idss[k],
                            gm.colss[k],
                        ) == lines_all.subrange(
                            rows_before(gm.metas, k),
                            rows_before(gm.metas, k + 1),
                        ) by {
                            crate::deserializer::lemma_rows_before_push(gm_old.metas, m, k);
                            if k < gm_old.metas.len() {
                                crate::deserializer::lemma_rows_before_push(gm_old.metas, m, k + 1);
                                assert(gm.skelss[k] == gm_old.skelss[k]);
                                assert(gm.idss[k] == gm_old.idss[k]);
                                assert(gm.colss[k] == gm_old.colss[k]);
                                assert(gm.metas[k] == gm_old.metas[k]);
                            } else {
                                assert(gm.skelss[k] == sk && gm.idss[k] == id2 && gm.colss[k]
                                    == co);
                                assert(rows_before(gm.metas, k) == rows_done);
                                assert(gm.metas[k] == m);
                                assert(rows_before(gm.metas, k + 1) == rows_done + rows);
                                assert(block_lines(sk, id2, co) == lines_all.subrange(
                                    rows_done,
                                    rows_done + rows,
                                ));
                            }
                        }
                        assert forall|k: int|
                            0 <= k < gm.metas.len() - 1 implies (#[trigger] gm.metas[k]).num_rows
                            as int == old(self).chunk_limit_rows as int by {
                            assert(gm.metas[k] == gm_old.metas[k]);
                        }
                        assert(rows_before(gm.metas, gm.metas.len() as int) == rows_done + rows);
                        rows_done = rows_done + rows;
                        assert(gm.metas.last() == m);
                        assert(m.kind == 0 && m.num_rows == rows as u64);
                        assert(1 <= rows && rows as int <= self.chunk_limit_rows as int);
                        assert(lined_groups(gm, lines_all, self.chunk_limit_rows as int));
                    }
                    self.reset_block_state();
                },
                None => {
                    self.reset_block_state();
                    return self.passthrough_archive(input);
                },
            }
        }
        proof {
            assert(covered == n as int);
            assert(text@.take(n as int) =~= text@);
            if self.cur_lines().len() == 0 {
            }
            assert(split_lines(text@.skip(n as int)).len() == 0);
            assert(rows_done == lines_all.len());
        }
        let ghost pay = payload@;
        let fs = payload.len() as u64;
        write_footer(&mut payload, &metas, fs);
        proof {
            assert(payload@.take(pay.len() as int) =~= pay);
            assert forall|k: int| 0 <= k < gm.metas.len() implies #[trigger] group_ok(
                inf,
                payload@,
                gm,
                k,
            ) by {
                assert(group_ok(inf, pay, gm, k));
                crate::deserializer::lemma_group_end_le(gm.metas, k);
                assert(group_piece(payload@, gm.metas[k]) =~= group_piece(pay, gm.metas[k]));
            }
            assert(archive_wf(inf, payload@, gm));
            assert(groups_output(gm, 0, 0, None) == input@);
            assert(lined_groups(gm, split_lines(input@), old(self).chunk_limit_rows as int));
            assert forall|target: Option<(u64, u64)>| #[trigger] groups_output(
                gm,
                0,
                0,
                target,
            ) == sel_concat(split_lines(input@), 0, target) by {
                crate::deserializer::lemma_lined_groups_target(
                    gm,
                    lines_all,
                    old(self).chunk_limit_rows as int,
                    0,
                    target,
                );
                assert(rows_before(gm.metas, 0) == 0);
                assert(lines_all.subrange(0, lines_all.len() as int) =~= lines_all);
            }
            assert forall|j: int| 0 <= j < lines_all.len() implies !contains_seq(
                #[trigger] lines_all[j],
                ph(),
            ) && !contains_seq(lines_all[j], rsep()) by {}
        }
        payload
    }
}

} // verus!
