//! The decompressor: backend decoding, block reconstruction, CRC checking,
//! the random-access archive reader, and the verified round trip.

use vstd::prelude::*;
use crate::backend::{crc32, crc32_of, matched_backends, NativeCompressor, NativeDecompressor};
use crate::compressor::{lemma_sel_concat_none, CASTCompressor};
use crate::container::{
    concat_lines, lemma_concat_split_lines, parse_footer, split_lines, RowGroupMetadata,
};
use crate::deserializer::{
    archive_wf, decode_block, group_ok, group_piece, groups_output, image_of, payload_end,
    rows_before, sel_concat, ArchiveModel,
};
use crate::latin1::{is_utf8, latin1_decode, latin1_encode, lemma_latin1_roundtrip};
use crate::serializer::{block_body, block_lines};
use crate::CastError;

verus! {

/// The CAST decompressor: just the backend.
pub struct CASTDecompressor<D: NativeDecompressor> {
    pub backend: D,
}

impl<D: NativeDecompressor> CASTDecompressor<D> {
    pub fn new(backend: D) -> (r: CASTDecompressor<D>)
        ensures
            r.backend == backend,
    {
        CASTDecompressor { backend }
    }

    /// Decompresses one row-group blob and reconstructs its lines, keeping
    /// only rows inside `target`.  On the compressed serialization of a
    /// well-formed row-group it returns exactly that row-group's selected
    /// lines.
    pub fn decompress_block_blob(
        &self,
        data: &Vec<u8>,
        start_row: u64,
        target: Option<(u64, u64)>,
    ) -> (r: Result<Vec<u8>, CastError>)
        ensures
            forall|lat: bool, sk: Seq<Seq<u8>>, id2: Seq<u32>, co: Seq<Seq<Seq<Seq<u8>>>>|
                self.backend.inflate(data@) == Some(block_body(lat, sk, id2, co))
                    && #[trigger] image_of(block_body(lat, sk, id2, co), lat, sk, id2, co)
                    ==> r is Ok && r.unwrap()@ == (if lat {
                    latin1_encode(
                        sel_concat(block_lines(sk, id2, co), start_row as int, target),
                    )
                } else {
                    sel_concat(block_lines(sk, id2, co), start_row as int, target)
                }),
    {
        match self.backend.decompress(data) {
            Some(blob) => {
                let out = decode_block(&blob, start_row, target);
                match out {
                    Ok(v) => Ok(v),
                    Err(e) => {
                        proof {
                            assert forall|
                                lat: bool,
                                sk: Seq<Seq<u8>>,
                                id2: Seq<u32>,
                                co: Seq<Seq<Seq<Seq<u8>>>>,
                            |
                                self.backend.inflate(data@) == Some(
                                    block_body(lat, sk, id2, co),
                                ) && #[trigger] image_of(
                                    block_body(lat, sk, id2, co),
                                    lat,
                                    sk,
                                    id2,
                                    co,
                                ) implies false by {}
                        }
                        Err(e)
                    },
                }
            },
            None => {
                proof {
                    assert forall|
                        lat: bool,
                        sk: Seq<Seq<u8>>,
                        id2: Seq<u32>,
                        co: Seq<Seq<Seq<Seq<u8>>>>,
                    |
                        self.backend.inflate(data@) == Some(block_body(lat, sk, id2, co))
                            && #[trigger] image_of(
                            block_body(lat, sk, id2, co),
                            lat,
                            sk,
                            id2,
                            co,
                        ) implies false by {}
                }
                Err(CastError::BackendFailure)
            },
        }
    }

    /// Decompresses one solid chunk from its three streams (registry, ids,
    /// payload), as the chunked stream container stores them, and verifies
    /// the checksum of the reconstruction.  Under flag 255 the payload is a
    /// passthrough copy; with empty registry and id streams it is one
    /// unified block; otherwise the three streams are decoded separately
    /// and reassembled.
    #[verifier::rlimit(100)]
    pub fn decompress(
        &self,
        c_reg: &Vec<u8>,
        c_ids: &Vec<u8>,
        c_vars: &Vec<u8>,
        expected_crc: u32,
        id_flag_raw: u8,
    ) -> (r: Result<Vec<u8>, CastError>)
        ensures
            id_flag_raw == 255 ==> (forall|v: Seq<u8>|
                self.backend.inflate(c_vars@) == Some(v) && #[trigger] crc32_of(v)
                    == expected_crc ==> r is Ok && r.unwrap()@ == v),
            id_flag_raw == 255 ==> (forall|v: Seq<u8>|
                self.backend.inflate(c_vars@) == Some(v) && #[trigger] crc32_of(v)
                    != expected_crc ==> r == Err::<Vec<u8>, CastError>(CastError::CrcMismatch)),
            (id_flag_raw != 255 && c_reg@.len() == 0 && c_ids@.len() == 0) ==> (forall|
                sk: Seq<Seq<u8>>,
                id2: Seq<u32>,
                co: Seq<Seq<Seq<Seq<u8>>>>,
            |
                (self.backend.inflate(c_vars@) == Some(
                    block_body((id_flag_raw & 0x80) != 0, sk, id2, co),
                ) && image_of(
                    block_body((id_flag_raw & 0x80) != 0, sk, id2, co),
                    (id_flag_raw & 0x80) != 0,
                    sk,
                    id2,
                    co,
                ) && crc32_of(
                    if (id_flag_raw & 0x80) != 0 {
                        latin1_encode(concat_lines(block_lines(sk, id2, co)))
                    } else {
                        concat_lines(block_lines(sk, id2, co))
                    },
                ) == expected_crc) ==> r is Ok && r.unwrap()@ == (if (id_flag_raw & 0x80)
                    != 0 {
                    latin1_encode(concat_lines(#[trigger] block_lines(sk, id2, co)))
                } else {
                    concat_lines(block_lines(sk, id2, co))
                })),
            (id_flag_raw != 255 && c_reg@.len() == 0 && c_ids@.len() == 0) ==> (forall|
                sk: Seq<Seq<u8>>,
                id2: Seq<u32>,
                co: Seq<Seq<Seq<Seq<u8>>>>,
            |
                (self.backend.inflate(c_vars@) == Some(
                    block_body((id_flag_raw & 0x80) != 0, sk, id2, co),
                ) && image_of(
                    block_body((id_flag_raw & 0x80) != 0, sk, id2, co),
                    (id_flag_raw & 0x80) != 0,
                    sk,
                    id2,
                    co,
                ) && crc32_of(
                    if (id_flag_raw & 0x80) != 0 {
                        latin1_encode(concat_lines(#[trigger] block_lines(sk, id2, co)))
                    } else {
                        concat_lines(block_lines(sk, id2, co))
                    },
                ) != expected_crc) ==> r == Err::<Vec<u8>, CastError>(CastError::CrcMismatch)),
    {
        if id_flag_raw == 255 {
            match self.backend.decompress(c_vars) {
                Some(data) => {
                    let crc = crc32(&data);
                    if crc != expected_crc {
                        return Err(CastError::CrcMismatch);
                    }
                    Ok(data)
                },
                None => Err(CastError::BackendFailure),
            }
        } else if c_reg.len() == 0 && c_ids.len() == 0 {
            // Unified layout: one self-describing blob.
            match self.backend.decompress(c_vars) {
                Some(blob) => {
                    match decode_block(&blob, 0, None) {
                        Ok(out) => {
                            let crc = crc32(&out);
                            proof {
                                assert forall|
                                    sk: Seq<Seq<u8>>,
                                    id2: Seq<u32>,
                                    co: Seq<Seq<Seq<Seq<u8>>>>,
                                |
                                    (self.backend.inflate(c_vars@) == Some(
                                        block_body((id_flag_raw & 0x80) != 0, sk, id2, co),
                                    ) && image_of(
                                        block_body((id_flag_raw & 0x80) != 0, sk, id2, co),
                                        (id_flag_raw & 0x80) != 0,
                                        sk,
                                        id2,
                                        co,
                                    )) implies out@ == (if (id_flag_raw & 0x80) != 0 {
                                    latin1_encode(concat_lines(#[trigger] block_lines(sk, id2, co)))
                                } else {
                                    concat_lines(block_lines(sk, id2, co))
                                }) by {
                                    lemma_sel_concat_none(block_lines(sk, id2, co), 0);
                                }
                            }
                            if crc != expected_crc {
                                return Err(CastError::CrcMismatch);
                            }
                            Ok(out)
                        },
                        Err(e) => {
                            proof {
                                assert forall|
                                    lat2: bool,
                                    sk: Seq<Seq<u8>>,
                                    id2: Seq<u32>,
                                    co: Seq<Seq<Seq<Seq<u8>>>>,
                                |
                                    lat2 == ((id_flag_raw & 0x80) != 0) && self.backend.inflate(
                                        c_vars@,
                                    ) == Some(block_body(lat2, sk, id2, co)) && #[trigger] image_of(
                                        block_body(lat2, sk, id2, co),
                                        lat2,
                                        sk,
                                        id2,
                                        co,
                                    ) implies false by {}
                            }
                            Err(e)
                        },
                    }
                },
                None => {
                    proof {
                        assert forall|
                            lat2: bool,
                            sk: Seq<Seq<u8>>,
                            id2: Seq<u32>,
                            co: Seq<Seq<Seq<Seq<u8>>>>,
                        |
                            lat2 == ((id_flag_raw & 0x80) != 0) && self.backend.inflate(c_vars@)
                                == Some(block_body(lat2, sk, id2, co)) && #[trigger] image_of(
                                block_body(lat2, sk, id2, co),
                                lat2,
                                sk,
                                id2,
                                co,
                            ) implies false by {}
                    }
                    Err(CastError::BackendFailure)
                },
            }
        } else {
            // Split layout: three independent streams, reassembled into the
            // unified framing before decoding.
            let reg = match self.backend.decompress(c_reg) {
                Some(v) => v,
                None => {
                    return Err(CastError::BackendFailure);
                },
            };
            let ids = match self.backend.decompress(c_ids) {
                Some(v) => v,
                None => {
                    return Err(CastError::BackendFailure);
                },
            };
            let vars = match self.backend.decompress(c_vars) {
                Some(v) => v,
                None => {
                    return Err(CastError::BackendFailure);
                },
            };
            if reg.len() > 0xffffffffusize || ids.len() > 0xffffffffusize {
                return Err(CastError::CorruptedHeader);
            }
            let mut blob: Vec<u8> = Vec::new();
            blob.push(id_flag_raw);
            crate::bytes_le::push_le32(&mut blob, reg.len() as u32);
            let second: u32 = if (id_flag_raw & 0x7f) == 3 {
                0
            } else {
                ids.len() as u32
            };
            crate::bytes_le::push_le32(&mut blob, second);
            crate::serializer::append_vec(&mut blob, &reg);
            if (id_flag_raw & 0x7f) != 3 {
                crate::serializer::append_vec(&mut blob, &ids);
            }
            crate::serializer::append_vec(&mut blob, &vars);
            match decode_block(&blob, 0, None) {
                Ok(out) => {
                    let crc = crc32(&out);
                    if crc != expected_crc {
                        return Err(CastError::CrcMismatch);
                    }
                    Ok(out)
                },
                Err(e) => Err(e),
            }
        }
    }

    /// Reads a whole archive: footer, then every row-group that overlaps the
    /// requested row range, in order.  Raw passthrough groups are emitted
    /// whole; CAST groups are filtered row by row.  On any archive whose
    /// groups decode through this decompressor's backend, the result is
    /// exactly the concatenation of the groups' selected output.
    #[verifier::loop_isolation(false)]
    #[verifier::rlimit(100)]
    #[verifier::spinoff_prover]
    pub fn decompress_archive(
        &self,
        archive: &Vec<u8>,
        target: Option<(u64, u64)>,
    ) -> (r: Result<Vec<u8>, CastError>)
        ensures
            forall|w: ArchiveModel|
                archive_wf(|s: Seq<u8>| self.backend.inflate(s), archive@, w) ==> r is Ok
                    && r.unwrap()@ == #[trigger] groups_output(w, 0, 0, target),
    {
        let ghost inf = |s: Seq<u8>| self.backend.inflate(s);
        let pf = parse_footer(archive);
        proof {
            assert forall|w: ArchiveModel| #[trigger] archive_wf(inf, archive@, w) implies pf
                is Ok && pf.unwrap().0@.len() == w.metas.len() && (forall|k: int|
                0 <= k < w.metas.len() ==> pf.unwrap().0@[k] == w.metas[k]) && pf.unwrap().1
                as int == payload_end(w.metas) by {
                let pe = payload_end(w.metas);
                let pay = archive@.take(pe);
                assert(pay.len() == pe);
                assert(archive@ == pay + crate::container::footer_bytes(
                    w.metas,
                    pay.len() as u64,
                ));
            }
        }
        let (metas_v, footer_start) = match pf {
            Ok(p) => p,
            Err(e) => {
                return Err(e);
            },
        };
        let alen = archive.len();
        proof {
            assert(footer_start as int <= archive@.len());
        }
        let fs = footer_start as usize;
        let mut out: Vec<u8> = Vec::new();
        let mut row_start: u64 = 0;
        let ng = metas_v.len();
        let mut i: usize = 0;
        while i < ng
            invariant
                i <= ng,
                ng == metas_v@.len(),
                fs <= archive@.len(),
                alen == archive@.len(),
                footer_start == fs as u64,
                forall|w: ArchiveModel|
                    #[trigger] archive_wf(inf, archive@, w) ==> w.metas.len() == ng && (forall|
                        k: int,
                    |
                        0 <= k < w.metas.len() ==> metas_v@[k] == w.metas[k]) && footer_start
                        as int == payload_end(w.metas) && row_start as int == rows_before(
                        w.metas,
                        i as int,
                    ) && out@ + groups_output(w, i as int, row_start as int, target)
                        == groups_output(w, 0, 0, target),
            decreases ng - i,
        {
            let m = &metas_v[i];
            let rows = m.num_rows;
            if m.start_offset > footer_start || m.compressed_size > footer_start
                - m.start_offset {
                proof {
                    assert forall|w: ArchiveModel| #[trigger] archive_wf(
                        inf,
                        archive@,
                        w,
                    ) implies false by {
                        assert(metas_v@[i as int] == w.metas[i as int]);
                        crate::deserializer::lemma_group_end_le(w.metas, i as int);
                    }
                }
                return Err(CastError::CorruptedFooter);
            }
            proof {
                assert(m.start_offset <= footer_start);
                assert(m.compressed_size <= footer_start - m.start_offset);
                assert(footer_start as int <= archive@.len());
                assert(archive@.len() == alen as int);
            }
            let s0 = m.start_offset as usize;
            let s1 = s0 + m.compressed_size as usize;
            proof {
                assert(s0 as int == m.start_offset as int);
                assert(s1 as int <= archive@.len());
            }
            let should_process = match target {
                Some(p) => {
                    rows > 0 && row_start as u128 + rows as u128 > p.0 as u128 && row_start
                        <= p.1
                },
                None => true,
            };
            let ghost out_before = out@;
            if should_process {
                let piece = crate::deserializer::copy_range(archive, s0, s1);
                if m.kind == 1 {
                    match self.backend.decompress(&piece) {
                        Some(raw) => {
                            crate::serializer::append_vec(&mut out, &raw);
                            proof {
                                assert forall|w: ArchiveModel| #[trigger] archive_wf(
                                    inf,
                                    archive@,
                                    w,
                                ) implies out@ == out_before + w.raws[i as int] by {
                                    assert(metas_v@[i as int] == w.metas[i as int]);
                                    assert(group_ok(inf, archive@, w, i as int));
                                    assert(piece@ =~= group_piece(archive@, w.metas[i as int]));
                                    assert(inf(piece@) == self.backend.inflate(piece@));
                                }
                            }
                        },
                        None => {
                            proof {
                                assert forall|w: ArchiveModel| #[trigger] archive_wf(
                                    inf,
                                    archive@,
                                    w,
                                ) implies false by {
                                    assert(metas_v@[i as int] == w.metas[i as int]);
                                    assert(group_ok(inf, archive@, w, i as int));
                                    assert(piece@ =~= group_piece(archive@, w.metas[i as int]));
                                    assert(inf(piece@) == self.backend.inflate(piece@));
                                }
                            }
                            return Err(CastError::BackendFailure);
                        },
                    }
                } else {
                    match self.decompress_block_blob(&piece, row_start, target) {
                        Ok(part) => {
                            crate::serializer::append_vec(&mut out, &part);
                            proof {
                                assert forall|w: ArchiveModel| #[trigger] archive_wf(
                                    inf,
                                    archive@,
                                    w,
                                ) implies out@ == out_before + (if w.lats[i as int] {
                                    crate::latin1::latin1_encode(
                                        sel_concat(
                                            block_lines(
                                                w.skelss[i as int],
                                                w.idss[i as int],
                                                w.colss[i as int],
                                            ),
                                            row_start as int,
                                            target,
                                        ),
                                    )
                                } else {
                                    sel_concat(
                                        block_lines(
                                            w.skelss[i as int],
                                            w.idss[i as int],
                                            w.colss[i as int],
                                        ),
                                        row_start as int,
                                        target,
                                    )
                                }) by {
                                    assert(metas_v@[i as int] == w.metas[i as int]);
                                    assert(group_ok(inf, archive@, w, i as int));
                                    assert(piece@ =~= group_piece(archive@, w.metas[i as int]));
                                    assert(inf(piece@) == self.backend.inflate(piece@));
                                    assert(image_of(
                                        block_body(
                                            w.lats[i as int],
                                            w.skelss[i as int],
                                            w.idss[i as int],
                                            w.colss[i as int],
                                        ),
                                        w.lats[i as int],
                                        w.skelss[i as int],
                                        w.idss[i as int],
                                        w.colss[i as int],
                                    ));
                                }
                            }
                        },
                        Err(e) => {
                            proof {
                                assert forall|w: ArchiveModel| #[trigger] archive_wf(
                                    inf,
                                    archive@,
                                    w,
                                ) implies false by {
                                    assert(metas_v@[i as int] == w.metas[i as int]);
                                    assert(group_ok(inf, archive@, w, i as int));
                                    assert(piece@ =~= group_piece(archive@, w.metas[i as int]));
                                    assert(inf(piece@) == self.backend.inflate(piece@));
                                    assert(image_of(
                                        block_body(
                                            w.lats[i as int],
                                            w.skelss[i as int],
                                            w.idss[i as int],
                                            w.colss[i as int],
                                        ),
                                        w.lats[i as int],
                                        w.skelss[i as int],
                                        w.idss[i as int],
                                        w.colss[i as int],
                                    ));
                                }
                            }
                            return Err(e);
                        },
                    }
                }
            }
            if rows > u64::MAX - row_start {
                proof {
                    assert forall|w: ArchiveModel| #[trigger] archive_wf(
                        inf,
                        archive@,
                        w,
                    ) implies false by {
                        assert(metas_v@[i as int] == w.metas[i as int]);
                        crate::deserializer::lemma_rows_before_le(w.metas, i + 1);
                    }
                }
                return Err(CastError::CorruptedFooter);
            }
            proof {
                assert forall|w: ArchiveModel| #[trigger] archive_wf(inf, archive@, w) implies (
                row_start + rows) as int == rows_before(w.metas, i + 1) && out@
                    + groups_output(w, i + 1, row_start + rows, target) == groups_output(
                    w,
                    0,
                    0,
                    target,
                ) by {
                    assert(metas_v@[i as int] == w.metas[i as int]);
                    assert(group_ok(inf, archive@, w, i as int));
                    crate::deserializer::lemma_rows_before_le(w.metas, i + 1);
                    let lines = block_lines(
                        w.skelss[i as int],
                        w.idss[i as int],
                        w.colss[i as int],
                    );
                    if w.metas[i as int].kind != 1 && !should_process {
                        // A skipped CAST group contributes nothing: its rows
                        // all fall outside the selection.
                        assert(lines.len() == w.idss[i as int].len());
                        match target {
                            Some(p) => {
                                if rows == 0 {
                                    assert(sel_concat(lines, row_start as int, target)
                                        =~= Seq::<u8>::empty());
                                } else {
                                    assert(!(row_start as int + rows as int > p.0 as int
                                        && row_start as int <= p.1 as int));
                                    assert((p.1 as int) < row_start as int || row_start as int
                                        + lines.len() <= p.0 as int);
                                    crate::deserializer::lemma_sel_concat_outside(
                                        lines,
                                        row_start as int,
                                        p.0,
                                        p.1,
                                    );
                                }
                                assert(crate::latin1::latin1_encode(Seq::<u8>::empty())
                                    =~= Seq::<u8>::empty());
                            },
                            None => {},
                        }
                        assert(out@ == out_before);
                    }
                    if w.metas[i as int].kind == 1 && !should_process {
                        assert(out@ == out_before);
                    }
                }
            }
            row_start = row_start + rows;
            i = i + 1;
        }
        proof {
            assert forall|w: ArchiveModel| #[trigger] archive_wf(inf, archive@, w) implies out@
                == groups_output(w, 0, 0, target) by {
                assert(groups_output(w, i as int, row_start as int, target)
                    =~= Seq::<u8>::empty());
            }
        }
        Ok(out)
    }
}

/// The round trip of the solid pipeline: compressing any byte sequence and
/// decompressing the result restores it exactly, byte for byte, for any
/// matched backend pair.  This holds for empty input, binary input, Latin-1
/// input, inputs holding the reserved placeholder codepoints, and inputs
/// with an unterminated final line: every fallback path is covered.
#[verifier::rlimit(100)]
pub fn compress_then_decompress<C: NativeCompressor, D: NativeDecompressor>(
    c_backend: C,
    d_backend: D,
    input: &Vec<u8>,
) -> (r: Vec<u8>)
    requires
        matched_backends(&c_backend, &d_backend),
    ensures
        r@ == input@,
{
    let expected = crc32(input);
    let mut comp = CASTCompressor::new(c_backend);
    let (c_reg, c_ids, c_vars, flag, _label) = comp.compress(input);
    let dec = CASTDecompressor::new(d_backend);
    proof {
        if flag != 255 {
            let (sk, id2, co) = choose|
                sk: Seq<Seq<u8>>,
                id2: Seq<u32>,
                co: Seq<Seq<Seq<Seq<u8>>>>,
            |
                {
                    &&& c_backend.inflate(c_vars@) == Some(
                        block_body(!is_utf8(input@), sk, id2, co),
                    )
                    &&& image_of(
                        block_body(!is_utf8(input@), sk, id2, co),
                        !is_utf8(input@),
                        sk,
                        id2,
                        co,
                    )
                    &&& #[trigger] block_lines(sk, id2, co) == split_lines(
                        if is_utf8(input@) {
                            input@
                        } else {
                            latin1_decode(input@)
                        },
                    )
                };
            assert(d_backend.inflate(c_vars@) == c_backend.inflate(c_vars@));
            lemma_concat_split_lines(
                if is_utf8(input@) {
                    input@
                } else {
                    latin1_decode(input@)
                },
            );
            if !is_utf8(input@) {
                lemma_latin1_roundtrip(input@);
            }
            assert((if (flag & 0x80) != 0 {
                latin1_encode(concat_lines(block_lines(sk, id2, co)))
            } else {
                concat_lines(block_lines(sk, id2, co))
            }) == input@);
        } else {
            assert(d_backend.inflate(c_vars@) == c_backend.inflate(c_vars@));
        }
    }
    let res = dec.decompress(&c_reg, &c_ids, &c_vars, expected, flag);
    match res {
        Ok(out) => {
            out
        },
        Err(_) => {
            proof {
                assert(false);
            }
            Vec::new()
        },
    }
}

/// The round trip of the row-group container: compressing any byte
/// sequence into an archive and reading the whole archive back restores it
/// exactly, byte for byte, for any matched backend pair — whether the
/// stream went through the transform or fell back to passthrough groups.
#[verifier::rlimit(100)]
pub fn compress_then_decompress_archive<C: NativeCompressor, D: NativeDecompressor>(
    c_backend: C,
    d_backend: D,
    input: &Vec<u8>,
) -> (r: Vec<u8>)
    requires
        matched_backends(&c_backend, &d_backend),
    ensures
        r@ == input@,
{
    let mut comp = CASTCompressor::new(c_backend);
    let archive = comp.compress_archive(input);
    let dec = CASTDecompressor::new(d_backend);
    proof {
        let infc = |s: Seq<u8>| c_backend.inflate(s);
        let infd = |s: Seq<u8>| d_backend.inflate(s);
        let w = choose|w: ArchiveModel|
            archive_wf(|s: Seq<u8>| c_backend.inflate(s), archive@, w) && #[trigger] groups_output(
                w,
                0,
                0,
                None,
            ) == input@;
        assert forall|k: int| 0 <= k < w.metas.len() implies #[trigger] group_ok(
            infd,
            archive@,
            w,
            k,
        ) by {
            assert(group_ok(infc, archive@, w, k));
            let piece = group_piece(archive@, w.metas[k]);
            assert(infc(piece) == c_backend.inflate(piece));
            assert(c_backend.inflate(piece) == d_backend.inflate(piece));
            assert(infd(piece) == d_backend.inflate(piece));
        }
        assert(archive_wf(infd, archive@, w));
        assert(archive_wf(|s: Seq<u8>| d_backend.inflate(s), archive@, w));
    }
    match dec.decompress_archive(&archive, None) {
        Ok(out) => {
            out
        },
        Err(_) => {
            proof {
                assert(false);
            }
            Vec::new()
        },
    }
}

} // verus!
