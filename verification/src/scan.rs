use vstd::prelude::*;

use crate::errors::FakitError;
use crate::index::{base_pos, IndexRecord, IndexRecordView};
use crate::query::{
    extracted, lemma_base_pos_add_lines, lemma_base_pos_bounds, lemma_base_pos_small,
};
use crate::store::{has_name, lemma_name_idx, name_idx, upsert, IndexStore};
use crate::wrap::{GT, NL};
use vstd::arithmetic::div_mod::{
    lemma_fundamental_div_mod, lemma_fundamental_div_mod_converse, lemma_mod_bound,
};
use vstd::slice::slice_to_vec;

verus! {

/// ASCII whitespace, the delimiter of the header name token.
pub open spec fn is_space(b: u8) -> bool {
    b == 32 || b == 9 || b == 10 || b == 11 || b == 12 || b == 13
}

/// First whitespace byte of `line` at or after `i`, or the line's end.
pub open spec fn token_end(line: Seq<u8>, i: int) -> int
    recommends
        0 <= i,
    decreases line.len() - i,
{
    if i >= line.len() {
        line.len() as int
    } else if is_space(line[i]) {
        i
    } else {
        token_end(line, i + 1)
    }
}

/// Whether a physical line opens a record.
pub open spec fn is_header(line: Seq<u8>) -> bool {
    line.len() >= 1 && line[0] == GT
}

/// The sequence name of a header line: the text between the `>` marker
/// and the first whitespace (possibly empty).
pub open spec fn header_name(line: Seq<u8>) -> Seq<u8>
    recommends
        is_header(line),
{
    line.subrange(1, token_end(line, 1))
}

/// The file text that the first `n` scanned lines came from: each line
/// followed by one terminator byte.
pub open spec fn file_prefix(lines: Seq<Seq<u8>>, n: int) -> Seq<u8>
    recommends
        0 <= n <= lines.len(),
    decreases n,
{
    if n <= 0 {
        Seq::<u8>::empty()
    } else {
        file_prefix(lines, n - 1) + lines[n - 1] + seq![NL]
    }
}

/// The whole file text the scanned lines came from.
pub open spec fn file_of(lines: Seq<Seq<u8>>) -> Seq<u8> {
    file_prefix(lines, lines.len() as int)
}

/// The file model only grows as more lines are taken in.
pub proof fn lemma_file_prefix_mono(lines: Seq<Seq<u8>>, i: int, j: int)
    requires
        i <= j,
    ensures
        file_prefix(lines, i).len() <= file_prefix(lines, j).len(),
    decreases j - i,
{
    if i < j {
        lemma_file_prefix_mono(lines, i, j - 1);
    }
}

/// A record mid-scan: what has been accumulated since its header line.
/// `bases` is the concatenation of its body lines so far; `lb` is the
/// established line width (`-1` until the first body line); `short`
/// remembers that a body line shorter than `lb` has been seen, after
/// which no further body line is legal.
pub ghost struct ScanCur {
    pub name: Seq<u8>,
    pub off: int,
    pub len: int,
    pub lb: int,
    pub short: bool,
    pub bases: Seq<u8>,
}

/// Scanner state after some prefix of the lines: committed rows, their
/// base strings (position by position), the record being accumulated, and
/// the byte cursor.
pub ghost struct ScanState {
    pub recs: Seq<IndexRecordView>,
    pub basesv: Seq<Seq<u8>>,
    pub cur: Option<ScanCur>,
    pub dist: int,
}

/// Why a scan stopped; each variant carries the 1-based line number.
pub ghost enum ScanFail {
    /// A line precedes any header line.
    MissingHeader(int),
    /// A body line breaks the uniform-width rule.
    NonUniform(int),
}

/// The index row a finished record yields; an empty record carries no
/// line metadata.
pub open spec fn commit_view(cur: ScanCur) -> IndexRecordView {
    IndexRecordView {
        name: cur.name,
        sequence_length: cur.len,
        offset: cur.off,
        line_bases: if cur.len == 0 {
            0
        } else {
            cur.lb
        },
        line_width: if cur.len == 0 {
            0
        } else {
            cur.lb + 1
        },
    }
}

/// Commits `cur`: a row already carrying its name is overwritten in place
/// (last write wins), otherwise the row is appended.
pub open spec fn commit(st: ScanState, cur: ScanCur) -> ScanState {
    if has_name(st.recs, cur.name) {
        ScanState {
            recs: st.recs.update(name_idx(st.recs, cur.name), commit_view(cur)),
            basesv: st.basesv.update(name_idx(st.recs, cur.name), cur.bases),
            cur: st.cur,
            dist: st.dist,
        }
    } else {
        ScanState {
            recs: st.recs.push(commit_view(cur)),
            basesv: st.basesv.push(cur.bases),
            cur: st.cur,
            dist: st.dist,
        }
    }
}

/// One line of the forward scan.  A header line commits the previous
/// record (only when it accumulated bases) and opens a new one whose
/// offset is the byte after the header line.  A body line must not exceed
/// the record's established width and must not follow a shorter line.
pub open spec fn scan_step(st: ScanState, line: Seq<u8>, line_no: int) -> Result<
    ScanState,
    ScanFail,
> {
    if is_header(line) {
        let st1 = match st.cur {
            Option::Some(cur) => if cur.len > 0 {
                commit(st, cur)
            } else {
                st
            },
            Option::None => st,
        };
        Ok(
            ScanState {
                recs: st1.recs,
                basesv: st1.basesv,
                cur: Some(
                    ScanCur {
                        name: header_name(line),
                        off: st.dist + line.len() + 1,
                        len: 0,
                        lb: -1,
                        short: false,
                        bases: Seq::<u8>::empty(),
                    },
                ),
                dist: st.dist + line.len() + 1,
            },
        )
    } else {
        match st.cur {
            Option::None => Err(ScanFail::MissingHeader(line_no)),
            Option::Some(cur) => {
                if cur.lb >= 0 && line.len() > cur.lb {
                    Err(ScanFail::NonUniform(line_no))
                } else if cur.short {
                    Err(ScanFail::NonUniform(line_no))
                } else {
                    let lb1 = if cur.lb < 0 {
                        line.len() as int
                    } else {
                        cur.lb
                    };
                    Ok(
                        ScanState {
                            recs: st.recs,
                            basesv: st.basesv,
                            cur: Some(
                                ScanCur {
                                    name: cur.name,
                                    off: cur.off,
                                    len: cur.len + line.len(),
                                    lb: lb1,
                                    short: line.len() < lb1,
                                    bases: cur.bases + line,
                                },
                            ),
                            dist: st.dist + line.len() + 1,
                        },
                    )
                }
            },
        }
    }
}

/// The scanner state after the first `i` lines.
pub open spec fn scan_at(lines: Seq<Seq<u8>>, i: int) -> Result<ScanState, ScanFail>
    recommends
        0 <= i <= lines.len(),
    decreases i,
{
    if i <= 0 {
        Ok(
            ScanState {
                recs: Seq::<IndexRecordView>::empty(),
                basesv: Seq::<Seq<u8>>::empty(),
                cur: Option::None,
                dist: 0,
            },
        )
    } else {
        match scan_at(lines, i - 1) {
            Result::Err(f) => Err(f),
            Result::Ok(st) => scan_step(st, lines[i - 1], i),
        }
    }
}

/// The record still open at the end of the file is committed
/// unconditionally.
pub open spec fn scan_finish(st: ScanState) -> ScanState {
    match st.cur {
        Option::Some(cur) => commit(st, cur),
        Option::None => st,
    }
}

/// The whole scan: every line taken in, the final record committed.
pub open spec fn scan_result(lines: Seq<Seq<u8>>) -> Result<ScanState, ScanFail> {
    match scan_at(lines, lines.len() as int) {
        Result::Ok(st) => Ok(scan_finish(st)),
        Result::Err(f) => Err(f),
    }
}

/// Whether the lines scan cleanly.
pub open spec fn scan_ok(lines: Seq<Seq<u8>>) -> bool {
    scan_result(lines) is Ok
}

/// The state a clean scan ends in.
pub open spec fn scan_final(lines: Seq<Seq<u8>>) -> ScanState {
    match scan_result(lines) {
        Result::Ok(st) => st,
        Result::Err(_) => ScanState {
            recs: Seq::<IndexRecordView>::empty(),
            basesv: Seq::<Seq<u8>>::empty(),
            cur: Option::None,
            dist: 0,
        },
    }
}

/// The index rows of a clean scan, in build order.
pub open spec fn scan_recs(lines: Seq<Seq<u8>>) -> Seq<IndexRecordView> {
    scan_final(lines).recs
}

/// The base strings of a clean scan, row by row: each is the
/// concatenation of the body lines of the record its row describes.
pub open spec fn scan_bases(lines: Seq<Seq<u8>>) -> Seq<Seq<u8>> {
    scan_final(lines).basesv
}

/// The intermediate state after `i` lines of a scan known to be clean so
/// far.
pub open spec fn scan_state_at(lines: Seq<Seq<u8>>, i: int) -> ScanState {
    match scan_at(lines, i) {
        Result::Ok(st) => st,
        Result::Err(_) => ScanState {
            recs: Seq::<IndexRecordView>::empty(),
            basesv: Seq::<Seq<u8>>::empty(),
            cur: Option::None,
            dist: 0,
        },
    }
}

/// An index row is laid out in `file` exactly as its metadata says: the
/// line geometry is consistent, the row fits before `file`'s end, and the
/// byte at each cadence position is the corresponding base of `bases`.
pub open spec fn rec_struct_ok(v: IndexRecordView, bases: Seq<u8>, file: Seq<u8>) -> bool {
    &&& v.sequence_length == bases.len()
    &&& 0 <= v.offset
    &&& (if v.sequence_length == 0 {
        v.line_bases == 0 && v.line_width == 0
    } else {
        0 < v.line_bases && v.line_width == v.line_bases + 1
    })
    &&& (v.sequence_length > 0 ==> v.line_bases <= v.sequence_length && 1 <= v.offset)
    &&& v.offset + v.byte_span() <= file.len()
    &&& forall|k: int|
        0 <= k < v.sequence_length ==> 0 <= v.offset + #[trigger] v.pos(k) < file.len()
            && file[v.offset + v.pos(k)] == bases[k]
}

/// What holds of a record mid-scan, relative to the byte cursor `dist`
/// and the file text read so far.
pub open spec fn cur_ok(cur: ScanCur, dist: int, file: Seq<u8>) -> bool {
    &&& cur.len == cur.bases.len()
    &&& 1 <= cur.off
    &&& -1 <= cur.lb
    &&& (cur.lb > 0 ==> cur.len >= cur.lb || cur.len == 0)
    &&& 0 <= cur.len <= dist
    &&& (cur.lb == -1 ==> cur.len == 0 && cur.off == dist)
    &&& (cur.lb >= 0 ==> cur.off <= dist && cur.lb < dist)
    &&& (cur.len > 0 ==> cur.lb > 0)
    &&& (cur.lb == 0 ==> cur.len == 0)
    &&& (cur.lb > 0 && !cur.short ==> cur.len % cur.lb == 0 && dist == cur.off + (cur.len
        / cur.lb) * (cur.lb + 1))
    &&& forall|k: int|
        0 <= k < cur.len ==> 0 <= cur.off + #[trigger] base_pos(cur.lb, cur.lb + 1, k)
            < file.len() && file[cur.off + base_pos(cur.lb, cur.lb + 1, k)] == cur.bases[k]
}

/// The scanner's running invariant after `i` lines.
pub open spec fn scan_inv(lines: Seq<Seq<u8>>, i: int, st: ScanState) -> bool {
    &&& st.dist == file_prefix(lines, i).len()
    &&& st.recs.len() == st.basesv.len()
    &&& forall|r: int|
        0 <= r < st.recs.len() ==> rec_struct_ok(
            #[trigger] st.recs[r],
            st.basesv[r],
            file_prefix(lines, i),
        )
    &&& match st.cur {
        Option::Some(cur) => cur_ok(cur, st.dist, file_prefix(lines, i)),
        Option::None => true,
    }
}

/// Rows laid out correctly in a file stay laid out correctly when the
/// file is extended.
proof fn lemma_recs_extend(
    recs: Seq<IndexRecordView>,
    basesv: Seq<Seq<u8>>,
    f0: Seq<u8>,
    f1: Seq<u8>,
)
    requires
        recs.len() == basesv.len(),
        forall|r: int|
            0 <= r < recs.len() ==> rec_struct_ok(#[trigger] recs[r], basesv[r], f0),
        f0.len() <= f1.len(),
        forall|p: int| 0 <= p < f0.len() ==> f0[p] == #[trigger] f1[p],
    ensures
        forall|r: int|
            0 <= r < recs.len() ==> rec_struct_ok(#[trigger] recs[r], basesv[r], f1),
{
    assert forall|r: int|
        0 <= r < recs.len() implies rec_struct_ok(#[trigger] recs[r], basesv[r], f1) by {
        let v = recs[r];
        let b = basesv[r];
        assert(rec_struct_ok(v, b, f0));
        assert forall|k: int|
            0 <= k < v.sequence_length implies 0 <= v.offset + #[trigger] v.pos(k) < f1.len()
                && f1[v.offset + v.pos(k)] == b[k] by {
            assert(0 <= v.offset + v.pos(k) < f0.len());
            assert(f1[v.offset + v.pos(k)] == f0[v.offset + v.pos(k)]);
        }
    }
}

/// Committing a well-placed record keeps every committed row well placed,
/// and acts on the rows exactly as `upsert` does.
proof fn lemma_commit_preserves(st: ScanState, cur: ScanCur, f: Seq<u8>)
    requires
        st.dist == f.len(),
        st.recs.len() == st.basesv.len(),
        forall|r: int|
            0 <= r < st.recs.len() ==> rec_struct_ok(#[trigger] st.recs[r], st.basesv[r], f),
        cur_ok(cur, st.dist, f),
    ensures
        commit(st, cur).recs.len() == commit(st, cur).basesv.len(),
        forall|r: int|
            0 <= r < commit(st, cur).recs.len() ==> rec_struct_ok(
                #[trigger] commit(st, cur).recs[r],
                commit(st, cur).basesv[r],
                f,
            ),
        commit(st, cur).dist == st.dist,
        commit(st, cur).cur == st.cur,
        commit(st, cur).recs == upsert(st.recs, commit_view(cur)),
{
    let v = commit_view(cur);
    assert(rec_struct_ok(v, cur.bases, f)) by {
        if cur.len > 0 {
            assert forall|k: int|
                0 <= k < v.sequence_length implies 0 <= v.offset + #[trigger] v.pos(k) < f.len()
                    && f[v.offset + v.pos(k)] == cur.bases[k] by {
                assert(v.pos(k) == base_pos(cur.lb, cur.lb + 1, k));
                assert(0 <= cur.off + base_pos(cur.lb, cur.lb + 1, k) < f.len());
            }
            assert(v.byte_span() == v.pos(cur.len - 1) + 1);
            assert(0 <= v.offset + v.pos(cur.len - 1) < f.len());
        }
    }
    lemma_name_idx(st.recs, cur.name);
    let c = commit(st, cur);
    if has_name(st.recs, cur.name) {
        let idx = name_idx(st.recs, cur.name);
        assert forall|r: int|
            0 <= r < c.recs.len() implies rec_struct_ok(#[trigger] c.recs[r], c.basesv[r], f) by {
            if r == idx {
                assert(c.recs[r] == v);
                assert(c.basesv[r] == cur.bases);
            } else {
                assert(c.recs[r] == st.recs[r]);
                assert(c.basesv[r] == st.basesv[r]);
            }
        }
    } else {
        assert forall|r: int|
            0 <= r < c.recs.len() implies rec_struct_ok(#[trigger] c.recs[r], c.basesv[r], f) by {
            if r == st.recs.len() {
                assert(c.recs[r] == v);
                assert(c.basesv[r] == cur.bases);
            } else {
                assert(c.recs[r] == st.recs[r]);
                assert(c.basesv[r] == st.basesv[r]);
            }
        }
    }
}

/// The scanner's invariant holds after every clean prefix of the scan.
pub proof fn lemma_scan_invariant(lines: Seq<Seq<u8>>, i: int)
    requires
        0 <= i <= lines.len(),
        scan_at(lines, i) is Ok,
    ensures
        scan_inv(lines, i, scan_state_at(lines, i)),
    decreases i,
{
    if i == 0 {
        assert(file_prefix(lines, 0) =~= Seq::<u8>::empty());
    } else {
        assert(scan_at(lines, i - 1) is Ok);
        lemma_scan_invariant(lines, i - 1);
        let st0 = scan_state_at(lines, i - 1);
        let line = lines[i - 1];
        let l = line.len() as int;
        let f0 = file_prefix(lines, i - 1);
        let f1 = file_prefix(lines, i);
        let st1 = scan_state_at(lines, i);
        assert(f1 == f0 + line + seq![NL]);
        assert(f1.len() == f0.len() + l + 1);
        assert forall|p: int| 0 <= p < f0.len() implies f0[p] == #[trigger] f1[p] by {}
        assert forall|j: int| 0 <= j < l implies #[trigger] f1[f0.len() + j] == line[j] by {}
        if is_header(line) {
            let st_mid = match st0.cur {
                Option::Some(c0) => if c0.len > 0 {
                    commit(st0, c0)
                } else {
                    st0
                },
                Option::None => st0,
            };
            match st0.cur {
                Option::Some(c0) => {
                    if c0.len > 0 {
                        lemma_commit_preserves(st0, c0, f0);
                    }
                },
                Option::None => {},
            }
            assert(st1.recs == st_mid.recs);
            assert(st1.basesv == st_mid.basesv);
            assert(st1.dist == st0.dist + l + 1);
            lemma_recs_extend(st_mid.recs, st_mid.basesv, f0, f1);
            assert(st1.cur matches Option::Some(c1) && cur_ok(c1, st1.dist, f1)) by {
                let c1 = ScanCur {
                    name: header_name(line),
                    off: st0.dist + l + 1,
                    len: 0,
                    lb: -1,
                    short: false,
                    bases: Seq::<u8>::empty(),
                };
                assert(st1.cur == Option::Some(c1));
                assert(cur_ok(c1, st1.dist, f1));
            }
        } else {
            let c0 = st0.cur->Some_0;
            assert(st0.cur is Some);
            assert(!(c0.lb >= 0 && l > c0.lb));
            assert(!c0.short);
            let lb1: int = if c0.lb < 0 {
                l
            } else {
                c0.lb
            };
            let c1 = ScanCur {
                name: c0.name,
                off: c0.off,
                len: c0.len + l,
                lb: lb1,
                short: l < lb1,
                bases: c0.bases + line,
            };
            assert(st1.cur == Option::Some(c1));
            assert(st1.recs == st0.recs && st1.basesv == st0.basesv);
            assert(st1.dist == st0.dist + l + 1);
            lemma_recs_extend(st0.recs, st0.basesv, f0, f1);
            assert(cur_ok(c0, st0.dist, f0));
            // the new record body starts exactly at the old byte cursor
            let q0: int = if lb1 > 0 {
                c0.len / lb1
            } else {
                0
            };
            if lb1 > 0 {
                lemma_fundamental_div_mod(c0.len, lb1);
                lemma_mod_bound(c0.len, lb1);
                if c0.lb < 0 || c0.len == 0 {
                    vstd::arithmetic::div_mod::lemma_small_mod(0nat, lb1 as nat);
                    assert(c0.len % lb1 == 0);
                }
                assert(c0.len % lb1 == 0);
                assert(c0.len == q0 * lb1) by (nonlinear_arith)
                    requires
                        c0.len == lb1 * q0 + (c0.len % lb1),
                        c0.len % lb1 == 0,
                ;
                if c0.len == 0 {
                    assert(q0 == 0) by (nonlinear_arith)
                        requires
                            0 == q0 * lb1,
                            lb1 > 0,
                    ;
                }
                assert(st0.dist == c0.off + q0 * (lb1 + 1));
                if l == lb1 {
                    assert((q0 + 1) * lb1 == q0 * lb1 + lb1) by (nonlinear_arith);
                    lemma_fundamental_div_mod_converse(c1.len, lb1, q0 + 1, 0);
                    assert((q0 + 1) * (lb1 + 1) == q0 * (lb1 + 1) + (lb1 + 1))
                        by (nonlinear_arith);
                }
            }
            assert forall|k: int|
                0 <= k < c1.len implies 0 <= c1.off + #[trigger] base_pos(lb1, lb1 + 1, k)
                    < f1.len() && f1[c1.off + base_pos(lb1, lb1 + 1, k)] == c1.bases[k] by {
                if k < c0.len {
                    assert(lb1 == c0.lb);
                    assert(0 <= c0.off + base_pos(c0.lb, c0.lb + 1, k) < f0.len());
                    assert(f1[c0.off + base_pos(c0.lb, c0.lb + 1, k)] == f0[c0.off + base_pos(
                        c0.lb,
                        c0.lb + 1,
                        k,
                    )]);
                    assert(c1.bases[k] == c0.bases[k]);
                } else {
                    let j = k - c0.len;
                    assert(0 <= j < l);
                    assert(lb1 > 0);
                    lemma_base_pos_small(lb1, lb1 + 1, j);
                    lemma_base_pos_add_lines(lb1, lb1 + 1, q0, j);
                    assert(q0 * lb1 + j == k);
                    assert(base_pos(lb1, lb1 + 1, k) == q0 * (lb1 + 1) + j);
                    assert(c1.off + base_pos(lb1, lb1 + 1, k) == st0.dist + j);
                    assert(f1[f0.len() + j] == line[j]);
                    assert(c1.bases[k] == line[j]);
                }
            }
            assert(cur_ok(c1, st1.dist, f1));
        }
    }
}

/// A scan that fails stays failed however many more lines follow.
pub proof fn lemma_scan_err_propagates(lines: Seq<Seq<u8>>, i: int, j: int)
    requires
        0 <= i <= j,
        scan_at(lines, i) is Err,
    ensures
        scan_at(lines, j) == scan_at(lines, i),
    decreases j - i,
{
    if i < j {
        lemma_scan_err_propagates(lines, i, j - 1);
    }
}

/// The layout theorem: after a clean scan, every index row describes its
/// record's bytes in the file exactly — the byte at each cadence position
/// of a row is the corresponding base of the record's concatenated body
/// lines.
pub proof fn lemma_scan_layout(lines: Seq<Seq<u8>>)
    requires
        scan_ok(lines),
    ensures
        scan_recs(lines).len() == scan_bases(lines).len(),
        forall|r: int|
            0 <= r < scan_recs(lines).len() ==> rec_struct_ok(
                #[trigger] scan_recs(lines)[r],
                scan_bases(lines)[r],
                file_of(lines),
            ),
{
    let n = lines.len() as int;
    assert(scan_at(lines, n) is Ok);
    lemma_scan_invariant(lines, n);
    let st = scan_state_at(lines, n);
    match st.cur {
        Option::Some(c) => {
            lemma_commit_preserves(st, c, file_of(lines));
            assert(scan_final(lines) == commit(st, c));
        },
        Option::None => {
            assert(scan_final(lines) == st);
        },
    }
}

/// Any in-bounds region of a scanned record, read back through the index
/// arithmetic, is exactly that slice of the record's unwrapped base
/// string (the concatenation of its body lines).
pub proof fn lemma_region_bases(lines: Seq<Seq<u8>>, r: int, start: int, end: int)
    requires
        scan_ok(lines),
        0 <= r < scan_recs(lines).len(),
        1 <= start <= end <= scan_recs(lines)[r].sequence_length,
    ensures
        extracted(file_of(lines), scan_recs(lines)[r], start, end) == scan_bases(lines)[
            r
        ].subrange(start - 1, end),
{
    lemma_scan_layout(lines);
    let v = scan_recs(lines)[r];
    let b = scan_bases(lines)[r];
    let f = file_of(lines);
    assert(rec_struct_ok(v, b, f));
    assert forall|k: int|
        0 <= k < end + 1 - start implies f[v.offset + #[trigger] v.pos(start - 1 + k)]
            == b.subrange(start - 1, end)[k] by {
        assert(0 <= v.offset + v.pos(start - 1 + k) < f.len());
        assert(f[v.offset + v.pos(start - 1 + k)] == b[start - 1 + k]);
    }
    assert(extracted(f, v, start, end) =~= b.subrange(start - 1, end));
}

/// Round trip: extracting a whole record (bases `1..=sequence_length`)
/// through the index returns exactly the record's unwrapped sequence:
/// the concatenation of its body lines.
pub proof fn lemma_round_trip(lines: Seq<Seq<u8>>, r: int)
    requires
        scan_ok(lines),
        0 <= r < scan_recs(lines).len(),
        scan_recs(lines)[r].sequence_length >= 1,
    ensures
        extracted(
            file_of(lines),
            scan_recs(lines)[r],
            1,
            scan_recs(lines)[r].sequence_length,
        ) == scan_bases(lines)[r],
{
    let v = scan_recs(lines)[r];
    lemma_region_bases(lines, r, 1, v.sequence_length);
    lemma_scan_layout(lines);
    assert(scan_bases(lines)[r].subrange(0, v.sequence_length) =~= scan_bases(lines)[r]);
}

/// Crossing an internal line boundary: the two bases either side of the
/// first boundary come back exactly, so terminator skipping is exact.
pub proof fn lemma_line_boundary(lines: Seq<Seq<u8>>, r: int)
    requires
        scan_ok(lines),
        0 <= r < scan_recs(lines).len(),
        scan_recs(lines)[r].sequence_length >= scan_recs(lines)[r].line_bases + 1,
        scan_recs(lines)[r].line_bases >= 1,
    ensures
        extracted(
            file_of(lines),
            scan_recs(lines)[r],
            scan_recs(lines)[r].line_bases,
            scan_recs(lines)[r].line_bases + 1,
        ) == seq![
            scan_bases(lines)[r][scan_recs(lines)[r].line_bases - 1],
            scan_bases(lines)[r][scan_recs(lines)[r].line_bases],
        ],
{
    let v = scan_recs(lines)[r];
    let b = scan_bases(lines)[r];
    lemma_scan_layout(lines);
    assert(rec_struct_ok(v, b, file_of(lines)));
    lemma_region_bases(lines, r, v.line_bases, v.line_bases + 1);
    assert(b.subrange(v.line_bases - 1, v.line_bases + 1) =~= seq![
        b[v.line_bases - 1],
        b[v.line_bases],
    ]);
}

/// Rebuilding the index on unchanged file text yields byte-identical
/// sidecar text: the scan's outcome is a function of the lines alone
/// (`index_fasta` pins its result to `scan_recs`), and serialization is a
/// function of the rows alone, so two builds over the same lines
/// serialize to the same bytes.
pub proof fn lemma_rebuild_identical(
    lines: Seq<Seq<u8>>,
    r1: Seq<IndexRecordView>,
    r2: Seq<IndexRecordView>,
)
    requires
        scan_ok(lines),
        r1 == scan_recs(lines),
        r2 == scan_recs(lines),
    ensures
        crate::sidecar::sidecar_text(r1) == crate::sidecar::sidecar_text(r2),
{
}

/// Nothing before the token's end is whitespace.
pub proof fn lemma_token_end_props(line: Seq<u8>, from: int)
    requires
        0 <= from <= line.len(),
    ensures
        from <= token_end(line, from) <= line.len(),
        forall|j: int| from <= j < token_end(line, from) ==> !is_space(line[j]),
    decreases line.len() - from,
{
    if from < line.len() && !is_space(line[from]) {
        lemma_token_end_props(line, from + 1);
    }
}

/// Names a scan commits are serializable (no separator bytes) and
/// pairwise distinct, and the open record's name is serializable too.
pub proof fn lemma_scan_names(lines: Seq<Seq<u8>>, i: int)
    requires
        0 <= i <= lines.len(),
        scan_at(lines, i) is Ok,
    ensures
        ({
            let st = scan_state_at(lines, i);
            &&& forall|r: int|
                0 <= r < st.recs.len() ==> crate::sidecar::name_ok(
                    (#[trigger] st.recs[r]).name,
                )
            &&& forall|r: int, s: int|
                0 <= r < s < st.recs.len() ==> (#[trigger] st.recs[r]).name != (
                #[trigger] st.recs[s]).name
            &&& match st.cur {
                Option::Some(cur) => crate::sidecar::name_ok(cur.name),
                Option::None => true,
            }
        }),
    decreases i,
{
    if i > 0 {
        assert(scan_at(lines, i - 1) is Ok);
        lemma_scan_names(lines, i - 1);
        let st0 = scan_state_at(lines, i - 1);
        let line = lines[i - 1];
        let st1 = scan_state_at(lines, i);
        if is_header(line) {
            match st0.cur {
                Option::Some(c0) => {
                    if c0.len > 0 {
                        lemma_commit_names(st0, c0);
                    }
                },
                Option::None => {},
            }
            lemma_token_end_props(line, 1);
            assert forall|j: int| 0 <= j < header_name(line).len() implies #[trigger] header_name(
                line,
            )[j] != crate::sidecar::TAB && header_name(line)[j] != NL by {
                assert(header_name(line)[j] == line[1 + j]);
                assert(!is_space(line[1 + j]));
            }
        }
    }
}

/// Committing keeps the committed names serializable and distinct.
proof fn lemma_commit_names(st: ScanState, cur: ScanCur)
    requires
        forall|r: int|
            0 <= r < st.recs.len() ==> crate::sidecar::name_ok((#[trigger] st.recs[r]).name),
        forall|r: int, s: int|
            0 <= r < s < st.recs.len() ==> (#[trigger] st.recs[r]).name != (
            #[trigger] st.recs[s]).name,
        crate::sidecar::name_ok(cur.name),
    ensures
        ({
            let c = commit(st, cur);
            &&& forall|r: int|
                0 <= r < c.recs.len() ==> crate::sidecar::name_ok((#[trigger] c.recs[r]).name)
            &&& forall|r: int, s: int|
                0 <= r < s < c.recs.len() ==> (#[trigger] c.recs[r]).name != (
                #[trigger] c.recs[s]).name
        }),
{
    lemma_name_idx(st.recs, cur.name);
    let c = commit(st, cur);
    if has_name(st.recs, cur.name) {
        let idx = name_idx(st.recs, cur.name);
        assert forall|r: int| 0 <= r < c.recs.len() implies crate::sidecar::name_ok(
            (#[trigger] c.recs[r]).name,
        ) by {
            if r != idx {
                assert(c.recs[r] == st.recs[r]);
            }
        }
        assert forall|r: int, s: int|
            0 <= r < s < c.recs.len() implies (#[trigger] c.recs[r]).name != (
        #[trigger] c.recs[s]).name by {
            assert(c.recs[r].name == st.recs[r].name);
            assert(c.recs[s].name == st.recs[s].name);
        }
    } else {
        assert forall|r: int| 0 <= r < c.recs.len() implies crate::sidecar::name_ok(
            (#[trigger] c.recs[r]).name,
        ) by {
            if r < st.recs.len() {
                assert(c.recs[r] == st.recs[r]);
            } else {
                assert(c.recs[r] == commit_view(cur));
            }
        }
        assert forall|r: int, s: int|
            0 <= r < s < c.recs.len() implies (#[trigger] c.recs[r]).name != (
        #[trigger] c.recs[s]).name by {
            assert(c.recs[r] == st.recs[r]);
            if s < st.recs.len() {
                assert(c.recs[s] == st.recs[s]);
            } else {
                assert(c.recs[s] == commit_view(cur));
            }
        }
    }
}

/// After a clean scan of a file whose text fits `u64` offsets, every row
/// is well formed and each field fits a `u64`.
pub proof fn lemma_scan_recs_fit(lines: Seq<Seq<u8>>)
    requires
        scan_ok(lines),
        file_of(lines).len() <= u64::MAX,
    ensures
        forall|r: int|
            0 <= r < scan_recs(lines).len() ==> (#[trigger] scan_recs(lines)[r]).wf()
                && crate::sidecar::fields_fit(scan_recs(lines)[r]),
{
    lemma_scan_layout(lines);
    let f = file_of(lines);
    assert forall|r: int|
        0 <= r < scan_recs(lines).len() implies (#[trigger] scan_recs(lines)[r]).wf()
            && crate::sidecar::fields_fit(scan_recs(lines)[r]) by {
        let v = scan_recs(lines)[r];
        assert(rec_struct_ok(v, scan_bases(lines)[r], f));
        if v.sequence_length > 0 {
            lemma_base_pos_bounds(
                v.line_bases,
                v.line_width,
                v.sequence_length - 1,
                v.sequence_length - 1,
            );
            assert(v.sequence_length <= v.byte_span());
            assert(v.offset >= 1);
            assert(v.sequence_length <= u64::MAX - 1);
            assert(v.line_width <= v.sequence_length + 1);
        }
    }
}

/// Capstone round trip of the whole pipeline's data: serializing the
/// index a clean scan builds and parsing the text back yields exactly
/// the scanned rows.
pub proof fn lemma_index_round_trip(lines: Seq<Seq<u8>>)
    requires
        scan_ok(lines),
        file_of(lines).len() <= u64::MAX,
    ensures
        crate::sidecar::parse_sidecar_spec(crate::sidecar::sidecar_text(scan_recs(lines)))
            == Ok::<Seq<IndexRecordView>, int>(scan_recs(lines)),
{
    lemma_scan_recs_fit(lines);
    let n = lines.len() as int;
    assert(scan_at(lines, n) is Ok);
    lemma_scan_names(lines, n);
    let st = scan_state_at(lines, n);
    match st.cur {
        Option::Some(c) => {
            lemma_commit_names(st, c);
            assert(scan_final(lines) == commit(st, c));
        },
        Option::None => {
            assert(scan_final(lines) == st);
        },
    }
    crate::sidecar::lemma_sidecar_round_trip(scan_recs(lines));
}

/// What a header line's name token looks like when read back out of a
/// concrete line.
#[verifier::loop_isolation(false)]
pub fn token_end_from(s: &[u8], from: usize) -> (r: usize)
    requires
        from <= s@.len(),
    ensures
        r == token_end(s@, from as int),
        from <= r <= s@.len(),
{
    let n = s.len();
    let mut j = from;
    while j < n
        invariant
            from <= j <= n,
            token_end(s@, from as int) == token_end(s@, j as int),
        decreases n - j,
    {
        let b = s[j];
        if b == 32 || b == 9 || b == 10 || b == 11 || b == 12 || b == 13 {
            return j;
        }
        j = j + 1;
    }
    n
}

/// The record being accumulated, in executable form.  `lb` is meaningful
/// only once `lb_set` holds.
struct CurRec {
    name: Vec<u8>,
    off: u64,
    len: u64,
    lb: u64,
    lb_set: bool,
    short: bool,
}

/// The executable accumulator tracks the ghost one field by field.
spec fn cur_matches(c: CurRec, g: ScanCur) -> bool {
    &&& c.name@ == g.name
    &&& c.off == g.off
    &&& c.len == g.len
    &&& c.lb_set == (g.lb >= 0)
    &&& (c.lb_set ==> c.lb == g.lb)
    &&& c.short == g.short
}

/// Both accumulators are absent, or both present and matching.
spec fn cur_opt_matches(c: Option<CurRec>, g: Option<ScanCur>) -> bool {
    match c {
        Option::None => g is None,
        Option::Some(cc) => match g {
            Option::Some(gg) => cur_matches(cc, gg),
            Option::None => false,
        },
    }
}

/// Commits the accumulated record into the store.
fn commit_cur(store: &mut IndexStore, c: CurRec, Ghost(g): Ghost<ScanCur>, Ghost(f): Ghost<
    Seq<u8>,
>)
    requires
        old(store).wf(),
        cur_matches(c, g),
        cur_ok(g, f.len() as int, f),
        f.len() <= u64::MAX,
    ensures
        final(store)@ == upsert(old(store)@, commit_view(g)),
        final(store).wf(),
{
    let lb: u64 = if c.len == 0 {
        0
    } else {
        c.lb
    };
    let lw: u64 = if c.len == 0 {
        0
    } else {
        c.lb + 1
    };
    let rec = IndexRecord {
        name: c.name,
        sequence_length: c.len,
        offset: c.off,
        line_bases: lb,
        line_width: lw,
    };
    proof {
        assert(rec@ =~= commit_view(g));
        if g.len > 0 {
            assert(0 <= g.off + base_pos(g.lb, g.lb + 1, g.len - 1) < f.len());
            assert(rec@.byte_span() == base_pos(g.lb, g.lb + 1, g.len - 1) + 1);
        }
        assert(rec@.wf());
    }
    store.insert(rec);
}

/// The view of a vector of physical lines.
pub open spec fn lines_view(lines: Seq<Vec<u8>>) -> Seq<Seq<u8>> {
    lines.map_values(|l: Vec<u8>| l@)
}

/// Builds the index by one forward pass over the physical lines of a
/// plain-text FASTA file (each line given without its terminator).
/// Succeeds exactly when the scan is clean; the store then holds the
/// scanned rows in build order.  A line before any header fails with
/// `MissingHeader`; a body line that breaks the uniform-width rule fails
/// with `NonUniformLineLength` carrying its 1-based line number.
pub fn index_fasta(lines: &Vec<Vec<u8>>) -> (r: Result<IndexStore, FakitError>)
    requires
        file_of(lines_view(lines@)).len() <= u64::MAX,
    ensures
        r is Ok <==> scan_ok(lines_view(lines@)),
        r matches Ok(st) ==> st@ == scan_recs(lines_view(lines@)) && st.wf(),
        r matches Err(e) ==> scan_result(lines_view(lines@)) matches Err(f) && match f {
            ScanFail::MissingHeader(_) => e == FakitError::MissingHeader,
            ScanFail::NonUniform(line_no) => e == FakitError::NonUniformLineLength(
                line_no as u64,
            ),
        },
{
    let ghost lv = lines_view(lines@);
    let mut store = IndexStore::new();
    let mut cur: Option<CurRec> = None;
    let mut dist: u64 = 0;
    let n = lines.len();
    let mut i: usize = 0;
    proof {
        assert(file_prefix(lv, 0) =~= Seq::<u8>::empty());
    }
    while i < n
        invariant
            n == lines@.len(),
            i <= n,
            lv == lines_view(lines@),
            file_of(lv).len() <= u64::MAX,
            scan_at(lv, i as int) is Ok,
            store.wf(),
            store@ == scan_state_at(lv, i as int).recs,
            dist == scan_state_at(lv, i as int).dist,
            cur_opt_matches(cur, scan_state_at(lv, i as int).cur),
        decreases n - i,
    {
        proof {
            lemma_scan_invariant(lv, i as int);
            lemma_file_prefix_mono(lv, i + 1, lv.len() as int);
            assert(lv[i as int] == lines@[i as int]@);
        }
        let ghost st0 = scan_state_at(lv, i as int);
        let ghost f0 = file_prefix(lv, i as int);
        let line = &lines[i];
        let l = line.len();
        proof {
            assert(file_prefix(lv, i + 1).len() == f0.len() + l + 1);
        }
        if l > 0 && line.as_slice()[0] == GT {
            let te = token_end_from(line.as_slice(), 1);
            let name = slice_to_vec(&line.as_slice()[1..te]);
            proof {
                assert(name@ == header_name(lv[i as int]));
            }
            let prev = cur;
            match prev {
                Option::Some(c) => {
                    if c.len > 0 {
                        let ghost g0 = st0.cur->Some_0;
                        commit_cur(&mut store, c, Ghost(g0), Ghost(f0));
                        proof {
                            assert(store@ == commit(st0, g0).recs);
                        }
                    }
                },
                Option::None => {},
            }
            cur = Some(
                CurRec {
                    name,
                    off: dist + (l as u64) + 1,
                    len: 0,
                    lb: 0,
                    lb_set: false,
                    short: false,
                },
            );
            dist = dist + (l as u64) + 1;
            proof {
                let st1 = scan_state_at(lv, i + 1);
                assert(scan_at(lv, i + 1) == scan_step(st0, lv[i as int], i + 1));
                assert(scan_at(lv, i + 1) is Ok);
                assert(store@ == st1.recs);
                assert(dist == st1.dist);
                assert(cur_opt_matches(cur, st1.cur));
            }
        } else {
            match &mut cur {
                Option::None => {
                    proof {
                        assert(scan_at(lv, i + 1) == Err::<ScanState, ScanFail>(
                            ScanFail::MissingHeader(i + 1),
                        ));
                        lemma_scan_err_propagates(lv, i + 1, lv.len() as int);
                    }
                    return Err(FakitError::MissingHeader);
                },
                Option::Some(c) => {
                    if c.lb_set && (l as u64) > c.lb {
                        proof {
                            assert(scan_at(lv, i + 1) == Err::<ScanState, ScanFail>(
                                ScanFail::NonUniform(i + 1),
                            ));
                            lemma_scan_err_propagates(lv, i + 1, lv.len() as int);
                        }
                        return Err(FakitError::NonUniformLineLength((i as u64) + 1));
                    }
                    if c.short {
                        proof {
                            assert(scan_at(lv, i + 1) == Err::<ScanState, ScanFail>(
                                ScanFail::NonUniform(i + 1),
                            ));
                            lemma_scan_err_propagates(lv, i + 1, lv.len() as int);
                        }
                        return Err(FakitError::NonUniformLineLength((i as u64) + 1));
                    }
                    if !c.lb_set {
                        c.lb = l as u64;
                        c.lb_set = true;
                    }
                    c.short = (l as u64) < c.lb;
                    c.len = c.len + (l as u64);
                    dist = dist + (l as u64) + 1;
                    proof {
                        let st1 = scan_state_at(lv, i + 1);
                        assert(scan_at(lv, i + 1) == scan_step(st0, lv[i as int], i + 1));
                        assert(scan_at(lv, i + 1) is Ok);
                        assert(store@ == st1.recs);
                        assert(dist == st1.dist);
                        assert(cur_opt_matches(cur, st1.cur));
                    }
                },
            }
        }
        i = i + 1;
    }
    proof {
        lemma_scan_invariant(lv, n as int);
    }
    let ghost stn = scan_state_at(lv, n as int);
    let ghost fn_ = file_prefix(lv, n as int);
    let prev = cur;
    match prev {
        Option::Some(c) => {
            let ghost gn = stn.cur->Some_0;
            commit_cur(&mut store, c, Ghost(gn), Ghost(fn_));
            proof {
                assert(store@ == commit(stn, gn).recs);
                assert(scan_result(lv) == Ok::<ScanState, ScanFail>(scan_finish(stn)));
                assert(scan_recs(lv) == commit(stn, gn).recs);
            }
        },
        Option::None => {
            proof {
                assert(scan_result(lv) == Ok::<ScanState, ScanFail>(scan_finish(stn)));
            }
        },
    }
    Ok(store)
}

} // verus!
