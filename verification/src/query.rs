use vstd::prelude::*;

use crate::errors::FakitError;
use crate::index::{base_pos, IndexRecord, IndexRecordView};
use crate::region::RegionQuery;
use crate::store::{has_name, lemma_name_idx, name_idx, IndexStore};
use vstd::arithmetic::div_mod::{
    lemma_div_is_ordered, lemma_div_pos_is_pos, lemma_fundamental_div_mod,
    lemma_fundamental_div_mod_converse, lemma_mod_bound, lemma_small_mod,
};

verus! {

/// Byte position of the `k`-th requested base relative to the byte position
/// of the first requested base, when the first one sits `o` bases into its
/// line (`o == (start - 1) % line_bases`).
pub open spec fn rel_pos(o: int, lb: int, lw: int, k: int) -> int {
    base_pos(lb, lw, o + k) - o
}

/// Bytes that must be available from the position of the first requested
/// base so that `count` bases can be reconstructed.
pub open spec fn needed_bytes(o: int, lb: int, lw: int, count: int) -> int {
    if count <= 0 {
        0
    } else {
        rel_pos(o, lb, lw, count - 1) + 1
    }
}

/// The bases a chunk of file text yields when terminators are skipped at
/// the indexed cadence: base `k` sits at `rel_pos(o, lb, lw, k)`.
pub open spec fn extracted_rel(chunk: Seq<u8>, o: int, lb: int, lw: int, count: int) -> Seq<u8> {
    Seq::new(count as nat, |k: int| chunk[rel_pos(o, lb, lw, k)])
}

/// The subsequence `start..=end` (1-based, inclusive) of a record, read
/// directly out of the whole file at the positions its index row points to.
pub open spec fn extracted(file: Seq<u8>, rec: IndexRecordView, start: int, end: int) -> Seq<u8> {
    Seq::new((end + 1 - start) as nat, |k: int| file[rec.offset + rec.pos(start - 1 + k)])
}

/// `base_pos` of a base in the first line is the base index itself.
pub proof fn lemma_base_pos_small(lb: int, lw: int, x: int)
    requires
        0 < lb,
        0 <= x < lb,
    ensures
        base_pos(lb, lw, x) == x,
{
    lemma_fundamental_div_mod_converse(x, lb, 0, x);
}

/// `base_pos` grows strictly with the base index and never falls below it.
pub proof fn lemma_base_pos_bounds(lb: int, lw: int, b1: int, b2: int)
    requires
        0 < lb,
        lw == lb + 1,
        0 <= b1 <= b2,
    ensures
        b1 <= base_pos(lb, lw, b1),
        base_pos(lb, lw, b1) <= base_pos(lb, lw, b2),
        b1 < b2 ==> base_pos(lb, lw, b1) < base_pos(lb, lw, b2),
{
    let q1 = b1 / lb;
    let r1 = b1 % lb;
    let q2 = b2 / lb;
    let r2 = b2 % lb;
    lemma_fundamental_div_mod(b1, lb);
    lemma_fundamental_div_mod(b2, lb);
    lemma_mod_bound(b1, lb);
    lemma_mod_bound(b2, lb);
    lemma_div_pos_is_pos(b1, lb);
    lemma_div_is_ordered(b1, b2, lb);
    assert(q1 * lw == q1 * lb + q1) by (nonlinear_arith)
        requires lw == lb + 1;
    assert(q2 * lw == q2 * lb + q2) by (nonlinear_arith)
        requires lw == lb + 1;
    if q1 < q2 {
        assert(q1 * lb <= (q2 - 1) * lb) by (nonlinear_arith)
            requires q1 <= q2 - 1 && 0 < lb;
        assert((q2 - 1) * lb == q2 * lb - lb) by (nonlinear_arith);
    }
}

/// How the byte position moves from one base to the next: one byte within
/// a line, and one extra terminator byte over a line boundary.
pub proof fn lemma_base_pos_succ(lb: int, lw: int, b: int)
    requires
        0 < lb,
        lw == lb + 1,
        0 <= b,
    ensures
        b % lb < lb - 1 ==> base_pos(lb, lw, b + 1) == base_pos(lb, lw, b) + 1 && (b + 1) % lb == b
            % lb + 1,
        b % lb == lb - 1 ==> base_pos(lb, lw, b + 1) == base_pos(lb, lw, b) + 2 && (b + 1) % lb
            == 0,
{
    let q = b / lb;
    let r = b % lb;
    lemma_fundamental_div_mod(b, lb);
    lemma_mod_bound(b, lb);
    if r < lb - 1 {
        lemma_fundamental_div_mod_converse(b + 1, lb, q, r + 1);
    } else {
        assert((q + 1) * lb == q * lb + lb) by (nonlinear_arith);
        lemma_fundamental_div_mod_converse(b + 1, lb, q + 1, 0);
        assert((q + 1) * lw == q * lw + lw) by (nonlinear_arith);
    }
}

/// Shifting a base index by whole lines shifts its byte position by whole
/// line widths.
pub proof fn lemma_base_pos_add_lines(lb: int, lw: int, q: int, x: int)
    requires
        0 < lb,
        0 <= q,
        0 <= x,
    ensures
        base_pos(lb, lw, q * lb + x) == q * lw + base_pos(lb, lw, x),
{
    let qx = x / lb;
    let rx = x % lb;
    lemma_fundamental_div_mod(x, lb);
    lemma_mod_bound(x, lb);
    lemma_div_pos_is_pos(x, lb);
    assert(q * lb + x == (q + qx) * lb + rx) by (nonlinear_arith)
        requires x == lb * qx + rx;
    lemma_fundamental_div_mod_converse(q * lb + x, lb, q + qx, rx);
    assert((q + qx) * lw == q * lw + qx * lw) by (nonlinear_arith);
}

/// The position of base `s0 + k` is the position of base `s0` plus the
/// relative cadence position of `k` within a window opening `s0 % lb`
/// bases into a line.
pub proof fn lemma_rel_pos_abs(lb: int, lw: int, s0: int, k: int)
    requires
        0 < lb,
        0 <= s0,
        0 <= k,
    ensures
        base_pos(lb, lw, s0 + k) == base_pos(lb, lw, s0) + rel_pos(s0 % lb, lb, lw, k),
{
    let q = s0 / lb;
    let o = s0 % lb;
    lemma_fundamental_div_mod(s0, lb);
    lemma_mod_bound(s0, lb);
    lemma_div_pos_is_pos(s0, lb);
    assert(s0 + k == q * lb + (o + k)) by (nonlinear_arith)
        requires s0 == lb * q + o;
    lemma_base_pos_add_lines(lb, lw, q, o + k);
    lemma_base_pos_add_lines(lb, lw, q, o);
    lemma_base_pos_small(lb, lw, o);
}

/// The byte offset computed for `start = 1` is the record's stored offset.
pub proof fn lemma_byte_offset_of_first_base(rec: IndexRecordView)
    requires
        rec.wf(),
        1 <= rec.sequence_length,
    ensures
        rec.offset + rec.pos(0) == rec.offset,
{
    lemma_base_pos_small(rec.line_bases, rec.line_width, 0);
}

/// Everything the caller needs in order to serve one region query with a
/// single seek and a single bounded read: seek to `byte_offset`, read
/// `bytes_needed` bytes, and reconstruct `count` bases from them.
#[derive(Clone, Copy, Debug)]
pub struct QueryPlan {
    pub byte_offset: u64,
    pub bytes_needed: u64,
    pub line_offset: u64,
    pub count: u64,
    pub line_bases: u64,
    pub line_width: u64,
}

impl QueryPlan {
    /// The line metadata is consistent and `bytes_needed` matches the
    /// cadence arithmetic for `count` bases starting `line_offset` bases
    /// into a line.
    pub open spec fn wf(self) -> bool {
        &&& self.count > 0 ==> {
            &&& 0 < self.line_bases
            &&& self.line_width == self.line_bases + 1
            &&& self.line_offset < self.line_bases
        }
        &&& self.bytes_needed == needed_bytes(
            self.line_offset as int,
            self.line_bases as int,
            self.line_width as int,
            self.count as int,
        )
    }
}

/// Byte offset, from the start of the file, of base `start` (1-based) of
/// an indexed record.
pub fn byte_offset(rec: &IndexRecord, start: u64) -> (r: u64)
    requires
        rec@.wf(),
        1 <= start <= rec@.sequence_length,
    ensures
        r == rec@.offset + rec@.pos(start - 1),
{
    let lb = rec.line_bases;
    let lw = rec.line_width;
    let s0 = start - 1;
    proof {
        lemma_mod_bound(s0 as int, lb as int);
        lemma_base_pos_bounds(lb as int, lw as int, s0 as int, rec@.sequence_length - 1);
    }
    let line_index = s0 / lb;
    let line_off = s0 % lb;
    rec.offset + (line_index * lw + line_off)
}

/// Validates a 1-based inclusive range against a record and computes the
/// seek-and-read plan for it.  Fails with `RegionOutOfBounds` exactly when
/// `1 <= start <= end <= sequence_length` does not hold, leaving the rest
/// of a batch free to continue.
pub fn region_plan(rec: &IndexRecord, start: u64, end: u64) -> (r: Result<
    QueryPlan,
    FakitError,
>)
    requires
        rec@.wf(),
    ensures
        r is Ok <==> 1 <= start <= end <= rec@.sequence_length,
        r is Err ==> r == Err::<QueryPlan, FakitError>(FakitError::RegionOutOfBounds),
        r matches Ok(p) ==> {
            &&& p.wf()
            &&& p.byte_offset == rec@.offset + rec@.pos(start - 1)
            &&& p.bytes_needed == rec@.pos(end - 1) - rec@.pos(start - 1) + 1
            &&& p.line_offset == (start - 1) % rec@.line_bases
            &&& p.count == end - start + 1
            &&& p.line_bases == rec@.line_bases
            &&& p.line_width == rec@.line_width
        },
{
    if start < 1 || start > end || end > rec.sequence_length {
        return Err(FakitError::RegionOutOfBounds);
    }
    let lb = rec.line_bases;
    let lw = rec.line_width;
    let s0 = start - 1;
    let e0 = end - 1;
    proof {
        lemma_mod_bound(s0 as int, lb as int);
        lemma_mod_bound(e0 as int, lb as int);
        lemma_base_pos_bounds(lb as int, lw as int, s0 as int, e0 as int);
        lemma_base_pos_bounds(lb as int, lw as int, e0 as int, rec@.sequence_length - 1);
        lemma_rel_pos_abs(lb as int, lw as int, s0 as int, (end - start) as int);
    }
    let pos_s = (s0 / lb) * lw + s0 % lb;
    let pos_e = (e0 / lb) * lw + e0 % lb;
    Ok(
        QueryPlan {
            byte_offset: rec.offset + pos_s,
            bytes_needed: pos_e - pos_s + 1,
            line_offset: s0 % lb,
            count: end - start + 1,
            line_bases: lb,
            line_width: lw,
        },
    )
}

/// The plan that reads a record's whole body: every base, starting at the
/// record's own offset.
pub fn whole_plan(rec: &IndexRecord) -> (p: QueryPlan)
    requires
        rec@.wf(),
    ensures
        p.wf(),
        p.byte_offset == rec@.offset,
        p.bytes_needed == rec@.byte_span(),
        p.line_offset == 0,
        p.count == rec@.sequence_length,
        p.line_bases == rec@.line_bases,
        p.line_width == rec@.line_width,
{
    if rec.sequence_length == 0 {
        QueryPlan {
            byte_offset: rec.offset,
            bytes_needed: 0,
            line_offset: 0,
            count: 0,
            line_bases: rec.line_bases,
            line_width: rec.line_width,
        }
    } else {
        let lb = rec.line_bases;
        let lw = rec.line_width;
        let e0 = rec.sequence_length - 1;
        proof {
            lemma_mod_bound(e0 as int, lb as int);
            lemma_base_pos_bounds(lb as int, lw as int, e0 as int, e0 as int);
        }
        let pos_e = (e0 / lb) * lw + e0 % lb;
        QueryPlan {
            byte_offset: rec.offset,
            bytes_needed: pos_e + 1,
            line_offset: 0,
            count: rec.sequence_length,
            line_bases: lb,
            line_width: lw,
        }
    }
}

/// Resolves one parsed region query against the index: looks the name
/// up, validates the range, and produces the seek-and-read plan.  A name
/// absent from the index fails with `UnknownSequence`; a bad range with
/// `RegionOutOfBounds`; both leave the rest of a batch untouched.  A
/// query without a range plans the whole sequence.
pub fn resolve_query(store: &IndexStore, q: &RegionQuery) -> (r: Result<QueryPlan, FakitError>)
    requires
        store.wf(),
    ensures
        !has_name(store@, q.name@) ==> r == Err::<QueryPlan, FakitError>(
            FakitError::UnknownSequence,
        ),
        has_name(store@, q.name@) ==> {
            let rec = store@[name_idx(store@, q.name@)];
            match q.range {
                Option::None => r matches Ok(p) && p.wf() && p.byte_offset == rec.offset
                    && p.bytes_needed == rec.byte_span() && p.line_offset == 0 && p.count
                    == rec.sequence_length && p.line_bases == rec.line_bases && p.line_width
                    == rec.line_width,
                Option::Some((start, end)) => {
                    &&& (r is Ok <==> 1 <= start <= end <= rec.sequence_length)
                    &&& (r is Err ==> r == Err::<QueryPlan, FakitError>(
                        FakitError::RegionOutOfBounds,
                    ))
                    &&& (r matches Ok(p) ==> p.wf() && p.byte_offset == rec.offset + rec.pos(
                        start - 1,
                    ) && p.bytes_needed == rec.pos(end - 1) - rec.pos(start - 1) + 1
                        && p.line_offset == (start - 1) % rec.line_bases && p.count == end - start
                        + 1 && p.line_bases == rec.line_bases && p.line_width == rec.line_width)
                },
            }
        },
{
    match store.lookup(q.name.as_slice()) {
        Option::None => Err(FakitError::UnknownSequence),
        Option::Some(rec) => {
            proof {
                lemma_name_idx(store@, q.name@);
                assert(rec@ == store@[name_idx(store@, q.name@)]);
                assert(rec@.wf());
            }
            match q.range {
                Option::None => Ok(whole_plan(rec)),
                Option::Some((start, end)) => region_plan(rec, start, end),
            }
        },
    }
}

/// Reconstructs `plan.count` bases from the bytes read at
/// `plan.byte_offset`, consuming one terminator byte each time the cadence
/// says a line ends.  The result holds exactly the bytes at the cadence
/// positions of the chunk, in order.
pub fn extract_bases(chunk: &[u8], plan: &QueryPlan) -> (r: Vec<u8>)
    requires
        plan.wf(),
        plan.bytes_needed <= chunk@.len(),
    ensures
        r@ == extracted_rel(
            chunk@,
            plan.line_offset as int,
            plan.line_bases as int,
            plan.line_width as int,
            plan.count as int,
        ),
{
    let count = plan.count;
    let lb = plan.line_bases;
    let lw = plan.line_width;
    let o = plan.line_offset;
    let mut out: Vec<u8> = Vec::new();
    let mut j: usize = 0;
    let mut pos: u64 = o;
    let mut k: u64 = 0;
    proof {
        if count > 0 {
            lemma_base_pos_small(lb as int, lw as int, o as int);
            lemma_small_mod(o as nat, lb as nat);
        }
    }
    while k < count
        invariant
            count > 0 ==> 0 < lb && lw == lb + 1 && o < lb,
            needed_bytes(o as int, lb as int, lw as int, count as int) <= chunk@.len(),
            0 <= k <= count,
            out@.len() == k,
            forall|m: int|
                0 <= m < k ==> out@[m] == chunk@[rel_pos(o as int, lb as int, lw as int, m)],
            k < count ==> j == rel_pos(o as int, lb as int, lw as int, k as int) && pos == (o
                + k) % (lb as int),
        decreases count - k,
    {
        proof {
            lemma_base_pos_bounds(lb as int, lw as int, (o + k) as int, (o + count - 1) as int);
            lemma_base_pos_bounds(lb as int, lw as int, o as int, (o + k) as int);
            lemma_base_pos_small(lb as int, lw as int, o as int);
        }
        let b = chunk[j];
        out.push(b);
        proof {
            lemma_base_pos_succ(lb as int, lw as int, (o + k) as int);
            lemma_mod_bound((o + k) as int, lb as int);
        }
        if pos + 1 == lb {
            pos = 0;
            if k + 1 < count {
                proof {
                    lemma_base_pos_bounds(
                        lb as int,
                        lw as int,
                        (o + k + 1) as int,
                        (o + count - 1) as int,
                    );
                }
                j = j + 2;
            }
        } else {
            pos = pos + 1;
            if k + 1 < count {
                proof {
                    lemma_base_pos_bounds(
                        lb as int,
                        lw as int,
                        (o + k + 1) as int,
                        (o + count - 1) as int,
                    );
                }
                j = j + 1;
            }
        }
        k = k + 1;
    }
    proof {
        assert(out@ =~= extracted_rel(
            chunk@,
            plan.line_offset as int,
            plan.line_bases as int,
            plan.line_width as int,
            plan.count as int,
        ));
    }
    out
}

/// Reading the planned byte window out of the whole file and walking it at
/// the cadence yields exactly the file bytes at the record's base
/// positions for `start..=end`.
pub proof fn lemma_extracted_from_chunk(
    file: Seq<u8>,
    rec: IndexRecordView,
    start: int,
    end: int,
    chunk: Seq<u8>,
)
    requires
        rec.wf(),
        1 <= start <= end <= rec.sequence_length,
        rec.offset + rec.pos(end - 1) + 1 <= file.len(),
        chunk == file.subrange(rec.offset + rec.pos(start - 1), rec.offset + rec.pos(end - 1) + 1),
    ensures
        extracted_rel(
            chunk,
            (start - 1) % rec.line_bases,
            rec.line_bases,
            rec.line_width,
            end + 1 - start,
        ) == extracted(file, rec, start, end),
{
    let lb = rec.line_bases;
    let lw = rec.line_width;
    let o = (start - 1) % lb;
    let s0 = start - 1;
    let a = rec.offset + rec.pos(s0);
    lemma_mod_bound(s0, lb);
    assert forall|k: int| 0 <= k < end + 1 - start implies chunk[rel_pos(o, lb, lw, k)] == file[
        rec.offset + rec.pos(s0 + k)
    ] by {
        lemma_rel_pos_abs(lb, lw, s0, k);
        lemma_base_pos_bounds(lb, lw, s0, s0 + k);
        lemma_base_pos_bounds(lb, lw, s0 + k, end - 1);
        lemma_base_pos_small(lb, lw, o);
    }
    assert(extracted_rel(chunk, o, lb, lw, end + 1 - start) =~= extracted(file, rec, start, end));
}

} // verus!
