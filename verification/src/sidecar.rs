use vstd::prelude::*;

use crate::errors::FakitError;
use crate::index::{IndexRecord, IndexRecordView};
use crate::store::{has_name, upsert, IndexStore};
use crate::wrap::{push_bytes, NL};
use vstd::arithmetic::div_mod::{lemma_fundamental_div_mod, lemma_mod_bound};
use vstd::slice::slice_to_vec;

verus! {

/// Field separator of the sidecar table.
pub const TAB: u8 = 9;

/// An ASCII decimal digit.
pub open spec fn is_digit(b: u8) -> bool {
    48 <= b <= 57
}

/// Every byte of `s` is an ASCII decimal digit.
pub open spec fn all_digits(s: Seq<u8>) -> bool {
    forall|i: int| 0 <= i < s.len() ==> is_digit(#[trigger] s[i])
}

/// The decimal digits of `n`, most significant first.
pub open spec fn dec_digits(n: int) -> Seq<u8>
    recommends
        n >= 0,
    decreases n,
{
    if n < 10 {
        seq![(48 + n) as u8]
    } else {
        dec_digits(n / 10) + seq![(48 + n % 10) as u8]
    }
}

/// The number a string of decimal digits denotes.
pub open spec fn dec_val(s: Seq<u8>) -> int
    decreases s.len(),
{
    if s.len() == 0 {
        0
    } else {
        dec_val(s.drop_last()) * 10 + (s.last() - 48)
    }
}

/// Formatting a number gives a nonempty digit string that denotes it.
pub proof fn lemma_dec_digits_val(n: int)
    requires
        n >= 0,
    ensures
        all_digits(dec_digits(n)),
        dec_val(dec_digits(n)) == n,
        dec_digits(n).len() >= 1,
    decreases n,
{
    if n < 10 {
        let s = dec_digits(n);
        assert(s.drop_last() =~= Seq::<u8>::empty());
        assert(s.last() == (48 + n) as u8);
        assert(dec_val(Seq::<u8>::empty()) == 0);
        assert(dec_val(s) == dec_val(s.drop_last()) * 10 + (s.last() - 48));
    } else {
        lemma_dec_digits_val(n / 10);
        lemma_fundamental_div_mod(n, 10);
        lemma_mod_bound(n, 10);
        let s = dec_digits(n);
        assert(s.drop_last() =~= dec_digits(n / 10));
        assert(s.last() == (48 + n % 10) as u8);
        assert(dec_val(s) == dec_val(s.drop_last()) * 10 + (s.last() - 48));
        assert(dec_val(s.drop_last()) == n / 10);
        assert forall|i: int| 0 <= i < s.len() implies is_digit(s[i]) by {
            if i < s.len() - 1 {
                assert(s[i] == dec_digits(n / 10)[i]);
            }
        }
    }
}

/// A digit string denotes a nonnegative number.
pub proof fn lemma_dec_val_nonneg(s: Seq<u8>)
    requires
        all_digits(s),
    ensures
        dec_val(s) >= 0,
    decreases s.len(),
{
    if s.len() > 0 {
        assert(forall|i: int|
            0 <= i < s.drop_last().len() ==> #[trigger] s.drop_last()[i] == s[i]);
        lemma_dec_val_nonneg(s.drop_last());
        assert(is_digit(s.last()));
    }
}

/// A prefix of a digit string never denotes more than the whole string.
pub proof fn lemma_dec_val_prefix(s: Seq<u8>, i: int)
    requires
        all_digits(s),
        0 <= i <= s.len(),
    ensures
        dec_val(s.take(i)) <= dec_val(s),
    decreases s.len() - i,
{
    if i == s.len() {
        assert(s.take(i) =~= s);
    } else {
        lemma_dec_val_prefix(s, i + 1);
        assert(s.take(i + 1).drop_last() =~= s.take(i));
        assert(s.take(i + 1).last() == s[i]);
        assert(forall|j: int| 0 <= j < i ==> #[trigger] s.take(i)[j] == s[j]);
        lemma_dec_val_nonneg(s.take(i));
        assert(is_digit(s[i]));
    }
}

/// Appends the decimal digits of `n` to `out`.
pub fn write_dec(n: u64, out: &mut Vec<u8>)
    ensures
        final(out)@ == old(out)@ + dec_digits(n as int),
    decreases n,
{
    if n < 10 {
        out.push(48 + n as u8);
        assert(out@ =~= old(out)@ + dec_digits(n as int));
    } else {
        write_dec(n / 10, out);
        out.push(48 + (n % 10) as u8);
        assert(out@ =~= old(out)@ + dec_digits(n as int));
    }
}

/// Parses a whole byte string as an unsigned decimal number.  Succeeds
/// exactly when the string is nonempty, holds digits only, and denotes a
/// value that fits in a `u64`.
pub fn parse_u64(bytes: &[u8]) -> (r: Option<u64>)
    ensures
        r is Some <==> bytes@.len() > 0 && all_digits(bytes@) && dec_val(bytes@) <= u64::MAX,
        r matches Some(v) ==> v == dec_val(bytes@),
{
    if bytes.len() == 0 {
        return None;
    }
    let n = bytes.len();
    let mut acc: u64 = 0;
    let mut i: usize = 0;
    proof {
        assert(bytes@.take(0) =~= Seq::<u8>::empty());
    }
    while i < n
        invariant
            n == bytes@.len(),
            0 < n,
            i <= n,
            all_digits(bytes@.take(i as int)),
            acc == dec_val(bytes@.take(i as int)),
        decreases n - i,
    {
        let b = bytes[i];
        if b < 48 || b > 57 {
            return None;
        }
        let d = (b - 48) as u64;
        proof {
            assert(bytes@.take(i + 1).drop_last() =~= bytes@.take(i as int));
            assert(bytes@.take(i + 1).last() == bytes@[i as int]);
            assert(forall|j: int|
                0 <= j < i + 1 ==> #[trigger] bytes@.take(i + 1)[j] == bytes@[j]);
            lemma_fundamental_div_mod(u64::MAX - d, 10);
            lemma_mod_bound(u64::MAX - d, 10);
        }
        if acc > (u64::MAX - d) / 10 {
            proof {
                assert(dec_val(bytes@.take(i + 1)) > u64::MAX);
                if all_digits(bytes@) {
                    lemma_dec_val_prefix(bytes@, i + 1);
                }
            }
            return None;
        }
        acc = acc * 10 + d;
        i = i + 1;
    }
    proof {
        assert(bytes@.take(n as int) =~= bytes@);
    }
    Some(acc)
}

/// One serialized index row without its terminator: the name and the
/// four numbers, tab-separated.
pub open spec fn sidecar_row_core(r: IndexRecordView) -> Seq<u8> {
    r.name + seq![TAB] + dec_digits(r.sequence_length) + seq![TAB] + dec_digits(r.offset) + seq![
        TAB
    ] + dec_digits(r.line_bases) + seq![TAB] + dec_digits(r.line_width)
}

/// One serialized index row: the core fields and a line terminator.
pub open spec fn sidecar_row(r: IndexRecordView) -> Seq<u8> {
    sidecar_row_core(r) + seq![NL]
}

/// The whole sidecar table: one row per record, in build order.
pub open spec fn sidecar_text(s: Seq<IndexRecordView>) -> Seq<u8>
    decreases s.len(),
{
    if s.len() == 0 {
        Seq::<u8>::empty()
    } else {
        sidecar_row(s[0]) + sidecar_text(s.skip(1))
    }
}

impl IndexStore {
    /// Serializes the index as sidecar text, one tab-separated row per
    /// record, in build order.
    pub fn to_sidecar(&self) -> (r: Vec<u8>)
        ensures
            r@ == sidecar_text(self@),
    {
        let mut out: Vec<u8> = Vec::new();
        let n = self.records.len();
        let mut i: usize = 0;
        proof {
            assert(self@.skip(0) =~= self@);
            assert(out@ + sidecar_text(self@) =~= sidecar_text(self@));
        }
        while i < n
            invariant
                n == self@.len(),
                i <= n,
                sidecar_text(self@) == out@ + sidecar_text(self@.skip(i as int)),
            decreases n - i,
        {
            let ghost out0 = out@;
            push_bytes(&mut out, self.records[i].name.as_slice());
            out.push(TAB);
            write_dec(self.records[i].sequence_length, &mut out);
            out.push(TAB);
            write_dec(self.records[i].offset, &mut out);
            out.push(TAB);
            write_dec(self.records[i].line_bases, &mut out);
            out.push(TAB);
            write_dec(self.records[i].line_width, &mut out);
            out.push(NL);
            proof {
                assert(self@[i as int] == self.records@[i as int]@);
                assert(out@ =~= out0 + sidecar_row(self@[i as int]));
                assert(self@.skip(i as int)[0] == self@[i as int]);
                assert(self@.skip(i as int).skip(1) =~= self@.skip(i + 1));
            }
            i = i + 1;
        }
        proof {
            assert(sidecar_text(self@.skip(n as int)) =~= Seq::<u8>::empty());
            assert(out@ =~= sidecar_text(self@));
        }
        out
    }
}

/// Index of the first occurrence of `b` in `s` at or after `from`, or
/// `s.len()` when there is none.
pub open spec fn find_byte(s: Seq<u8>, from: int, b: u8) -> int
    recommends
        0 <= from,
    decreases s.len() - from,
{
    if from >= s.len() {
        s.len() as int
    } else if s[from] == b {
        from
    } else {
        find_byte(s, from + 1, b)
    }
}

/// Where nothing before `p` (at or after `from`) is `b`, and `p` is the
/// end or holds `b`, the search lands exactly on `p`.
pub proof fn lemma_find_byte_is(s: Seq<u8>, from: int, b: u8, p: int)
    requires
        0 <= from <= p <= s.len(),
        forall|j: int| from <= j < p ==> s[j] != b,
        p < s.len() ==> s[p] == b,
    ensures
        find_byte(s, from, b) == p,
{
    lemma_find_byte(s, from, b);
    let f = find_byte(s, from, b);
    if f < p {
        assert(s[f] == b);
    }
    if f > p && p < s.len() {
        assert(s[p] != b);
    }
}

/// What `find_byte` finds: a position between `from` and the end; the
/// byte there (if within bounds) is `b`; no earlier position at or after
/// `from` holds `b`.
pub proof fn lemma_find_byte(s: Seq<u8>, from: int, b: u8)
    requires
        0 <= from <= s.len(),
    ensures
        from <= find_byte(s, from, b) <= s.len(),
        find_byte(s, from, b) < s.len() ==> s[find_byte(s, from, b)] == b,
        forall|j: int| from <= j < find_byte(s, from, b) ==> s[j] != b,
    decreases s.len() - from,
{
    if from < s.len() && s[from] != b {
        lemma_find_byte(s, from + 1, b);
    }
}

/// Finds the first occurrence of `b` in `s` at or after `from`, returning
/// `s.len()` when there is none.
#[verifier::loop_isolation(false)]
pub fn find_byte_from(s: &[u8], from: usize, b: u8) -> (r: usize)
    requires
        from <= s@.len(),
    ensures
        r == find_byte(s@, from as int, b),
        from <= r <= s@.len(),
        r < s@.len() ==> s@[r as int] == b,
        forall|j: int| from <= j < r ==> s@[j] != b,
{
    proof {
        lemma_find_byte(s@, from as int, b);
    }
    let n = s.len();
    let mut j = from;
    while j < n
        invariant
            n == s@.len(),
            from <= j <= n,
            find_byte(s@, from as int, b) == find_byte(s@, j as int, b),
        decreases n - j,
    {
        if s[j] == b {
            return j;
        }
        j = j + 1;
    }
    n
}

/// A sidecar number field: nonempty, digits only, and within `u64` range.
pub open spec fn num_field_ok(f: Seq<u8>) -> bool {
    f.len() > 0 && all_digits(f) && dec_val(f) <= u64::MAX
}

/// One sidecar row parsed: the name runs to the first tab, then exactly
/// four tab-separated number fields follow.  `None` when the shape or a
/// number is wrong, or when the parsed row is not well formed.
pub open spec fn parse_row(row: Seq<u8>) -> Option<IndexRecordView> {
    let t1 = find_byte(row, 0, TAB);
    let t2 = find_byte(row, t1 + 1, TAB);
    let t3 = find_byte(row, t2 + 1, TAB);
    let t4 = find_byte(row, t3 + 1, TAB);
    if t4 >= row.len() {
        None
    } else if find_byte(row, t4 + 1, TAB) < row.len() {
        None
    } else {
        let f1 = row.subrange(t1 + 1, t2);
        let f2 = row.subrange(t2 + 1, t3);
        let f3 = row.subrange(t3 + 1, t4);
        let f4 = row.subrange(t4 + 1, row.len() as int);
        if num_field_ok(f1) && num_field_ok(f2) && num_field_ok(f3) && num_field_ok(f4) {
            let rec = IndexRecordView {
                name: row.subrange(0, t1),
                sequence_length: dec_val(f1),
                offset: dec_val(f2),
                line_bases: dec_val(f3),
                line_width: dec_val(f4),
            };
            if rec.wf() {
                Some(rec)
            } else {
                None
            }
        } else {
            None
        }
    }
}

/// `find_byte` never looks backwards.
pub proof fn lemma_find_byte_ge(s: Seq<u8>, from: int, b: u8)
    requires
        from <= s.len(),
    ensures
        from <= find_byte(s, from, b) <= s.len(),
    decreases s.len() - from,
{
    if from < s.len() && s[from] != b {
        lemma_find_byte_ge(s, from + 1, b);
    }
}

/// Sidecar text from cursor `i` on, parsed row by row into `acc`; the
/// error is the 1-based number of the first row that does not parse.
pub open spec fn parse_fold_at(
    bytes: Seq<u8>,
    i: int,
    acc: Seq<IndexRecordView>,
    row_no: int,
) -> Result<Seq<IndexRecordView>, int>
    recommends
        0 <= i <= bytes.len(),
    decreases bytes.len() - i,
    via parse_fold_at_dec
{
    if i >= bytes.len() {
        Ok(acc)
    } else {
        let e = find_byte(bytes, i, NL);
        match parse_row(bytes.subrange(i, e)) {
            Option::None => Err(row_no),
            Option::Some(r) => {
                let next = if e == bytes.len() {
                    e
                } else {
                    e + 1
                };
                parse_fold_at(bytes, next, upsert(acc, r), row_no + 1)
            },
        }
    }
}

#[via_fn]
proof fn parse_fold_at_dec(bytes: Seq<u8>, i: int, acc: Seq<IndexRecordView>, row_no: int) {
    if i < bytes.len() {
        lemma_find_byte_ge(bytes, i, NL);
    }
}

/// The whole sidecar text parsed into records, build order kept.
pub open spec fn parse_sidecar_spec(bytes: Seq<u8>) -> Result<Seq<IndexRecordView>, int> {
    parse_fold_at(bytes, 0, Seq::<IndexRecordView>::empty(), 1)
}

/// Parses one sidecar row into a concrete record.
fn parse_row_bytes(row: &[u8]) -> (r: Option<IndexRecord>)
    ensures
        r matches Some(rec) ==> parse_row(row@) == Some(rec@) && rec@.wf(),
        r is None ==> parse_row(row@) is None,
        r is Some ==> row@.len() >= 8,
{
    let n = row.len();
    let t1 = find_byte_from(row, 0, TAB);
    if t1 >= n {
        return None;
    }
    let t2 = find_byte_from(row, t1 + 1, TAB);
    if t2 >= n {
        return None;
    }
    let t3 = find_byte_from(row, t2 + 1, TAB);
    if t3 >= n {
        return None;
    }
    let t4 = find_byte_from(row, t3 + 1, TAB);
    if t4 >= n {
        return None;
    }
    let t5 = find_byte_from(row, t4 + 1, TAB);
    if t5 < n {
        return None;
    }
    let v1 = parse_u64(&row[t1 + 1..t2]);
    let v2 = parse_u64(&row[t2 + 1..t3]);
    let v3 = parse_u64(&row[t3 + 1..t4]);
    let v4 = parse_u64(&row[t4 + 1..n]);
    match (v1, v2, v3, v4) {
        (Some(sequence_length), Some(offset), Some(line_bases), Some(line_width)) => {
            let rec = IndexRecord {
                name: slice_to_vec(&row[0..t1]),
                sequence_length,
                offset,
                line_bases,
                line_width,
            };
            if rec.check_wf() {
                Some(rec)
            } else {
                None
            }
        },
        _ => None,
    }
}

/// Parses sidecar text into an index.  Fails with `MalformedIndexLine`
/// carrying the 1-based number of the first row that does not parse; on
/// success the index holds exactly the parsed rows, in file order, with
/// duplicate names overwritten in place (last write wins).
pub fn parse_sidecar(bytes: &[u8]) -> (r: Result<IndexStore, FakitError>)
    ensures
        r is Ok <==> parse_sidecar_spec(bytes@) is Ok,
        r matches Ok(st) ==> parse_sidecar_spec(bytes@) matches Ok(s) && st@ == s && st.wf(),
        r matches Err(e) ==> parse_sidecar_spec(bytes@) matches Err(row) && e
            == FakitError::MalformedIndexLine(row as u64),
{
    let n = bytes.len();
    let mut store = IndexStore::new();
    let mut i: usize = 0;
    let mut row_no: u64 = 1;
    while i < n
        invariant
            n == bytes@.len(),
            i <= n,
            1 <= row_no,
            8 * (row_no as int - 1) <= i as int,
            store.wf(),
            parse_sidecar_spec(bytes@) == parse_fold_at(bytes@, i as int, store@, row_no as int),
        decreases n - i,
    {
        let e = find_byte_from(bytes, i, NL);
        proof {
            lemma_find_byte(bytes@, i as int, NL);
        }
        match parse_row_bytes(&bytes[i..e]) {
            Option::None => {
                return Err(FakitError::MalformedIndexLine(row_no));
            },
            Option::Some(rec) => {
                proof {
                    assert(bytes@.subrange(i as int, e as int).len() >= 8);
                }
                store.insert(rec);
                i = if e == n {
                    e
                } else {
                    e + 1
                };
                row_no = row_no + 1;
            },
        }
    }
    Ok(store)
}

/// A name the sidecar table can carry: free of the field separator and
/// the line terminator.
pub open spec fn name_ok(name: Seq<u8>) -> bool {
    forall|j: int| 0 <= j < name.len() ==> #[trigger] name[j] != TAB && name[j] != NL
}

/// Row numbers the table's fields can carry.
pub open spec fn fields_fit(v: IndexRecordView) -> bool {
    &&& v.sequence_length <= u64::MAX
    &&& v.offset <= u64::MAX
    &&& v.line_bases <= u64::MAX
    &&& v.line_width <= u64::MAX
}

/// A serialized row parses back to exactly the record it came from, and
/// holds no line terminator.
pub proof fn lemma_parse_row_core(v: IndexRecordView)
    requires
        v.wf(),
        fields_fit(v),
        name_ok(v.name),
    ensures
        parse_row(sidecar_row_core(v)) == Some(v),
        forall|j: int|
            0 <= j < sidecar_row_core(v).len() ==> #[trigger] sidecar_row_core(v)[j] != NL,
{
    let core = sidecar_row_core(v);
    let d1 = dec_digits(v.sequence_length);
    let d2 = dec_digits(v.offset);
    let d3 = dec_digits(v.line_bases);
    let d4 = dec_digits(v.line_width);
    lemma_dec_digits_val(v.sequence_length);
    lemma_dec_digits_val(v.offset);
    lemma_dec_digits_val(v.line_bases);
    lemma_dec_digits_val(v.line_width);
    let n0 = v.name.len() as int;
    let n1 = d1.len() as int;
    let n2 = d2.len() as int;
    let n3 = d3.len() as int;
    let n4 = d4.len() as int;
    let t1 = n0;
    let t2 = n0 + 1 + n1;
    let t3 = t2 + 1 + n2;
    let t4 = t3 + 1 + n3;
    assert(core.len() == t4 + 1 + n4);
    assert forall|j: int| 0 <= j < n0 implies #[trigger] core[j] == v.name[j] by {}
    assert(core[t1] == TAB);
    assert forall|j: int| 0 <= j < n1 implies #[trigger] core[t1 + 1 + j] == d1[j] by {}
    assert(core[t2] == TAB);
    assert forall|j: int| 0 <= j < n2 implies #[trigger] core[t2 + 1 + j] == d2[j] by {}
    assert(core[t3] == TAB);
    assert forall|j: int| 0 <= j < n3 implies #[trigger] core[t3 + 1 + j] == d3[j] by {}
    assert(core[t4] == TAB);
    assert forall|j: int| 0 <= j < n4 implies #[trigger] core[t4 + 1 + j] == d4[j] by {}
    assert forall|j: int| 0 <= j < t1 implies core[j] != TAB by {
        assert(core[j] == v.name[j]);
    }
    lemma_find_byte_is(core, 0, TAB, t1);
    assert forall|j: int| t1 + 1 <= j < t2 implies core[j] != TAB by {
        assert(core[j] == d1[j - (t1 + 1)]);
        assert(is_digit(d1[j - (t1 + 1)]));
    }
    lemma_find_byte_is(core, t1 + 1, TAB, t2);
    assert forall|j: int| t2 + 1 <= j < t3 implies core[j] != TAB by {
        assert(core[j] == d2[j - (t2 + 1)]);
        assert(is_digit(d2[j - (t2 + 1)]));
    }
    lemma_find_byte_is(core, t2 + 1, TAB, t3);
    assert forall|j: int| t3 + 1 <= j < t4 implies core[j] != TAB by {
        assert(core[j] == d3[j - (t3 + 1)]);
        assert(is_digit(d3[j - (t3 + 1)]));
    }
    lemma_find_byte_is(core, t3 + 1, TAB, t4);
    assert forall|j: int| t4 + 1 <= j < core.len() implies core[j] != TAB by {
        assert(core[j] == d4[j - (t4 + 1)]);
        assert(is_digit(d4[j - (t4 + 1)]));
    }
    lemma_find_byte_is(core, t4 + 1, TAB, core.len() as int);
    assert(core.subrange(0, t1) =~= v.name);
    assert(core.subrange(t1 + 1, t2) =~= d1);
    assert(core.subrange(t2 + 1, t3) =~= d2);
    assert(core.subrange(t3 + 1, t4) =~= d3);
    assert(core.subrange(t4 + 1, core.len() as int) =~= d4);
    assert(num_field_ok(d1));
    assert(num_field_ok(d2));
    assert(num_field_ok(d3));
    assert(num_field_ok(d4));
    assert(parse_row(core) matches Some(w) && w =~= v);
    assert forall|j: int| 0 <= j < core.len() implies #[trigger] core[j] != NL by {
        if j < t1 {
            assert(core[j] == v.name[j]);
        } else if j == t1 || j == t2 || j == t3 || j == t4 {
        } else if j < t2 {
            assert(is_digit(d1[j - (t1 + 1)]));
        } else if j < t3 {
            assert(is_digit(d2[j - (t2 + 1)]));
        } else if j < t4 {
            assert(is_digit(d3[j - (t3 + 1)]));
        } else {
            assert(is_digit(d4[j - (t4 + 1)]));
        }
    }
}

/// Rows folded into an accumulator, front to back, each by `upsert`.
pub open spec fn fold_upserts(
    acc: Seq<IndexRecordView>,
    recs: Seq<IndexRecordView>,
) -> Seq<IndexRecordView>
    decreases recs.len(),
{
    if recs.len() == 0 {
        acc
    } else {
        fold_upserts(upsert(acc, recs[0]), recs.skip(1))
    }
}

/// Parsing serialized rows replays them onto the accumulator.
proof fn lemma_parse_fold_of_text(
    full: Seq<u8>,
    i: int,
    recs: Seq<IndexRecordView>,
    acc: Seq<IndexRecordView>,
    row_no: int,
)
    requires
        0 <= i <= full.len(),
        full.subrange(i, full.len() as int) == sidecar_text(recs),
        forall|r: int|
            0 <= r < recs.len() ==> (#[trigger] recs[r]).wf() && fields_fit(recs[r]) && name_ok(
                recs[r].name,
            ),
    ensures
        parse_fold_at(full, i, acc, row_no) == Ok::<Seq<IndexRecordView>, int>(
            fold_upserts(acc, recs),
        ),
    decreases recs.len(),
{
    if recs.len() == 0 {
        assert(full.subrange(i, full.len() as int).len() == 0);
    } else {
        let v = recs[0];
        lemma_parse_row_core(v);
        let core = sidecar_row_core(v);
        let cl = core.len() as int;
        let text = sidecar_text(recs);
        assert(text == (core + seq![NL]) + sidecar_text(recs.skip(1)));
        assert forall|j: int| 0 <= j < text.len() implies #[trigger] full[i + j] == text[j] by {
            assert(full.subrange(i, full.len() as int)[j] == full[i + j]);
        }
        assert(i + text.len() == full.len());
        assert forall|j: int| i <= j < i + cl implies full[j] != NL by {
            assert(full[j] == text[j - i]);
            assert(text[j - i] == core[j - i]);
        }
        assert(full[i + cl] == text[cl]);
        assert(text[cl] == NL);
        lemma_find_byte_is(full, i, NL, i + cl);
        let e = i + cl;
        assert(full.subrange(i, e) =~= core) by {
            assert(forall|j: int| 0 <= j < cl ==> #[trigger] full.subrange(i, e)[j] == full[i + j]);
        }
        assert(parse_row(full.subrange(i, e)) == Some(v));
        assert(e < full.len());
        let next = e + 1;
        assert(full.subrange(next, full.len() as int) =~= sidecar_text(recs.skip(1))) by {
            assert(forall|j: int|
                0 <= j < full.len() - next ==> #[trigger] full.subrange(next, full.len() as int)[j]
                    == full[next + j]);
            assert(forall|j: int|
                0 <= j < sidecar_text(recs.skip(1)).len() ==> text[cl + 1 + j]
                    == #[trigger] sidecar_text(recs.skip(1))[j]);
        }
        assert forall|r: int|
            0 <= r < recs.skip(1).len() implies (#[trigger] recs.skip(1)[r]).wf() && fields_fit(
            recs.skip(1)[r],
        ) && name_ok(recs.skip(1)[r].name) by {
            assert(recs.skip(1)[r] == recs[r + 1]);
        }
        lemma_parse_fold_of_text(full, next, recs.skip(1), upsert(acc, v), row_no + 1);
    }
}

/// Replaying rows with fresh, pairwise distinct names onto an
/// accumulator appends them in order.
proof fn lemma_fold_upserts_appends(acc: Seq<IndexRecordView>, recs: Seq<IndexRecordView>)
    requires
        forall|r: int| 0 <= r < recs.len() ==> !has_name(acc, (#[trigger] recs[r]).name),
        forall|r: int, s: int|
            0 <= r < s < recs.len() ==> (#[trigger] recs[r]).name != (#[trigger] recs[s]).name,
    ensures
        fold_upserts(acc, recs) == acc + recs,
    decreases recs.len(),
{
    if recs.len() == 0 {
        assert(acc + recs =~= acc);
    } else {
        let v = recs[0];
        assert(upsert(acc, v) == acc.push(v));
        let acc1 = acc.push(v);
        let rest = recs.skip(1);
        assert forall|r: int| 0 <= r < rest.len() implies !has_name(
            acc1,
            (#[trigger] rest[r]).name,
        ) by {
            assert(rest[r] == recs[r + 1]);
            crate::store::lemma_name_idx(acc1, rest[r].name);
            if has_name(acc1, rest[r].name) {
                let ix = crate::store::name_idx(acc1, rest[r].name);
                assert(acc1[ix].name == rest[r].name);
                if ix < acc.len() {
                    assert(acc1[ix] == acc[ix]);
                    crate::store::lemma_name_idx(acc, rest[r].name);
                } else {
                    assert(acc1[ix] == v);
                }
            }
        }
        assert forall|r: int, s: int|
            0 <= r < s < rest.len() implies (#[trigger] rest[r]).name != (
        #[trigger] rest[s]).name by {
            assert(rest[r] == recs[r + 1]);
            assert(rest[s] == recs[s + 1]);
        }
        lemma_fold_upserts_appends(acc1, rest);
        assert(acc1 + rest =~= acc + recs);
    }
}

/// Round trip of the sidecar table: parsing the serialized index yields
/// exactly the rows that were serialized, in order.  The scanner only
/// produces rows this holds of: well formed, with `u64` fields, pairwise
/// distinct names, and names free of whitespace.
pub proof fn lemma_sidecar_round_trip(recs: Seq<IndexRecordView>)
    requires
        forall|r: int|
            0 <= r < recs.len() ==> (#[trigger] recs[r]).wf() && fields_fit(recs[r]) && name_ok(
                recs[r].name,
            ),
        forall|r: int, s: int|
            0 <= r < s < recs.len() ==> (#[trigger] recs[r]).name != (#[trigger] recs[s]).name,
    ensures
        parse_sidecar_spec(sidecar_text(recs)) == Ok::<Seq<IndexRecordView>, int>(recs),
{
    let text = sidecar_text(recs);
    assert(text.subrange(0, text.len() as int) =~= text);
    assert forall|r: int| 0 <= r < recs.len() implies !has_name(
        Seq::<IndexRecordView>::empty(),
        (#[trigger] recs[r]).name,
    ) by {
        crate::store::lemma_name_idx(Seq::<IndexRecordView>::empty(), recs[r].name);
    }
    lemma_parse_fold_of_text(text, 0, recs, Seq::<IndexRecordView>::empty(), 1);
    lemma_fold_upserts_appends(Seq::<IndexRecordView>::empty(), recs);
    assert(Seq::<IndexRecordView>::empty() + recs =~= recs);
}

} // verus!
