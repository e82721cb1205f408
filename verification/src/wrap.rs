use vstd::prelude::*;

verus! {

/// Line terminator used by all FASTA text this library produces.
pub const NL: u8 = 10;

/// Header marker of a FASTA record.
pub const GT: u8 = 62;

/// `s` cut into `w`-base lines, a terminator after every line except the
/// last; the last line keeps whatever remainder is left (possibly all of
/// `s` when it is no longer than `w`).
pub open spec fn wrapped_lines(s: Seq<u8>, w: int) -> Seq<u8>
    recommends
        w > 0,
    decreases s.len(),
{
    if w <= 0 || s.len() <= w {
        s
    } else {
        s.take(w) + seq![NL] + wrapped_lines(s.skip(w), w)
    }
}

/// `s` cut into `w`-base lines with a terminator after every full line,
/// including a final full line; a shorter final remainder gets none.
pub open spec fn wrapped_lines_nl(s: Seq<u8>, w: int) -> Seq<u8>
    recommends
        w > 0,
    decreases s.len(),
{
    if w <= 0 || s.len() < w {
        s
    } else if s.len() == w {
        s + seq![NL]
    } else {
        s.take(w) + seq![NL] + wrapped_lines_nl(s.skip(w), w)
    }
}

/// A full FASTA record as text: `>` marker, the id, a terminator, the
/// sequence (wrapped at `w` bases when `w > 0`, flat when `w == 0`), and a
/// final terminator.
pub open spec fn record_text(id: Seq<u8>, seq: Seq<u8>, w: int) -> Seq<u8> {
    seq![GT] + id + seq![NL] + (if w == 0 {
        seq
    } else {
        wrapped_lines(seq, w)
    }) + seq![NL]
}

/// Appends all of `chunk` to `out`.
pub(crate) fn push_bytes(out: &mut Vec<u8>, chunk: &[u8])
    ensures
        final(out)@ == old(out)@ + chunk@,
{
    out.extend_from_slice(chunk);
    assert(out@ =~= old(out)@ + chunk@);
}

/// Wraps a sequence at `line_width` bases per line, with a terminator
/// after each full line (also after a final full line).
pub fn wrap_fasta(seq_slice: &[u8], line_width: usize) -> (r: Vec<u8>)
    requires
        line_width > 0,
    ensures
        r@ == wrapped_lines_nl(seq_slice@, line_width as int),
{
    let mut out: Vec<u8> = Vec::new();
    let mut i: usize = 0;
    proof {
        assert(seq_slice@.skip(0) =~= seq_slice@);
        assert(out@ + wrapped_lines_nl(seq_slice@, line_width as int) =~= wrapped_lines_nl(
            seq_slice@,
            line_width as int,
        ));
    }
    while seq_slice.len() - i >= line_width
        invariant
            line_width > 0,
            i <= seq_slice.len(),
            wrapped_lines_nl(seq_slice@, line_width as int) == out@ + wrapped_lines_nl(
                seq_slice@.skip(i as int),
                line_width as int,
            ),
        decreases seq_slice.len() - i,
    {
        let ghost pre = seq_slice@.skip(i as int);
        push_bytes(&mut out, &seq_slice[i..i + line_width]);
        out.push(NL);
        proof {
            assert(pre.take(line_width as int) =~= seq_slice@.subrange(
                i as int,
                i + line_width,
            ));
            assert(pre.skip(line_width as int) =~= seq_slice@.skip(i + line_width as int));
            if pre.len() == line_width as int {
                assert(pre + seq![NL] =~= pre.take(line_width as int) + seq![NL]);
                assert(seq_slice@.skip(i + line_width as int) =~= Seq::<u8>::empty());
                assert(wrapped_lines_nl(seq_slice@.skip(i + line_width as int),
                    line_width as int) =~= Seq::<u8>::empty());
            }
        }
        i = i + line_width;
    }
    let ghost tail = seq_slice@.skip(i as int);
    push_bytes(&mut out, &seq_slice[i..seq_slice.len()]);
    proof {
        assert(tail =~= seq_slice@.subrange(i as int, seq_slice@.len() as int));
        assert(wrapped_lines_nl(tail, line_width as int) == tail);
    }
    out
}

/// Wraps a sequence at `line_width` bases per line, with a terminator
/// after every line but the last.
pub fn line_wrap(seq_slice: &[u8], line_width: usize) -> (r: Vec<u8>)
    requires
        line_width > 0,
    ensures
        r@ == wrapped_lines(seq_slice@, line_width as int),
{
    let mut out: Vec<u8> = Vec::new();
    let mut i: usize = 0;
    proof {
        assert(seq_slice@.skip(0) =~= seq_slice@);
        assert(out@ + wrapped_lines(seq_slice@, line_width as int) =~= wrapped_lines(
            seq_slice@,
            line_width as int,
        ));
    }
    while seq_slice.len() - i > line_width
        invariant
            line_width > 0,
            i <= seq_slice.len(),
            wrapped_lines(seq_slice@, line_width as int) == out@ + wrapped_lines(
                seq_slice@.skip(i as int),
                line_width as int,
            ),
        decreases seq_slice.len() - i,
    {
        let ghost pre = seq_slice@.skip(i as int);
        push_bytes(&mut out, &seq_slice[i..i + line_width]);
        out.push(NL);
        proof {
            assert(pre.take(line_width as int) =~= seq_slice@.subrange(
                i as int,
                i + line_width,
            ));
            assert(pre.skip(line_width as int) =~= seq_slice@.skip(i + line_width as int));
        }
        i = i + line_width;
    }
    let ghost tail = seq_slice@.skip(i as int);
    push_bytes(&mut out, &seq_slice[i..seq_slice.len()]);
    proof {
        assert(tail =~= seq_slice@.subrange(i as int, seq_slice@.len() as int));
        assert(wrapped_lines(tail, line_width as int) == tail);
    }
    out
}

/// Produces one FASTA record as bytes: header line for `id`, then `seq`
/// wrapped at `line_width` bases (flat when `line_width` is zero), then a
/// final terminator.
pub fn write_record(id: &[u8], seq: &[u8], line_width: usize) -> (r: Vec<u8>)
    ensures
        r@ == record_text(id@, seq@, line_width as int),
{
    let mut out: Vec<u8> = Vec::new();
    out.push(GT);
    push_bytes(&mut out, id);
    out.push(NL);
    if line_width == 0 {
        push_bytes(&mut out, seq);
    } else {
        let mut body = line_wrap(seq, line_width);
        out.append(&mut body);
    }
    out.push(NL);
    proof {
        assert(out@ =~= record_text(id@, seq@, line_width as int));
    }
    out
}

} // verus!
