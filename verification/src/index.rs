use vstd::prelude::*;

verus! {

/// One row of the FASTA index: where one named sequence lives in the file.
///
/// `offset` is the byte offset, from the start of the file, of the first
/// base of the sequence (the byte right after the header line and its
/// terminator).  Every body line of the record except possibly the last
/// holds exactly `line_bases` bases and spans `line_width` bytes on disk
/// (`line_bases` plus one terminator byte).
#[derive(Clone, Debug)]
pub struct IndexRecord {
    pub name: Vec<u8>,
    pub sequence_length: u64,
    pub offset: u64,
    pub line_bases: u64,
    pub line_width: u64,
}

/// Mathematical model of an [`IndexRecord`].
#[verifier::ext_equal]
pub ghost struct IndexRecordView {
    pub name: Seq<u8>,
    pub sequence_length: int,
    pub offset: int,
    pub line_bases: int,
    pub line_width: int,
}

impl View for IndexRecord {
    type V = IndexRecordView;

    open spec fn view(&self) -> IndexRecordView {
        IndexRecordView {
            name: self.name@,
            sequence_length: self.sequence_length as int,
            offset: self.offset as int,
            line_bases: self.line_bases as int,
            line_width: self.line_width as int,
        }
    }
}

/// Byte position of base number `b` (0-based) of a record, relative to the
/// record's `offset`: full lines before it each span `line_width` bytes,
/// and it sits `b % line_bases` bytes into its own line.
pub open spec fn base_pos(line_bases: int, line_width: int, b: int) -> int
    recommends
        line_bases > 0,
{
    (b / line_bases) * line_width + b % line_bases
}

impl IndexRecordView {
    /// Relative byte position of this record's base `b` (0-based).
    pub open spec fn pos(self, b: int) -> int {
        base_pos(self.line_bases, self.line_width, b)
    }

    /// Bytes from the record's `offset` up to and including its last base.
    pub open spec fn byte_span(self) -> int {
        if self.sequence_length == 0 {
            0
        } else {
            self.pos(self.sequence_length - 1) + 1
        }
    }

    /// Well-formedness: the line metadata is internally consistent (a
    /// one-byte terminator per body line; an empty sequence carries zero
    /// line metadata) and every base of the record has a byte position
    /// that fits in a `u64` file offset.
    pub open spec fn wf(self) -> bool {
        &&& 0 <= self.sequence_length
        &&& 0 <= self.offset
        &&& if self.sequence_length == 0 {
            self.line_bases == 0 && self.line_width == 0
        } else {
            0 < self.line_bases && self.line_width == self.line_bases + 1
        }
        &&& self.offset + self.byte_span() <= u64::MAX
    }
}

impl IndexRecord {
    /// Decides [`IndexRecordView::wf`] for a concrete record; used when
    /// loading rows whose numbers come from an untrusted sidecar file.
    pub fn check_wf(&self) -> (r: bool)
        ensures
            r == self@.wf(),
    {
        if self.sequence_length == 0 {
            self.line_bases == 0 && self.line_width == 0
        } else {
            let b: u128 = (self.sequence_length - 1) as u128;
            let lb: u128 = self.line_bases as u128;
            let lw: u128 = self.line_width as u128;
            if self.line_bases > 0 && lw == lb + 1 {
                assert((b / lb) * lw <= (u64::MAX as u128) * (u64::MAX as u128)
                    && b / lb <= b) by (nonlinear_arith)
                    requires
                        1 <= lb,
                        b <= u64::MAX,
                        lw <= u64::MAX,
                ;
                let span: u128 = (b / lb) * lw + b % lb + 1;
                let ok = self.offset as u128 + span <= u64::MAX as u128;
                assert(span == self@.byte_span());
                ok
            } else {
                false
            }
        }
    }
}

} // verus!
