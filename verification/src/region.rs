use vstd::prelude::*;

use crate::errors::FakitError;
use crate::sidecar::{dec_val, find_byte, find_byte_from, num_field_ok, parse_u64};
use vstd::slice::slice_to_vec;

verus! {

/// Separator between the sequence name and the coordinate range.
pub const COLON: u8 = 58;

/// Separator between the two coordinates.
pub const DASH: u8 = 45;

/// One region to extract: a sequence name, and optionally a 1-based
/// inclusive coordinate range.
#[derive(Clone, Debug)]
pub struct RegionQuery {
    pub name: Vec<u8>,
    pub range: Option<(u64, u64)>,
}

/// The grammar of a region descriptor: `name` alone, or
/// `name:start-end` with decimal coordinates, split at the first `:` and
/// the first `-` after it.  `None` for a descriptor with a `:` but no
/// `-`, a non-numeric or oversized coordinate, or `start > end`.
pub open spec fn region_spec(s: Seq<u8>) -> Option<(Seq<u8>, Option<(u64, u64)>)> {
    let c = find_byte(s, 0, COLON);
    if c >= s.len() {
        Some((s, None::<(u64, u64)>))
    } else {
        let d = find_byte(s, c + 1, DASH);
        if d >= s.len() {
            None
        } else {
            let f1 = s.subrange(c + 1, d);
            let f2 = s.subrange(d + 1, s.len() as int);
            if num_field_ok(f1) && num_field_ok(f2) && dec_val(f1) <= dec_val(f2) {
                Some(
                    (
                        s.subrange(0, c),
                        Some((dec_val(f1) as u64, dec_val(f2) as u64)),
                    ),
                )
            } else {
                None
            }
        }
    }
}

/// Parses a region descriptor.  Succeeds exactly when the descriptor
/// matches the grammar; a malformed one fails with `MalformedRegion`,
/// which callers treat as skip-with-warning, never aborting the batch.
/// A range with `start > end` is malformed, never silently swapped.
pub fn parse_region(raw: &[u8]) -> (r: Result<RegionQuery, FakitError>)
    ensures
        r is Ok <==> region_spec(raw@) is Some,
        r matches Ok(q) ==> region_spec(raw@) matches Some(spec_q) && q.name@ == spec_q.0
            && q.range == spec_q.1,
        r is Err ==> r == Err::<RegionQuery, FakitError>(FakitError::MalformedRegion),
{
    let n = raw.len();
    let c = find_byte_from(raw, 0, COLON);
    if c >= n {
        return Ok(RegionQuery { name: slice_to_vec(raw), range: None });
    }
    let d = find_byte_from(raw, c + 1, DASH);
    if d >= n {
        return Err(FakitError::MalformedRegion);
    }
    let v1 = parse_u64(&raw[c + 1..d]);
    let v2 = parse_u64(&raw[d + 1..n]);
    match (v1, v2) {
        (Some(a), Some(b)) => {
            if a <= b {
                Ok(RegionQuery { name: slice_to_vec(&raw[0..c]), range: Some((a, b)) })
            } else {
                Err(FakitError::MalformedRegion)
            }
        },
        _ => Err(FakitError::MalformedRegion),
    }
}

} // verus!
