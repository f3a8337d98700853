//! Resolution of a signed requested limit into the non-negative number of
//! units (lines or bytes) actually emitted from a source of known size.
use vstd::prelude::*;

verus! {

/// The number of units to emit for a signed request against a source holding
/// `total` units: a non-negative request takes the first `requested` units
/// (at most `total`); a negative request drops the last `|requested|` units,
/// never going below zero.
pub open spec fn spec_effective_count(requested: int, total: nat) -> nat {
    if requested >= 0 {
        if requested <= total {
            requested as nat
        } else {
            total
        }
    } else {
        if total + requested >= 0 {
            (total + requested) as nat
        } else {
            0
        }
    }
}

/// Magnitude of the most negative sixty-four bit integer, which has no
/// non-negative counterpart of the same width.
pub const I64_MIN_MAGNITUDE: u64 = 9223372036854775808;

/// Resolve a signed requested limit against the total unit count of a source.
pub fn effective_count(requested: i64, total: usize) -> (r: usize)
    ensures
        r == spec_effective_count(requested as int, total as nat),
        r <= total,
{
    if requested >= 0 {
        let req: u64 = requested as u64;
        let tot: u64 = total as u64;
        if req <= tot {
            requested as usize
        } else {
            total
        }
    } else {
        let mag: u64 = if requested == i64::MIN {
            I64_MIN_MAGNITUDE
        } else {
            (-requested) as u64
        };
        let tot: u64 = total as u64;
        if tot <= mag {
            0
        } else {
            (tot - mag) as usize
        }
    }
}

} // verus!
