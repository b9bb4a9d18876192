//! Fixed-point lengths and the bounds that keep all arithmetic exact.
use vstd::prelude::*;

verus! {

/// Number of decimal places kept for a length.
pub const FRAC_DIGITS: usize = 6;

/// A length `v` stands for `v / SCALE` trajectory units.
pub const SCALE: i64 = 1_000_000;

/// Largest magnitude of a length, in fixed-point units (a billion trajectory units).
pub const MAX_LENGTH: i64 = 1_000_000_000_000_000;

/// A length whose magnitude is within `MAX_LENGTH`.
pub open spec fn in_range(v: int) -> bool {
    -MAX_LENGTH <= v <= MAX_LENGTH
}

pub open spec fn abs(v: int) -> int {
    if v < 0 { -v } else { v }
}

pub open spec fn sign(v: int) -> int {
    if v < 0 { -1 } else if v > 0 { 1 } else { 0 }
}

} // verus!
