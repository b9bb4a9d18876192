//! Radial distribution function of two particle populations under periodic
//! boundary conditions, on exact fixed-point coordinates.
//!
//! - [`fixed`]: lengths are integers in units of `1 / SCALE` of the
//!   trajectory's length unit, so every distance comparison is exact.
//! - [`periodic`]: the orthorhombic cell and the minimum-image convention.
//! - [`histogram`]: pair counts per spherical shell between two groups, and
//!   the shell volumes (in units of `(4/3) * pi * bin_width^3`) that turn
//!   counts into densities. Counts are not divided by the size of either
//!   group.
//! - [`text`]: whitespace tokens and the integer and real fields in them.
//! - [`trajectory`]: the trajectory header, frame-by-frame reading into a
//!   single current frame, and the split of a frame into groups by tag.
//!
//! Every failure is a typed error: a malformed or truncated frame, a
//! displacement beyond one and a half cell lengths, or a pair distance past
//! the last shell. Nothing is clamped or skipped.
use vstd::prelude::*;

pub mod fixed;
pub mod periodic;
pub mod histogram;
pub mod text;
pub mod trajectory;

verus! {

} // verus!
