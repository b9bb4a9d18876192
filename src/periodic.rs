//! An orthorhombic simulation cell and the minimum-image convention.
use vstd::prelude::*;
use crate::fixed::{abs, in_range, sign, MAX_LENGTH};

verus! {

/// Why a periodic-boundary computation was refused.
#[derive(Debug, Clone, Copy, PartialEq, Eq, Structural)]
pub enum BoundaryError {
    /// A displacement component exceeds one and a half box lengths.
    DisplacementOutOfRange,
    /// A pair distance reaches past the last histogram bin.
    BinOutOfRange,
}

/// A point (or displacement) in fixed-point coordinates.
#[derive(Debug, Clone, Copy, PartialEq, Eq, Structural)]
pub struct Point {
    pub x: i64,
    pub y: i64,
    pub z: i64,
}

impl Point {
    pub open spec fn wf(self) -> bool {
        in_range(self.x as int) && in_range(self.y as int) && in_range(self.z as int)
    }

    pub fn new(x: i64, y: i64, z: i64) -> (r: Point)
        ensures
            r == (Point { x, y, z }),
    {
        Point { x, y, z }
    }
}

/// The cell: three positive extents along orthogonal axes.
#[derive(Debug, Clone, Copy, PartialEq, Eq, Structural)]
pub struct PeriodicBox {
    pub x: i64,
    pub y: i64,
    pub z: i64,
}

/// A valid extent: positive and within range.
pub open spec fn valid_extent(l: int) -> bool {
    0 < l <= MAX_LENGTH
}

/// The minimum image of one displacement component `d` in a cell of extent `l`:
/// unchanged within half an extent, wrapped once up to one and a half extents,
/// and undefined beyond.
pub open spec fn min_image(d: int, l: int) -> Option<int> {
    if 2 * abs(d) > 3 * l {
        None
    } else if 2 * abs(d) > l {
        Some(d - sign(d) * l)
    } else {
        Some(d)
    }
}

/// Component-wise minimum image of a displacement.
pub open spec fn min_image_point(b: PeriodicBox, d: (int, int, int)) -> Option<(int, int, int)> {
    match (min_image(d.0, b.x as int), min_image(d.1, b.y as int), min_image(d.2, b.z as int)) {
        (Some(x), Some(y), Some(z)) => Some((x, y, z)),
        _ => None,
    }
}

/// Squared length of the minimum image of `a - b`, if it exists.
pub open spec fn pair_dist2(bx: PeriodicBox, a: Point, b: Point) -> Option<int> {
    match min_image_point(bx, (a.x - b.x, a.y - b.y, a.z - b.z)) {
        Some(d) => Some(d.0 * d.0 + d.1 * d.1 + d.2 * d.2),
        None => None,
    }
}

/// The minimum-image rules for one component `d` on an axis of extent `l`:
/// within half an extent it is kept; beyond that and up to one and a half
/// extents it is wrapped once, by `sign(d) * l`, into half an extent of the
/// origin; further out there is no image.
pub proof fn lemma_min_image_law(d: int, l: int)
    requires
        l > 0,
    ensures
        2 * abs(d) <= l ==> min_image(d, l) == Some(d),
        l < 2 * abs(d) <= 3 * l ==> min_image(d, l) == Some(d - sign(d) * l) && 2 * abs(
            d - sign(d) * l,
        ) <= l,
        2 * abs(d) > 3 * l ==> min_image(d, l) is None,
{
}

/// Every image lies within half an extent of the origin.
pub proof fn lemma_min_image_bound(d: int, l: int)
    requires
        l > 0,
        min_image(d, l) is Some,
    ensures
        2 * abs(min_image(d, l)->0) <= l,
{
}

impl PeriodicBox {
    pub open spec fn wf(self) -> bool {
        valid_extent(self.x as int) && valid_extent(self.y as int) && valid_extent(self.z as int)
    }

    /// A cell with the given extents, if each is positive and within range.
    pub fn new(x: i64, y: i64, z: i64) -> (r: Option<PeriodicBox>)
        ensures
            r is Some <==> valid_extent(x as int) && valid_extent(y as int) && valid_extent(z as int),
            r is Some ==> r->0 == (PeriodicBox { x, y, z }),
    {
        if 0 < x && x <= MAX_LENGTH && 0 < y && y <= MAX_LENGTH && 0 < z && z <= MAX_LENGTH {
            Some(PeriodicBox { x, y, z })
        } else {
            None
        }
    }

    /// Minimum image of one component `coord` for an axis of extent `box_size`.
    pub fn periodic(coord: i64, box_size: i64) -> (r: Result<i64, BoundaryError>)
        requires
            valid_extent(box_size as int),
            -2 * MAX_LENGTH <= coord <= 2 * MAX_LENGTH,
        ensures
            match r {
                Ok(v) => min_image(coord as int, box_size as int) == Some(v as int),
                Err(e) => min_image(coord as int, box_size as int) is None
                    && e == BoundaryError::DisplacementOutOfRange,
            },
    {
        let a: i64 = if coord < 0 { -coord } else { coord };
        if 2 * a > 3 * box_size {
            Err(BoundaryError::DisplacementOutOfRange)
        } else if 2 * a > box_size {
            if coord < 0 { Ok(coord + box_size) } else { Ok(coord - box_size) }
        } else {
            Ok(coord)
        }
    }

    /// Minimum image of a displacement, axis by axis.
    pub fn periodic_correct(&self, d: Point) -> (r: Result<Point, BoundaryError>)
        requires
            self.wf(),
            -2 * MAX_LENGTH <= d.x <= 2 * MAX_LENGTH,
            -2 * MAX_LENGTH <= d.y <= 2 * MAX_LENGTH,
            -2 * MAX_LENGTH <= d.z <= 2 * MAX_LENGTH,
        ensures
            match r {
                Ok(p) => min_image_point(*self, (d.x as int, d.y as int, d.z as int))
                    == Some((p.x as int, p.y as int, p.z as int)),
                Err(e) => min_image_point(*self, (d.x as int, d.y as int, d.z as int)) is None
                    && e == BoundaryError::DisplacementOutOfRange,
            },
    {
        let x = PeriodicBox::periodic(d.x, self.x)?;
        let y = PeriodicBox::periodic(d.y, self.y)?;
        let z = PeriodicBox::periodic(d.z, self.z)?;
        Ok(Point { x, y, z })
    }

    /// Whether `p` lies strictly within half an extent of the origin on every axis.
    pub fn check_in_box(&self, p: Point) -> (r: bool)
        requires
            p.wf(),
        ensures
            r == (2 * abs(p.x as int) < self.x && 2 * abs(p.y as int) < self.y
                && 2 * abs(p.z as int) < self.z),
    {
        let ax: i64 = if p.x < 0 { -p.x } else { p.x };
        let ay: i64 = if p.y < 0 { -p.y } else { p.y };
        let az: i64 = if p.z < 0 { -p.z } else { p.z };
        2 * ax < self.x && 2 * ay < self.y && 2 * az < self.z
    }

    /// Squared length of the minimum image of `a - b`.
    pub fn distance_sq(&self, a: &Point, b: &Point) -> (r: Result<u128, BoundaryError>)
        requires
            self.wf(),
            a.wf(),
            b.wf(),
        ensures
            match r {
                Ok(v) => pair_dist2(*self, *a, *b) == Some(v as int),
                Err(e) => pair_dist2(*self, *a, *b) is None
                    && e == BoundaryError::DisplacementOutOfRange,
            },
    {
        let d = Point { x: a.x - b.x, y: a.y - b.y, z: a.z - b.z };
        let m = self.periodic_correct(d)?;
        proof {
            lemma_min_image_bound(d.x as int, self.x as int);
            lemma_min_image_bound(d.y as int, self.y as int);
            lemma_min_image_bound(d.z as int, self.z as int);
        }
        let dx: i128 = m.x as i128;
        let dy: i128 = m.y as i128;
        let dz: i128 = m.z as i128;
        assert(dx * dx <= MAX_LENGTH * MAX_LENGTH) by (nonlinear_arith)
            requires -MAX_LENGTH <= dx <= MAX_LENGTH;
        assert(dy * dy <= MAX_LENGTH * MAX_LENGTH) by (nonlinear_arith)
            requires -MAX_LENGTH <= dy <= MAX_LENGTH;
        assert(dz * dz <= MAX_LENGTH * MAX_LENGTH) by (nonlinear_arith)
            requires -MAX_LENGTH <= dz <= MAX_LENGTH;
        assert(dx * dx >= 0 && dy * dy >= 0 && dz * dz >= 0) by (nonlinear_arith);
        let s: i128 = dx * dx + dy * dy + dz * dz;
        Ok(s as u128)
    }
}

} // verus!
