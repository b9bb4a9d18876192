//! Radial histogram of minimum-image pair distances between two groups.
use vstd::prelude::*;
use crate::fixed::MAX_LENGTH;
use crate::periodic::{pair_dist2, BoundaryError, PeriodicBox, Point};

verus! {

/// Shortest extent of the cell.
pub open spec fn min_extent(bx: PeriodicBox) -> int {
    let m = if bx.x <= bx.y { bx.x as int } else { bx.y as int };
    if m <= bx.z { m } else { bx.z as int }
}

/// Number of bins: `ceil(2 * min_extent / bin_width)`.
pub open spec fn num_bins_spec(bx: PeriodicBox, dr: int) -> int {
    (2 * min_extent(bx) + dr - 1) / dr
}

/// A squared distance `d2` lies in bin `j`, the shell `[j * dr, (j + 1) * dr)`.
pub open spec fn in_bin(d2: int, dr: int, j: int) -> bool {
    (j * dr) * (j * dr) <= d2 < ((j + 1) * dr) * ((j + 1) * dr)
}

/// Why the pair `(a, b)` cannot be binned, if it cannot.
pub open spec fn pair_error(bx: PeriodicBox, dr: int, a: Point, b: Point) -> Option<BoundaryError> {
    match pair_dist2(bx, a, b) {
        None => Some(BoundaryError::DisplacementOutOfRange),
        Some(d2) => {
            let top = num_bins_spec(bx, dr) * dr;
            if d2 >= top * top {
                Some(BoundaryError::BinOutOfRange)
            } else {
                None
            }
        },
    }
}

/// The first failing pair of `a` against `bs`, in order.
pub open spec fn row_error(bx: PeriodicBox, dr: int, a: Point, bs: Seq<Point>) -> Option<BoundaryError>
    decreases bs.len(),
{
    if bs.len() == 0 {
        None
    } else {
        match row_error(bx, dr, a, bs.drop_last()) {
            Some(e) => Some(e),
            None => pair_error(bx, dr, a, bs.last()),
        }
    }
}

/// The first failing pair of the cross product, `as` outer and `bs` inner.
pub open spec fn first_error(bx: PeriodicBox, dr: int, as_: Seq<Point>, bs: Seq<Point>) -> Option<
    BoundaryError,
>
    decreases as_.len(),
{
    if as_.len() == 0 {
        None
    } else {
        match first_error(bx, dr, as_.drop_last(), bs) {
            Some(e) => Some(e),
            None => row_error(bx, dr, as_.last(), bs),
        }
    }
}

/// Number of `b` in `bs` whose distance to `a` falls in bin `j`.
pub open spec fn row_count(bx: PeriodicBox, dr: int, a: Point, bs: Seq<Point>, j: int) -> int
    decreases bs.len(),
{
    if bs.len() == 0 {
        0
    } else {
        row_count(bx, dr, a, bs.drop_last(), j) + match pair_dist2(bx, a, bs.last()) {
            Some(d2) => if in_bin(d2, dr, j) { 1int } else { 0int },
            None => 0int,
        }
    }
}

/// Number of pairs of the cross product whose distance falls in bin `j`.
pub open spec fn pair_count(bx: PeriodicBox, dr: int, as_: Seq<Point>, bs: Seq<Point>, j: int) -> int
    decreases as_.len(),
{
    if as_.len() == 0 {
        0
    } else {
        pair_count(bx, dr, as_.drop_last(), bs, j) + row_count(bx, dr, as_.last(), bs, j)
    }
}

/// Sum of a sequence of counts.
pub open spec fn total(s: Seq<u64>) -> int
    decreases s.len(),
{
    if s.len() == 0 {
        0
    } else {
        total(s.drop_last()) + s.last()
    }
}

/// Volume of shell `j` in units of `(4/3) * pi * bin_width^3`.
pub open spec fn shell_units_spec(j: int) -> int {
    (j + 1) * (j + 1) * (j + 1) - j * j * j
}

pub open spec fn points_wf(s: Seq<Point>) -> bool {
    forall|i: int| 0 <= i < s.len() ==> (#[trigger] s[i]).wf()
}

/// `r` is the outcome of binning the cross product of `as_` and `bs`: the
/// first failing pair's reason, or per-shell pair counts that add up to the
/// number of pairs.
pub open spec fn is_histogram_of(
    r: Result<Histogram, BoundaryError>,
    bx: PeriodicBox,
    dr: int,
    as_: Seq<Point>,
    bs: Seq<Point>,
) -> bool {
    match r {
        Ok(h) => {
            &&& first_error(bx, dr, as_, bs) is None
            &&& h.bin_width == dr
            &&& h.counts@.len() == num_bins_spec(bx, dr)
            &&& forall|j: int|
                0 <= j < h.counts@.len() ==> h.counts@[j] == pair_count(bx, dr, as_, bs, j)
            &&& total(h.counts@) == as_.len() * bs.len()
        },
        Err(e) => first_error(bx, dr, as_, bs) == Some(e),
    }
}

/// Total volume of the first `n` shells, in units of `(4/3) * pi * bin_width^3`.
pub open spec fn shells_total(n: nat) -> int
    decreases n,
{
    if n == 0 {
        0
    } else {
        shells_total((n - 1) as nat) + shell_units_spec(n - 1)
    }
}

/// Shell volumes grow strictly with the bin index, and the first `n` shells
/// fill the ball of radius `n * bin_width`: they add up to `n^3`.
pub proof fn lemma_shell_volumes(j: int, n: nat)
    requires
        0 <= j,
    ensures
        0 < shell_units_spec(j) < shell_units_spec(j + 1),
        shells_total(n) == n * n * n,
    decreases n,
{
    assert(0 < shell_units_spec(j) < shell_units_spec(j + 1)) by (nonlinear_arith)
        requires
            0 <= j,
    ;
    if n > 0 {
        lemma_shell_volumes(j, (n - 1) as nat);
        let m = n - 1;
        let u = shell_units_spec(m);
        let p = (n - 1) as nat;
        assert(shells_total(n) == shells_total(p) + u);
        assert(shells_total(p) == m * m * m);
        assert(m * m * m + u == n * n * n) by (nonlinear_arith)
            requires
                m == n - 1,
                u == (m + 1) * (m + 1) * (m + 1) - m * m * m,
        ;
        assert(shells_total(n) == n * n * n);
    } else {
        assert(n * n * n == 0) by (nonlinear_arith)
            requires
                n == 0,
        ;
    }
}

/// Binning is a function of its inputs: two outcomes for the same groups,
/// cell and bin width agree, on success and on failure.
pub proof fn lemma_compute_deterministic(
    r1: Result<Histogram, BoundaryError>,
    r2: Result<Histogram, BoundaryError>,
    bx: PeriodicBox,
    dr: int,
    as_: Seq<Point>,
    bs: Seq<Point>,
)
    requires
        is_histogram_of(r1, bx, dr, as_, bs),
        is_histogram_of(r2, bx, dr, as_, bs),
    ensures
        r1 is Ok <==> r2 is Ok,
        r1 is Ok ==> r1->Ok_0.bin_width == r2->Ok_0.bin_width && r1->Ok_0.counts@ == r2->Ok_0.counts@,
        r1 is Err ==> r1->Err_0 == r2->Err_0,
{
    if r1 is Ok && r2 is Ok {
        assert(r1->Ok_0.counts@ =~= r2->Ok_0.counts@);
    }
}

/// Raw pair counts per radial shell.
pub struct Histogram {
    /// Shell thickness, in fixed-point length units.
    pub bin_width: i64,
    /// `counts[j]` pairs lie in `[j * bin_width, (j + 1) * bin_width)`.
    pub counts: Vec<u64>,
}

proof fn lemma_square_mono(a: int, b: int)
    requires
        0 <= a <= b,
    ensures
        a * a <= b * b,
{
    assert(a * a <= b * b) by (nonlinear_arith)
        requires
            0 <= a <= b,
    ;
}

proof fn lemma_scaled_square_mono(j: int, k: int, dr: int)
    requires
        0 <= j <= k,
        dr > 0,
    ensures
        (j * dr) * (j * dr) <= (k * dr) * (k * dr),
{
    assert(j * dr <= k * dr) by (nonlinear_arith)
        requires
            0 <= j <= k,
            dr > 0,
    ;
    assert(0 <= j * dr) by (nonlinear_arith)
        requires
            0 <= j,
            dr > 0,
    ;
    lemma_square_mono(j * dr, k * dr);
}

/// A squared distance lies in at most one bin.
pub proof fn lemma_bin_unique(d2: int, dr: int, j: int, k: int)
    requires
        dr > 0,
        0 <= j,
        0 <= k,
        in_bin(d2, dr, j),
        in_bin(d2, dr, k),
    ensures
        j == k,
{
    if j < k {
        lemma_scaled_square_mono(j + 1, k, dr);
    } else if k < j {
        lemma_scaled_square_mono(k + 1, j, dr);
    }
}

proof fn lemma_total_update(s: Seq<u64>, b: int)
    requires
        0 <= b < s.len(),
        s[b] < u64::MAX,
    ensures
        total(s.update(b, (s[b] + 1) as u64)) == total(s) + 1,
    decreases s.len(),
{
    let t = s.update(b, (s[b] + 1) as u64);
    if b == s.len() - 1 {
        assert(t.drop_last() =~= s.drop_last());
    } else {
        lemma_total_update(s.drop_last(), b);
        assert(t.drop_last() =~= s.drop_last().update(b, (s[b] + 1) as u64));
    }
}

proof fn lemma_total_bound(s: Seq<u64>, b: int)
    requires
        0 <= b < s.len(),
    ensures
        s[b] <= total(s),
        0 <= total(s),
    decreases s.len(),
{
    lemma_total_nonneg(s.drop_last());
    if b < s.len() - 1 {
        lemma_total_bound(s.drop_last(), b);
    }
}

proof fn lemma_total_nonneg(s: Seq<u64>)
    ensures
        0 <= total(s),
    decreases s.len(),
{
    if s.len() > 0 {
        lemma_total_nonneg(s.drop_last());
    }
}

proof fn lemma_total_zeros(s: Seq<u64>)
    requires
        forall|i: int| 0 <= i < s.len() ==> s[i] == 0,
    ensures
        total(s) == 0,
    decreases s.len(),
{
    if s.len() > 0 {
        lemma_total_zeros(s.drop_last());
    }
}

proof fn lemma_row_error_prefix(bx: PeriodicBox, dr: int, a: Point, bs: Seq<Point>, m: int)
    requires
        0 <= m <= bs.len(),
        row_error(bx, dr, a, bs.take(m)) is Some,
    ensures
        row_error(bx, dr, a, bs) == row_error(bx, dr, a, bs.take(m)),
    decreases bs.len() - m,
{
    if m == bs.len() {
        assert(bs.take(m) =~= bs);
    } else {
        assert(bs.take(m + 1).drop_last() =~= bs.take(m));
        lemma_row_error_prefix(bx, dr, a, bs, m + 1);
    }
}

proof fn lemma_first_error_prefix(bx: PeriodicBox, dr: int, as_: Seq<Point>, bs: Seq<Point>, m: int)
    requires
        0 <= m <= as_.len(),
        first_error(bx, dr, as_.take(m), bs) is Some,
    ensures
        first_error(bx, dr, as_, bs) == first_error(bx, dr, as_.take(m), bs),
    decreases as_.len() - m,
{
    if m == as_.len() {
        assert(as_.take(m) =~= as_);
    } else {
        assert(as_.take(m + 1).drop_last() =~= as_.take(m));
        lemma_first_error_prefix(bx, dr, as_, bs, m + 1);
    }
}

/// The bin of a squared distance below the last bin's outer radius.
fn find_bin(d2: u128, dr: i64, n: u64) -> (k: u64)
    requires
        0 < dr <= MAX_LENGTH,
        0 < n,
        n * dr <= 3 * MAX_LENGTH,
        (d2 as int) < (n * dr) * (n * dr),
    ensures
        k < n,
        in_bin(d2 as int, dr as int, k as int),
{
    let mut lo: u64 = 0;
    let mut hi: u64 = n;
    proof {
        assert((0 * dr) * (0 * dr) == 0) by (nonlinear_arith);
    }
    while hi - lo > 1
        invariant
            0 <= lo < hi <= n,
            0 < dr <= MAX_LENGTH,
            n * dr <= 3 * MAX_LENGTH,
            (lo * dr) * (lo * dr) <= d2,
            (d2 as int) < (hi * dr) * (hi * dr),
        decreases hi - lo,
    {
        let mid: u64 = lo + (hi - lo) / 2;
        proof {
            assert(mid * dr <= n * dr) by (nonlinear_arith)
                requires
                    mid <= n,
                    dr > 0,
            ;
            assert(0 <= mid * dr) by (nonlinear_arith)
                requires
                    0 <= mid,
                    dr > 0,
            ;
        }
        let r: u128 = mid as u128 * dr as u128;
        proof {
            lemma_square_mono(r as int, 3 * MAX_LENGTH);
            assert(3 * MAX_LENGTH == 3_000_000_000_000_000);
            assert(3_000_000_000_000_000int * 3_000_000_000_000_000int < u128::MAX);
        }
        if r * r <= d2 {
            lo = mid;
        } else {
            hi = mid;
        }
    }
    assert(hi == lo + 1);
    lo
}

impl Histogram {
    /// Number of bins.
    pub fn num_bins(&self) -> (r: usize)
        ensures
            r == self.counts@.len(),
    {
        self.counts.len()
    }

    /// Volume of shell `j` in units of `(4/3) * pi * bin_width^3`, that is
    /// `(j + 1)^3 - j^3`.
    pub fn shell_units(j: u64) -> (r: u128)
        requires
            j <= 2 * MAX_LENGTH,
        ensures
            r == shell_units_spec(j as int),
    {
        let k: u128 = j as u128;
        proof {
            assert(2 * MAX_LENGTH == 2_000_000_000_000_000);
            assert(3 * k * k + 3 * k + 1 <= 3 * 2_000_000_000_000_000int * 2_000_000_000_000_000int
                + 3 * 2_000_000_000_000_000int + 1) by (nonlinear_arith)
                requires
                    0 <= k <= 2_000_000_000_000_000int,
            ;
            assert(3 * 2_000_000_000_000_000int * 2_000_000_000_000_000int + 3
                * 2_000_000_000_000_000int + 1 < u128::MAX);
            let ji = j as int;
            assert(shell_units_spec(ji) == 3 * ji * ji + 3 * ji + 1) by (nonlinear_arith);
        }
        3 * k * k + 3 * k + 1
    }

    /// Volume of every shell, in units of `(4/3) * pi * bin_width^3`.
    pub fn shell_volumes(&self) -> (r: Vec<u128>)
        requires
            self.counts@.len() <= 2 * MAX_LENGTH,
        ensures
            r@.len() == self.counts@.len(),
            forall|j: int| 0 <= j < r@.len() ==> r@[j] == shell_units_spec(j),
    {
        let mut r: Vec<u128> = Vec::new();
        let n: usize = self.counts.len();
        let mut j: usize = 0;
        while j < n
            invariant
                n == self.counts@.len(),
                n <= 2 * MAX_LENGTH,
                j <= n,
                r@.len() == j,
                forall|i: int| 0 <= i < j ==> r@[i] == shell_units_spec(i),
            decreases n - j,
        {
            r.push(Histogram::shell_units(j as u64));
            j = j + 1;
        }
        r
    }

    /// Pair counts between `group_a` and `group_b` by minimum-image distance,
    /// in `ceil(2 * min_extent / bin_width)` shells of thickness `bin_width`.
    /// Every ordered pair is counted once. The first pair, `group_a` outer and
    /// `group_b` inner, that has no minimum image or lies past the last shell
    /// makes the whole computation fail with that reason.
    pub fn compute(group_a: &Vec<Point>, group_b: &Vec<Point>, bx: &PeriodicBox, bin_width: i64) -> (r:
        Result<Histogram, BoundaryError>)
        requires
            bx.wf(),
            0 < bin_width <= MAX_LENGTH,
            points_wf(group_a@),
            points_wf(group_b@),
            num_bins_spec(*bx, bin_width as int) <= usize::MAX,
            group_a@.len() * group_b@.len() <= u64::MAX,
        ensures
            is_histogram_of(r, *bx, bin_width as int, group_a@, group_b@),
    {
        let ghost dr = bin_width as int;
        let ghost as_ = group_a@;
        let ghost bs = group_b@;
        let m: i64 = if bx.x <= bx.y { bx.x } else { bx.y };
        let m: i64 = if m <= bx.z { m } else { bx.z };
        let n64: u64 = ((2 * m + bin_width - 1) / bin_width) as u64;
        proof {
            let x = 2 * m + bin_width - 1;
            vstd::arithmetic::div_mod::lemma_fundamental_div_mod(x as int, dr);
            vstd::arithmetic::div_mod::lemma_mod_pos_bound(x as int, dr);
            assert(n64 * dr <= x) by (nonlinear_arith)
                requires
                    x == dr * (x / dr) + x % dr,
                    0 <= x % dr,
                    n64 == x / dr,
            ;
            assert(n64 >= 1) by (nonlinear_arith)
                requires
                    x >= dr,
                    n64 == x / dr,
                    dr > 0,
            ;
            assert(n64 * dr >= 0) by (nonlinear_arith)
                requires
                    n64 >= 0,
                    dr > 0,
            ;
            lemma_square_mono(n64 * dr, 3 * MAX_LENGTH);
        }
        let n: usize = n64 as usize;
        let top: u128 = n64 as u128 * bin_width as u128;
        let limit: u128 = top * top;
        let mut counts: Vec<u64> = Vec::new();
        while counts.len() < n
            invariant
                counts@.len() <= n,
                forall|j: int| 0 <= j < counts@.len() ==> counts@[j] == 0,
            decreases n - counts@.len(),
        {
            counts.push(0);
        }
        proof {
            lemma_total_zeros(counts@);
            assert(as_.take(0) =~= Seq::<Point>::empty());
        }
        let mut i: usize = 0;
        while i < group_a.len()
            invariant
                as_ == group_a@,
                bs == group_b@,
                dr == bin_width,
                bx.wf(),
                0 < bin_width <= MAX_LENGTH,
                points_wf(as_),
                points_wf(bs),
                as_.len() * bs.len() <= u64::MAX,
                n == n64,
                n == num_bins_spec(*bx, dr),
                0 < n64,
                n64 * dr <= 3 * MAX_LENGTH,
                limit == (n64 * dr) * (n64 * dr),
                0 <= i <= as_.len(),
                counts@.len() == n,
                forall|j: int|
                    0 <= j < n ==> counts@[j] == pair_count(*bx, dr, as_.take(i as int), bs, j),
                first_error(*bx, dr, as_.take(i as int), bs) is None,
                total(counts@) == i * bs.len(),
            decreases as_.len() - i,
        {
            let a = &group_a[i];
            proof {
                assert(bs.take(0) =~= Seq::<Point>::empty());
                assert(as_.take(i + 1).drop_last() =~= as_.take(i as int));
                assert(as_[i as int].wf());
            }
            let mut k: usize = 0;
            while k < group_b.len()
                invariant
                    as_ == group_a@,
                    bs == group_b@,
                    dr == bin_width,
                    bx.wf(),
                    0 < bin_width <= MAX_LENGTH,
                    points_wf(bs),
                    a.wf(),
                    *a == as_[i as int],
                    0 <= i < as_.len(),
                    as_.len() * bs.len() <= u64::MAX,
                    n == n64,
                    n == num_bins_spec(*bx, dr),
                    0 < n64,
                    n64 * dr <= 3 * MAX_LENGTH,
                    limit == (n64 * dr) * (n64 * dr),
                    0 <= k <= bs.len(),
                    counts@.len() == n,
                    forall|j: int|
                        0 <= j < n ==> counts@[j] == pair_count(*bx, dr, as_.take(i as int), bs, j)
                            + row_count(*bx, dr, *a, bs.take(k as int), j),
                    first_error(*bx, dr, as_.take(i as int), bs) is None,
                    row_error(*bx, dr, *a, bs.take(k as int)) is None,
                    total(counts@) == i * bs.len() + k,
                decreases bs.len() - k,
            {
                let b = &group_b[k];
                proof {
                    assert(bs.take(k + 1).drop_last() =~= bs.take(k as int));
                    assert(bs.take(k + 1).last() == bs[k as int]);
                    assert(as_.take(i + 1).drop_last() =~= as_.take(i as int));
                    assert(as_.take(i + 1).last() == as_[i as int]);
                    assert(bs[k as int].wf());
                }
                let d2 = match bx.distance_sq(a, b) {
                    Ok(v) => v,
                    Err(e) => {
                        proof {
                            lemma_row_error_prefix(*bx, dr, *a, bs, k + 1);
                            lemma_first_error_prefix(*bx, dr, as_, bs, i + 1);
                        }
                        return Err(e);
                    },
                };
                if d2 >= limit {
                    proof {
                        lemma_row_error_prefix(*bx, dr, *a, bs, k + 1);
                        lemma_first_error_prefix(*bx, dr, as_, bs, i + 1);
                    }
                    return Err(BoundaryError::BinOutOfRange);
                }
                let bin = find_bin(d2, bin_width, n64);
                proof {
                    assert(i * bs.len() + k < as_.len() * bs.len()) by (nonlinear_arith)
                        requires
                            i < as_.len(),
                            k < bs.len(),
                    ;
                    lemma_total_bound(counts@, bin as int);
                    lemma_total_update(counts@, bin as int);
                }
                let c = counts[bin as usize];
                counts.set(bin as usize, c + 1);
                proof {
                    assert forall|j: int| 0 <= j < n implies counts@[j] == pair_count(
                        *bx,
                        dr,
                        as_.take(i as int),
                        bs,
                        j,
                    ) + row_count(*bx, dr, *a, bs.take(k + 1), j) by {
                        if in_bin(d2 as int, dr, j) {
                            lemma_bin_unique(d2 as int, dr, j, bin as int);
                        }
                    }
                }
                k = k + 1;
            }
            proof {
                assert(bs.take(bs.len() as int) =~= bs);
                assert((i + 1) * bs.len() == i * bs.len() + bs.len()) by (nonlinear_arith);
            }
            i = i + 1;
        }
        proof {
            assert(as_.take(as_.len() as int) =~= as_);
        }
        Ok(Histogram { bin_width, counts })
    }
}

} // verus!
