//! Empirical cumulative distribution over integer values, used to describe
//! and to sample flow sizes. Percentiles are carried in fixed point:
//! `PCT_FULL` units stand for 100%, so one unit is a ten-thousandth of a
//! percent. A curve is a sequence of `(value, percentile)` points, both
//! coordinates strictly increasing, ending exactly at 100%.

use vstd::prelude::*;

verus! {

use vstd::arithmetic::div_mod::{
    lemma_div_is_ordered,
    lemma_div_multiples_vanish,
    lemma_fundamental_div_mod,
    lemma_mod_bound,
    lemma_multiply_divide_le,
};
use vstd::relations::{sorted_by, total_ordering};
use vstd::seq_lib::group_to_multiset_ensures;

/// Fixed-point percentile units that stand for 100%.
pub const PCT_FULL: u64 = 1_000_000;

#[derive(Clone, Copy, Debug, PartialEq, Eq, Structural)]
pub enum EcdfError {
    InvalidEcdf,
    NoValues,
}

/// An empirical cumulative distribution: the curve points, `(value,
/// percentile)`, as validated by construction.
#[derive(Clone, Debug)]
pub struct Ecdf {
    pub points: Vec<(u64, u64)>,
}

/// Both coordinates grow strictly from point `i` to point `i + 1`.
pub open spec fn curve_step_ok(ps: Seq<(u64, u64)>, i: int) -> bool {
    ps[i].0 < ps[i + 1].0 && ps[i].1 < ps[i + 1].1
}

/// A valid curve: non-empty, values and percentiles strictly increasing
/// point to point, and the last percentile exactly 100%.
pub open spec fn spec_valid_curve(ps: Seq<(u64, u64)>) -> bool {
    &&& ps.len() >= 1
    &&& ps[ps.len() - 1].1 == PCT_FULL
    &&& forall|i: int| 0 <= i < ps.len() - 1 ==> #[trigger] curve_step_ok(ps, i)
}

/// Point-to-point strict increase extends to any two positions.
pub proof fn lemma_curve_monotone(ps: Seq<(u64, u64)>)
    requires
        forall|i: int| 0 <= i < ps.len() - 1 ==> #[trigger] curve_step_ok(ps, i),
    ensures
        forall|i: int, j: int|
            0 <= i < j < ps.len() ==> (#[trigger] ps[i]).0 < (#[trigger] ps[j]).0 && ps[i].1
                < ps[j].1,
{
    assert forall|i: int, j: int|
        0 <= i < j < ps.len() implies (#[trigger] ps[i]).0 < (#[trigger] ps[j]).0 && ps[i].1
        < ps[j].1 by {
        lemma_curve_monotone_step(ps, i, j);
    }
}

proof fn lemma_curve_monotone_step(ps: Seq<(u64, u64)>, i: int, j: int)
    requires
        forall|k: int| 0 <= k < ps.len() - 1 ==> #[trigger] curve_step_ok(ps, k),
        0 <= i < j < ps.len(),
    ensures
        ps[i].0 < ps[j].0,
        ps[i].1 < ps[j].1,
    decreases j - i,
{
    assert(curve_step_ok(ps, j - 1));
    if i + 1 < j {
        lemma_curve_monotone_step(ps, i, j - 1);
    }
}

impl Ecdf {
    /// The curve is valid; established by the constructors and preserved by
    /// every operation.
    pub open spec fn wf(self) -> bool {
        spec_valid_curve(self.points@)
    }

    /// Builds a distribution from an explicit curve. Succeeds exactly when
    /// the curve is valid: non-empty, values and percentiles strictly
    /// increasing, final percentile exactly 100%.
    #[verifier::rlimit(50)]
    pub fn from_ecdf(points: Vec<(u64, u64)>) -> (r: Result<Ecdf, EcdfError>)
        ensures
            (r is Ok) == spec_valid_curve(points@),
            r matches Ok(e) ==> e.points@ == points@ && e.wf(),
            r matches Err(x) ==> x == EcdfError::InvalidEcdf,
    {
        if points.len() == 0 {
            return Err(EcdfError::InvalidEcdf);
        }
        if points[points.len() - 1].1 != PCT_FULL {
            return Err(EcdfError::InvalidEcdf);
        }
        let mut i: usize = 1;
        while i < points.len()
            invariant
                1 <= i,
                i <= points@.len(),
                forall|k: int| 0 <= k < i - 1 ==> #[trigger] curve_step_ok(points@, k),
            decreases points@.len() - i,
        {
            if points[i].1 <= points[i - 1].1 || points[i].0 <= points[i - 1].0 {
                proof {
                    assert(!curve_step_ok(points@, i - 1));
                }
                return Err(EcdfError::InvalidEcdf);
            }
            proof {
                assert(curve_step_ok(points@, i - 1));
            }
            i = i + 1;
        }
        Ok(Ecdf { points })
    }
}

// ------------------------------------------------------------------
// Construction from raw samples.
// ------------------------------------------------------------------

pub open spec fn spec_sorted(s: Seq<u64>) -> bool {
    forall|i: int, j: int| 0 <= i <= j < s.len() ==> s[i] <= s[j]
}

pub open spec fn u64_le() -> spec_fn(u64, u64) -> bool {
    |x: u64, y: u64| x <= y
}

/// The ascending reordering of `s`.
pub open spec fn spec_sort(s: Seq<u64>) -> Seq<u64> {
    s.sort_by(u64_le())
}

/// The empirical percentile of `rank` out of `n` samples, in fixed point.
pub open spec fn spec_pct(rank: int, n: int) -> int {
    rank * (PCT_FULL as int) / n
}

/// The curve built from the first `k` of `n` sorted samples: sample `i`
/// gets percentile `(i+1)/n`, and runs of one value collapse to their last
/// member, so the later rank wins.
pub open spec fn spec_curve_upto(s: Seq<u64>, k: int) -> Seq<(u64, u64)>
    decreases k,
{
    if k <= 0 {
        Seq::empty()
    } else {
        let rest = spec_curve_upto(s, k - 1);
        if k == s.len() || s[k] != s[k - 1] {
            rest.push((s[k - 1], spec_pct(k, s.len() as int) as u64))
        } else {
            rest
        }
    }
}

/// The curve of a whole sorted sample sequence.
pub open spec fn spec_curve_of(s: Seq<u64>) -> Seq<(u64, u64)> {
    spec_curve_upto(s, s.len() as int)
}

/// With at most `PCT_FULL` samples, distinct ranks keep distinct
/// percentiles: the floor cannot collide because each rank step adds at
/// least one fixed-point unit.
proof fn lemma_pct_strict(r1: int, r2: int, n: int)
    requires
        1 <= n <= PCT_FULL,
        0 <= r1 < r2 <= n,
    ensures
        spec_pct(r1, n) < spec_pct(r2, n),
        0 <= spec_pct(r1, n),
        spec_pct(r2, n) <= PCT_FULL,
{
    let f = PCT_FULL as int;
    let q1 = spec_pct(r1, n);
    lemma_fundamental_div_mod(r1 * f, n);
    lemma_mod_bound(r1 * f, n);
    assert(r1 * f >= 0) by (nonlinear_arith)
        requires r1 >= 0 && f > 0;
    lemma_div_is_ordered(0, r1 * f, n);
    // r2 * f reaches the next multiple of n beyond n * q1.
    assert(r2 * f >= n * (q1 + 1)) by (nonlinear_arith)
        requires
            r1 * f == n * q1 + (r1 * f) % n,
            0 <= (r1 * f) % n < n,
            r2 >= r1 + 1,
            f >= n,
            n >= 1,
    ;
    lemma_div_is_ordered(n * (q1 + 1), r2 * f, n);
    lemma_div_multiples_vanish(q1 + 1, n);
    // And r2 <= n keeps the percentile at or below 100%.
    assert(r2 * f <= n * f) by (nonlinear_arith)
        requires r2 <= n && f >= 0;
    lemma_multiply_divide_le(r2 * f, n, f);
}

/// Shape of a partially built curve: coordinates strictly increase, the
/// last percentile is the percentile of some rank at most `k`, the last
/// value sits below the next unprocessed sample, and once every sample is
/// processed the curve is non-empty and ends exactly at 100%.
proof fn lemma_curve_upto_props(s: Seq<u64>, k: int)
    requires
        spec_sorted(s),
        1 <= s.len() <= PCT_FULL,
        0 <= k <= s.len(),
    ensures
        forall|i: int|
            0 <= i < spec_curve_upto(s, k).len() - 1 ==> #[trigger] curve_step_ok(
                spec_curve_upto(s, k),
                i,
            ),
        spec_curve_upto(s, k).len() > 0 && k < s.len() ==> spec_curve_upto(s, k).last().0 < s[k],
        spec_curve_upto(s, k).len() > 0 ==> exists|rk: int|
            1 <= rk <= k && spec_curve_upto(s, k).last().1 == spec_pct(rk, s.len() as int),
        k == s.len() ==> spec_curve_upto(s, k).len() > 0 && spec_curve_upto(s, k).last().1
            == PCT_FULL,
    decreases k,
{
    let n = s.len() as int;
    if k <= 0 {
    } else {
        lemma_curve_upto_props(s, k - 1);
        let rest = spec_curve_upto(s, k - 1);
        let c = spec_curve_upto(s, k);
        if k == s.len() || s[k] != s[k - 1] {
            let y = spec_pct(k, n);
            lemma_pct_strict(if k > 1 { k - 1 } else { 0 }, k, n);
            assert(c == rest.push((s[k - 1], y as u64)));
            if rest.len() > 0 {
                // The previous last value sits strictly below s[k - 1].
                assert(rest.last().0 < s[k - 1]);
                // The previous last percentile is that of a lower rank.
                let rk = choose|rk: int|
                    1 <= rk <= k - 1 && rest.last().1 == spec_pct(rk, n);
                lemma_pct_strict(rk, k, n);
                assert(rest.last().1 < y);
            }
            // Strict increase holds pairwise on the extended curve.
            assert forall|i: int| 0 <= i < c.len() - 1 implies #[trigger] curve_step_ok(c, i) by {
                if i < c.len() - 2 {
                    assert(curve_step_ok(rest, i));
                    assert(c[i] == rest[i] && c[i + 1] == rest[i + 1]);
                }
            }
            if k < s.len() {
                // The pushed value is the last of its run.
                assert(s[k - 1] <= s[k]);
            }
            if k == s.len() {
                assert(spec_pct(n, n) == PCT_FULL) by {
                    assert(n * (PCT_FULL as int) == (PCT_FULL as int) * n) by (nonlinear_arith);
                    lemma_div_multiples_vanish(PCT_FULL as int, n);
                }
            }
        } else {
            // Skipped: the run continues, s[k] == s[k - 1].
            assert(c == rest);
            if c.len() > 0 {
                assert(c.last().0 < s[k - 1]);
                assert(s[k - 1] == s[k]);
            }
        }
    }
}

/// Two ascending sequences holding the same values in the same quantities
/// are the same sequence.
pub proof fn lemma_sorted_unique(a: Seq<u64>, b: Seq<u64>)
    requires
        spec_sorted(a),
        spec_sorted(b),
        a.to_multiset() == b.to_multiset(),
    ensures
        a == b,
    decreases a.len(),
{
    broadcast use group_to_multiset_ensures;

    assert(a.len() == a.to_multiset().len());
    assert(b.len() == b.to_multiset().len());
    if a.len() == 0 {
        assert(a =~= b);
    } else {
        assert(a.contains(a[0]));
        assert(a.to_multiset().count(a[0]) > 0);
        assert(b.to_multiset().count(a[0]) > 0);
        assert(b.contains(a[0]));
        let jb = choose|j: int| 0 <= j < b.len() && b[j] == a[0];
        assert(b[0] <= b[jb]);
        assert(b.contains(b[0]));
        assert(b.to_multiset().count(b[0]) > 0);
        assert(a.to_multiset().count(b[0]) > 0);
        assert(a.contains(b[0]));
        let ja = choose|j: int| 0 <= j < a.len() && a[j] == b[0];
        assert(a[0] <= a[ja]);
        assert(a[0] == b[0]);
        let a1 = a.remove(0);
        let b1 = b.remove(0);
        assert(a1.to_multiset() =~= a.to_multiset().remove(a[0]));
        assert(b1.to_multiset() =~= b.to_multiset().remove(b[0]));
        assert(a1.to_multiset() == b1.to_multiset());
        assert(spec_sorted(a1)) by {
            assert(forall|i: int, j: int|
                0 <= i <= j < a1.len() ==> a1[i] == a[i + 1] && a1[j] == a[j + 1]);
        }
        assert(spec_sorted(b1)) by {
            assert(forall|i: int, j: int|
                0 <= i <= j < b1.len() ==> b1[i] == b[i + 1] && b1[j] == b[j + 1]);
        }
        lemma_sorted_unique(a1, b1);
        assert forall|k: int| 0 <= k < a.len() implies a[k] == b[k] by {
            if k > 0 {
                assert(a1[k - 1] == b1[k - 1]);
            }
        }
        assert(a =~= b);
    }
}

/// Relies on std's `sort_unstable` on a `u64` slice: afterwards the slice
/// is in ascending order and holds the same values in the same quantities
/// (a sort is a permutation; equal `u64` values are indistinguishable, so
/// instability is unobservable).
#[verifier::external_body]
fn sort_u64s(v: &mut Vec<u64>)
    ensures
        final(v)@.len() == old(v)@.len(),
        final(v)@.to_multiset() == old(v)@.to_multiset(),
        spec_sorted(final(v)@),
{
    v.sort_unstable();
}

/// Copies the values of `src`.
fn copy_u64s(src: &Vec<u64>) -> (r: Vec<u64>)
    ensures
        r@ == src@,
{
    let mut out: Vec<u64> = Vec::new();
    let mut i: usize = 0;
    while i < src.len()
        invariant
            i <= src@.len(),
            out@ == src@.take(i as int),
        decreases src@.len() - i,
    {
        out.push(src[i]);
        proof {
            assert(out@ =~= src@.take(i + 1));
        }
        i = i + 1;
    }
    proof {
        assert(out@ =~= src@);
    }
    out
}

impl Ecdf {
    /// Builds a distribution from raw samples: sort ascending, give sample
    /// `i` the percentile `(i+1)/n`, collapse runs of one value onto the
    /// last rank of the run, and validate. Fails on an empty sample set; a
    /// percentile collision, possible only beyond `PCT_FULL` samples, is
    /// reported as an invalid curve.
    pub fn from_values(values: &Vec<u64>) -> (r: Result<Ecdf, EcdfError>)
        ensures
            match r {
                Ok(e) => values@.len() > 0 && e.wf() && e.points@ == spec_curve_of(
                    spec_sort(values@),
                ),
                Err(EcdfError::NoValues) => values@.len() == 0,
                Err(EcdfError::InvalidEcdf) => values@.len() > PCT_FULL,
            },
    {
        if values.len() == 0 {
            return Err(EcdfError::NoValues);
        }
        let mut sorted = copy_u64s(values);
        sort_u64s(&mut sorted);
        proof {
            assert(total_ordering(u64_le()));
            values@.lemma_sort_by_ensures(u64_le());
            assert(spec_sorted(spec_sort(values@))) by {
                assert(sorted_by(spec_sort(values@), u64_le()));
                assert forall|i: int, j: int|
                    0 <= i <= j < spec_sort(values@).len() implies spec_sort(values@)[i]
                    <= spec_sort(values@)[j] by {
                    if i < j {
                        assert(u64_le()(spec_sort(values@)[i], spec_sort(values@)[j]));
                    }
                }
            }
            lemma_sorted_unique(sorted@, spec_sort(values@));
        }
        let n = sorted.len();
        let mut points: Vec<(u64, u64)> = Vec::new();
        let mut i: usize = 0;
        while i < n
            invariant
                i <= n,
                n == sorted@.len(),
                n >= 1,
                points@ == spec_curve_upto(sorted@, i as int),
            decreases n - i,
        {
            if i + 1 == n || sorted[i + 1] != sorted[i] {
                proof {
                    let f = PCT_FULL as int;
                    assert((i + 1) * f <= n * f && 0 <= (i + 1) * f) by (nonlinear_arith)
                        requires 0 <= i as int + 1 <= n as int && f >= 0;
                    lemma_multiply_divide_le((i + 1) * f, n as int, f);
                    lemma_div_is_ordered(0, (i + 1) * f, n as int);
                }
                let y = (((i as u128) + 1) * (PCT_FULL as u128) / (n as u128)) as u64;
                points.push((sorted[i], y));
                proof {
                    assert(points@ =~= spec_curve_upto(sorted@, i + 1));
                }
            } else {
                proof {
                    assert(points@ =~= spec_curve_upto(sorted@, i + 1));
                }
            }
            i = i + 1;
        }
        proof {
            if sorted@.len() <= PCT_FULL {
                lemma_curve_upto_props(sorted@, n as int);
                assert(spec_valid_curve(points@));
            }
        }
        match Ecdf::from_ecdf(points) {
            Ok(e) => Ok(e),
            Err(_) => Err(EcdfError::InvalidEcdf),
        }
    }
}

// ------------------------------------------------------------------
// Mean and sampling.
// ------------------------------------------------------------------

/// Twice the area under the inverse curve, in percentile units: the sum of
/// `(x_i + x_{i-1}) * (y_i - y_{i-1})` over successive points.
pub open spec fn spec_trap_sum(ps: Seq<(u64, u64)>) -> int
    decreases ps.len(),
{
    if ps.len() <= 1 {
        0
    } else {
        spec_trap_sum(ps.drop_last()) + (ps[ps.len() - 1].0 + ps[ps.len() - 2].0) * (ps[ps.len()
            - 1].1 - ps[ps.len() - 2].1)
    }
}

/// Index of the first point whose percentile is at least `y`.
pub open spec fn spec_first_ge(ps: Seq<(u64, u64)>, y: int) -> int
    decreases ps.len(),
{
    if ps.len() == 0 {
        0
    } else if ps[0].1 >= y {
        0
    } else {
        1 + spec_first_ge(ps.drop_first(), y)
    }
}

proof fn lemma_first_ge_props(ps: Seq<(u64, u64)>, y: int)
    requires
        ps.len() > 0,
        y <= ps[ps.len() - 1].1,
    ensures
        0 <= spec_first_ge(ps, y) < ps.len(),
        ps[spec_first_ge(ps, y)].1 >= y,
        forall|j: int| 0 <= j < spec_first_ge(ps, y) ==> (#[trigger] ps[j]).1 < y,
    decreases ps.len(),
{
    if ps[0].1 >= y {
    } else {
        let d = ps.drop_first();
        assert(ps.len() > 1);
        assert(d[d.len() - 1] == ps[ps.len() - 1]);
        lemma_first_ge_props(d, y);
        let i = spec_first_ge(ps, y);
        assert(ps[i] == d[i - 1]);
        assert forall|j: int| 0 <= j < i implies (#[trigger] ps[j]).1 < y by {
            if j > 0 {
                assert(ps[j] == d[j - 1]);
            }
        }
    }
}

impl Ecdf {
    /// The mean of the distribution: trapezoidal integration of the curve
    /// over percentile mass, divided by 100%.
    pub open spec fn spec_mean(self) -> int {
        spec_trap_sum(self.points@) / (2 * PCT_FULL as int)
    }

    /// Computes the mean by trapezoidal integration.
    pub fn mean(&self) -> (r: u64)
        requires
            self.wf(),
        ensures
            r == self.spec_mean(),
    {
        proof {
            lemma_curve_monotone(self.points@);
        }
        let mut s: u128 = 0;
        let mut i: usize = 1;
        while i < self.points.len()
            invariant
                self.wf(),
                1 <= i,
                i <= self.points@.len() || i == 1,
                s == spec_trap_sum(self.points@.take(i as int)),
                s <= 2 * (self.points@[i - 1].0 as int) * (self.points@[i - 1].1 as int),
                forall|a: int, b: int|
                    0 <= a < b < self.points@.len() ==> (#[trigger] self.points@[a]).0 < (
                    #[trigger] self.points@[b]).0 && self.points@[a].1 < self.points@[b].1,
            decreases self.points@.len() - i,
        {
            let (xp, yp) = self.points[i - 1];
            let (xi, yi) = self.points[i];
            proof {
                assert(self.points@[i - 1].1 <= self.points@[self.points@.len() - 1].1);
                assert(self.points@[i as int].1 <= self.points@[self.points@.len() - 1].1);
                assert(yi <= PCT_FULL);
                assert(s + (xp as int + xi as int) * (yi as int - yp as int) <= 2 * (xi as int) * (
                yi as int)) by (nonlinear_arith)
                    requires
                        s <= 2 * (xp as int) * (yp as int),
                        0 <= xp as int <= xi as int,
                        0 <= yp as int <= yi as int,
                ;
                assert(2 * (xi as int) * (yi as int) <= 2 * (u64::MAX as int) * (
                PCT_FULL as int)) by (nonlinear_arith)
                    requires
                        0 <= xi as int <= u64::MAX as int,
                        0 <= yi as int <= PCT_FULL as int,
                ;
                assert(self.points@.take(i + 1).drop_last() =~= self.points@.take(i as int));
            }
            let term: u128 = ((xp as u128) + (xi as u128)) * ((yi - yp) as u128);
            s = s + term;
            i = i + 1;
        }
        proof {
            assert(self.points@.take(self.points@.len() as int) =~= self.points@);
            let last = self.points@.len() - 1;
            assert(s <= 2 * (self.points@[last].0 as int) * (PCT_FULL as int)) by (nonlinear_arith)
                requires
                    s <= 2 * (self.points@[last].0 as int) * (self.points@[last].1 as int),
                    0 <= self.points@[last].0 as int,
                    0 <= self.points@[last].1 as int <= PCT_FULL as int,
            ;
            assert((2 * (PCT_FULL as int)) * (self.points@[last].0 as int) == 2 * (
            self.points@[last].0 as int) * (PCT_FULL as int)) by (nonlinear_arith);
            lemma_multiply_divide_le(s as int, 2 * (PCT_FULL as int), self.points@[last].0 as int);
        }
        (s / (2 * (PCT_FULL as u128))) as u64
    }

    /// The value the curve takes at percentile `y`: the first point at or
    /// above `y`, interpolated linearly from the point before it.
    pub open spec fn spec_sample_at(self, y: int) -> int {
        let ps = self.points@;
        let i = spec_first_ge(ps, y);
        if i == 0 {
            ps[0].0 as int
        } else {
            ps[i - 1].0 + (ps[i].0 - ps[i - 1].0) * (y - ps[i - 1].1) / (ps[i].1 - ps[i - 1].1)
        }
    }

    /// Inverse-CDF lookup at percentile `y`, by linear interpolation. The
    /// result always lies between the smallest and the largest value of the
    /// curve.
    #[verifier::rlimit(50)]
    pub fn sample_at(&self, y: u64) -> (r: u64)
        requires
            self.wf(),
            y <= PCT_FULL,
        ensures
            r == self.spec_sample_at(y as int),
            self.points@[0].0 <= r <= self.points@[self.points@.len() - 1].0,
    {
        proof {
            lemma_curve_monotone(self.points@);
            lemma_first_ge_props(self.points@, y as int);
        }
        let ghost fge = spec_first_ge(self.points@, y as int);
        let n = self.points.len();
        let mut i: usize = 0;
        while i < n - 1 && self.points[i].1 < y
            invariant
                n == self.points@.len(),
                self.wf(),
                y <= PCT_FULL,
                0 <= i < self.points@.len(),
                0 <= fge < self.points@.len(),
                fge == spec_first_ge(self.points@, y as int),
                self.points@[fge].1 >= y,
                forall|j: int| 0 <= j < fge ==> (#[trigger] self.points@[j]).1 < y,
                i <= fge,
                forall|a: int, b: int|
                    0 <= a < b < self.points@.len() ==> (#[trigger] self.points@[a]).0 < (
                    #[trigger] self.points@[b]).0 && self.points@[a].1 < self.points@[b].1,
            decreases self.points@.len() - i,
        {
            proof {
                assert(i != fge);
            }
            i = i + 1;
        }
        proof {
            if i < fge {
                assert(self.points@[i as int].1 < y);
            }
            if i == n - 1 && fge < i {
                assert(self.points@[fge].1 >= y);
            }
            assert(i == fge);
        }
        if i == 0 {
            self.points[0].0
        } else {
            let (x0, y0) = self.points[i - 1];
            let (x1, y1) = self.points[i];
            proof {
                assert(self.points@[i - 1].1 < y);
                assert(y0 < y1);
                assert(x0 < x1);
                let num = (x1 - x0) as int * (y - y0) as int;
                let den = (y1 - y0) as int;
                assert(num <= den * ((x1 - x0) as int) && 0 <= num) by (nonlinear_arith)
                    requires
                        num == (x1 - x0) as int * (y - y0) as int,
                        den == (y1 - y0) as int,
                        0 <= (y - y0) as int <= den,
                        0 <= (x1 - x0) as int,
                ;
                lemma_multiply_divide_le(num, den, (x1 - x0) as int);
                lemma_div_is_ordered(0, num, den);
                assert(num <= (u64::MAX as int) * (PCT_FULL as int)) by (nonlinear_arith)
                    requires
                        num == (x1 - x0) as int * (y - y0) as int,
                        0 <= (x1 - x0) as int <= u64::MAX as int,
                        0 <= (y - y0) as int <= PCT_FULL as int,
                ;
            }
            let off = ((((x1 - x0) as u128) * ((y - y0) as u128)) / ((y1 - y0) as u128)) as u64;
            proof {
                assert(off <= x1 - x0);
            }
            x0 + off
        }
    }

    /// Draws a value from the distribution: a uniform percentile in
    /// `[0, 100%]`, then inverse-CDF interpolation. Whatever the generator
    /// returns, the result lies within the value range of the curve.
    pub fn sample(&self, rng: &mut rand::rngs::StdRng) -> (r: u64)
        requires
            self.wf(),
        ensures
            self.points@[0].0 <= r <= self.points@[self.points@.len() - 1].0,
            exists|y: int| 0 <= y <= PCT_FULL && r == self.spec_sample_at(y),
    {
        let y = crate::rng::gen_range_u64(rng, PCT_FULL + 1);
        let r = self.sample_at(y);
        proof {
            assert(0 <= y as int <= PCT_FULL && r == self.spec_sample_at(y as int));
        }
        r
    }
}

} // verus!
