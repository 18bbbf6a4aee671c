//! The Largest-Triangle-Three-Buckets downsampler.
//!
//! The interior of the input (everything but the first and last point) is
//! split into `threshold - 2` buckets whose fractional width is
//! `(n - 2) / (threshold - 2)`; bucket edges are the floors of the exact
//! rational multiples of that width, computed here with integer
//! arithmetic. Per bucket the point is kept that forms the largest
//! triangle with the previously kept point and the average of the next
//! bucket, ties keeping the first candidate seen.
//!
//! The decimal arithmetic (sums, averages, triangle areas) is the
//! arithmetic of `rust_decimal`, reached through the trusted wrappers of
//! the `dec` module; the spec-level model below composes the named
//! results of those operations, so the contract of `downsample` pins the
//! result to exactly one sequence for a given input.

use vstd::prelude::*;
use vstd::arithmetic::div_mod::{
    lemma_div_is_ordered, lemma_div_multiples_vanish, lemma_div_pos_is_pos,
    lemma_hoist_over_denominator,
};
use vstd::arithmetic::mul::lemma_mul_inequality;
use crate::dec::{
    add_of, dec_abs, dec_add, dec_div, dec_gt, dec_lt, dec_mul, dec_sub, dec_valid, div_of,
    mul_of, pow10, spec_abs, sub_of, Dec,
};
use crate::point::{
    out_of, point_wf, seq_wf, DataOutput, DataPoint, DownsampleError,
};

verus! {

/// The decimal zero, the initial value of a bucket sum.
pub open spec fn dec_zero() -> Dec {
    Dec { mantissa: 0i128, scale: 0u32 }
}

/// The decimal minus one, the initial "largest area seen": any real area
/// is non-negative, so the first candidate always replaces it.
pub open spec fn dec_neg_one() -> Dec {
    Dec { mantissa: -1i128, scale: 0u32 }
}

/// The decimal one half, which turns the cross product into the triangle
/// area.
pub open spec fn dec_half() -> Dec {
    Dec { mantissa: 5i128, scale: 1u32 }
}

/// The lower edge of bucket `j` among the interior points: one past the
/// floor of `j` times the exact fractional bucket width `(n-2)/(t-2)`.
pub open spec fn bound(n: int, t: int, j: int) -> int {
    (j * (n - 2)) / (t - 2) + 1
}

/// The end (exclusive) of the averaging range of slot `i`: the lower edge
/// of bucket `i + 2`, clamped to the input length.
pub open spec fn avg_end(n: int, t: int, i: int) -> int {
    if bound(n, t, i + 2) < n {
        bound(n, t, i + 2)
    } else {
        n
    }
}

/// The running sum of the x coordinates of `s[from .. to]` on top of
/// `acc`, in index order; `None` as soon as an addition overflows.
pub open spec fn sum_xs(s: Seq<DataPoint>, from: int, to: int, acc: Dec) -> Option<Dec>
    decreases to - from,
{
    if from >= to {
        Some(acc)
    } else {
        match add_of(acc, s[from].x) {
            Some(d) => sum_xs(s, from + 1, to, d),
            None => None,
        }
    }
}

/// The running sum of the y values of `s[from .. to]` on top of `acc`.
pub open spec fn sum_ys(s: Seq<DataPoint>, from: int, to: int, acc: Dec) -> Option<Dec>
    decreases to - from,
{
    if from >= to {
        Some(acc)
    } else {
        match add_of(acc, s[from].y) {
            Some(d) => sum_ys(s, from + 1, to, d),
            None => None,
        }
    }
}

/// The average point of `s[start .. end]`: each coordinate summed from
/// zero and divided by the range length, all in decimal arithmetic.
pub open spec fn bucket_avg(s: Seq<DataPoint>, start: int, end: int) -> Option<(Dec, Dec)> {
    let len = Dec { mantissa: (end - start) as i128, scale: 0u32 };
    match (sum_xs(s, start, end, dec_zero()), sum_ys(s, start, end, dec_zero())) {
        (Some(sx), Some(sy)) => match (div_of(sx, len), div_of(sy, len)) {
            (Some(ax), Some(ay)) => Some((ax, ay)),
            _ => None,
        },
        _ => None,
    }
}

/// The area of the triangle spanned by the previous pick `pa`, the
/// candidate `c` and the average point: half the absolute cross product
/// `(pa.x - avg_x) * (c.y - pa.y) - (pa.x - c.x) * (avg_y - pa.y)`,
/// every operation being a decimal operation.
pub open spec fn area_of(pa: DataPoint, c: DataPoint, avg_x: Dec, avg_y: Dec) -> Option<Dec> {
    match sub_of(pa.x, avg_x) {
        Some(t1) => match sub_of(c.y, pa.y) {
            Some(t2) => match mul_of(t1, t2) {
                Some(m1) => match sub_of(pa.x, c.x) {
                    Some(t3) => match sub_of(avg_y, pa.y) {
                        Some(t4) => match mul_of(t3, t4) {
                            Some(m2) => match sub_of(m1, m2) {
                                Some(d) => mul_of(spec_abs(d), dec_half()),
                                None => None,
                            },
                            None => None,
                        },
                        None => None,
                    },
                    None => None,
                },
                None => None,
            },
            None => None,
        },
        None => None,
    }
}

/// The index of the candidate in `s[from .. to]` with the strictly
/// largest triangle area against pick `a` and the average point, ties
/// keeping the earliest; `best` and `max_area` carry the leader so far.
pub open spec fn pick(
    s: Seq<DataPoint>,
    a: int,
    avg_x: Dec,
    avg_y: Dec,
    from: int,
    to: int,
    best: int,
    max_area: Dec,
) -> Option<int>
    decreases to - from,
{
    if from >= to {
        Some(best)
    } else {
        match area_of(s[a], s[from], avg_x, avg_y) {
            Some(ar) => if dec_lt(max_area, ar) {
                pick(s, a, avg_x, avg_y, from + 1, to, from, ar)
            } else {
                pick(s, a, avg_x, avg_y, from + 1, to, best, max_area)
            },
            None => None,
        }
    }
}

/// The indices kept by the general path, one per slot `i, i+1, ...`
/// up to `t - 3`, starting from the indices in `acc` with `a` the most
/// recent; the last input index is appended at the end.
pub open spec fn select_rec(
    s: Seq<DataPoint>,
    t: int,
    i: int,
    a: int,
    acc: Seq<int>,
) -> Result<Seq<int>, DownsampleError>
    decreases t - 2 - i,
{
    let n = s.len() as int;
    if i >= t - 2 {
        Ok(acc.push(n - 1))
    } else {
        let lo = bound(n, t, i);
        let hi = bound(n, t, i + 1);
        match bucket_avg(s, bound(n, t, i + 1), avg_end(n, t, i)) {
            Some(avg) => match pick(s, a, avg.0, avg.1, lo, hi, lo, dec_neg_one()) {
                Some(next) => select_rec(s, t, i + 1, next, acc.push(next)),
                None => Err(DownsampleError::ArithmeticOverflow),
            },
            None => Err(DownsampleError::ArithmeticOverflow),
        }
    }
}

/// What `downsample` returns: every point unchanged when no reduction is
/// asked for or possible, an error on a threshold whose bucket width is
/// undefined, and otherwise the LTTB selection.
pub open spec fn spec_downsample(s: Seq<DataPoint>, threshold: int) -> Result<
    Seq<DataOutput>,
    DownsampleError,
> {
    if threshold == 0 || threshold >= s.len() {
        Ok(s.map_values(|p: DataPoint| out_of(p)))
    } else if threshold <= 2 {
        Err(DownsampleError::InvalidThreshold)
    } else {
        match select_rec(s, threshold, 0, 0, seq![0int]) {
            Ok(idxs) => Ok(idxs.map_values(|k: int| out_of(s[k]))),
            Err(e) => Err(e),
        }
    }
}

/// Bucket edges grow with the bucket number.
pub proof fn lemma_bound_mono(n: int, t: int, j1: int, j2: int)
    requires
        2 < t < n,
        0 <= j1 <= j2,
    ensures
        bound(n, t, j1) <= bound(n, t, j2),
{
    lemma_mul_inequality(j1, j2, n - 2);
    lemma_div_is_ordered(j1 * (n - 2), j2 * (n - 2), t - 2);
}

/// Consecutive bucket edges are at least one apart: the fractional bucket
/// width is at least one because the interior is at least as long as the
/// number of buckets.
pub proof fn lemma_bound_step(n: int, t: int, j: int)
    requires
        2 < t < n,
        0 <= j,
    ensures
        bound(n, t, j) + 1 <= bound(n, t, j + 1),
{
    lemma_hoist_over_denominator(j * (n - 2), 1, (t - 2) as nat);
    assert((j + 1) * (n - 2) == j * (n - 2) + (n - 2)) by (nonlinear_arith);
    lemma_div_is_ordered(j * (n - 2) + (t - 2), (j + 1) * (n - 2), t - 2);
}

/// The edge of the last bucket is the last input index: the interior ends
/// exactly where the final always-kept point stands.
pub proof fn lemma_bound_last(n: int, t: int)
    requires
        2 < t < n,
    ensures
        bound(n, t, t - 2) == n - 1,
{
    assert((t - 2) * (n - 2) == (n - 2) * (t - 2)) by (nonlinear_arith);
    lemma_div_multiples_vanish(n - 2, t - 2);
}

/// Every bucket edge lies past the always-kept first point.
pub proof fn lemma_bound_pos(n: int, t: int, j: int)
    requires
        2 < t < n,
        0 <= j,
    ensures
        1 <= bound(n, t, j),
{
    assert(0 <= j * (n - 2)) by (nonlinear_arith)
        requires
            0 <= j,
            2 < n,
    ;
    lemma_div_pos_is_pos(j * (n - 2), t - 2);
}

/// The bucket edge `bound(n, t, j)`, clamped to the input length, in
/// machine arithmetic (the product is formed in 128 bits, so it cannot
/// overflow).
fn bound_clamped(n: usize, t: usize, j: usize) -> (r: usize)
    requires
        2 < t < n,
        j <= t - 1,
    ensures
        r as int == (if bound(n as int, t as int, j as int) < n as int {
            bound(n as int, t as int, j as int)
        } else {
            n as int
        }),
        r <= n,
{
    proof {
        assert((j as int) * ((n - 2) as int) <= 0xFFFF_FFFF_FFFF_FFFFint * 0xFFFF_FFFF_FFFF_FFFFint)
            by (nonlinear_arith)
            requires
                0 <= j as int <= 0xFFFF_FFFF_FFFF_FFFFint,
                0 <= (n - 2) as int <= 0xFFFF_FFFF_FFFF_FFFFint,
        ;
    }
    let num: u128 = (j as u128) * ((n - 2) as u128);
    let q: u128 = num / ((t - 2) as u128);
    proof {
        vstd::arithmetic::div_mod::lemma_div_is_ordered_by_denominator(num as int, 1, (t - 2) as int);
    }
    if q + 1 >= n as u128 {
        n
    } else {
        (q + 1) as usize
    }
}

/// The triangle area of one candidate, mirroring `area_of` operation for
/// operation; `None` is handed back as soon as a decimal operation
/// overflows.
fn area_exec(pa: DataPoint, c: DataPoint, avg_x: Dec, avg_y: Dec) -> (r: Option<Dec>)
    requires
        point_wf(pa),
        point_wf(c),
        dec_valid(avg_x),
        dec_valid(avg_y),
    ensures
        r == area_of(pa, c, avg_x, avg_y),
        r matches Some(d) ==> dec_valid(d),
{
    let t1 = match dec_sub(pa.x, avg_x) {
        Some(d) => d,
        None => return None,
    };
    let t2 = match dec_sub(c.y, pa.y) {
        Some(d) => d,
        None => return None,
    };
    let m1 = match dec_mul(t1, t2) {
        Some(d) => d,
        None => return None,
    };
    let t3 = match dec_sub(pa.x, c.x) {
        Some(d) => d,
        None => return None,
    };
    let t4 = match dec_sub(avg_y, pa.y) {
        Some(d) => d,
        None => return None,
    };
    let m2 = match dec_mul(t3, t4) {
        Some(d) => d,
        None => return None,
    };
    let d7 = match dec_sub(m1, m2) {
        Some(d) => d,
        None => return None,
    };
    let ab = dec_abs(d7);
    dec_mul(ab, Dec { mantissa: 5, scale: 1 })
}

/// Downsamples `points` to at most `threshold` points with the
/// Largest-Triangle-Three-Buckets selection rule.
///
/// A threshold of zero, or one at least as large as the input, asks for
/// no reduction: every point is handed back unchanged, in order. A
/// threshold of one or two that does ask for a reduction has no defined
/// bucket width and is reported as `InvalidThreshold`. Otherwise the
/// first and last points are always kept and one point is kept per
/// interior bucket; if the decimal arithmetic leaves its 96-bit domain,
/// `ArithmeticOverflow` is reported.
#[verifier::loop_isolation(false)]
pub fn downsample(points: Vec<DataPoint>, threshold: usize) -> (result: Result<
    Vec<DataOutput>,
    DownsampleError,
>)
    requires
        seq_wf(points@),
    ensures
        (match result {
            Ok(v) => spec_downsample(points@, threshold as int) == Ok::<
                Seq<DataOutput>,
                DownsampleError,
            >(v@),
            Err(e) => spec_downsample(points@, threshold as int) == Err::<
                Seq<DataOutput>,
                DownsampleError,
            >(e),
        }),
        (threshold == 0 || threshold >= points@.len()) ==> (result matches Ok(v)
            && v@.len() == points@.len() && (forall|k: int|
            0 <= k < points@.len() ==> v@[k] == out_of(points@[k]))),
        (result matches Err(e) && e == DownsampleError::InvalidThreshold) <==> (1 <= threshold
            && threshold <= 2 && threshold < points@.len()),
        2 < threshold < points@.len() ==> (result matches Ok(v) ==> v@.len() == threshold),
        2 < threshold < points@.len() ==> (result matches Ok(v) ==> v@[0] == out_of(points@[0])
            && v@[threshold - 1] == out_of(points@[points@.len() - 1])),
{
    let n = points.len();
    if threshold >= n || threshold == 0 {
        let mut out: Vec<DataOutput> = Vec::new();
        let mut j: usize = 0;
        while j < n
            invariant
                j <= n,
                out@.len() == j,
                forall|k: int| 0 <= k < j ==> out@[k] == out_of(points@[k]),
            decreases n - j,
        {
            out.push(DataOutput::from(points[j]));
            j += 1;
        }
        proof {
            assert(out@ =~= points@.map_values(|p: DataPoint| out_of(p)));
        }
        return Ok(out);
    }
    if threshold <= 2 {
        return Err(DownsampleError::InvalidThreshold);
    }
    let ghost s = points@;
    let ghost t = threshold as int;
    let mut sampled: Vec<DataPoint> = Vec::new();
    sampled.push(points[0]);
    let mut a: usize = 0;
    let ghost mut g_acc: Seq<int> = seq![0int];
    let mut i: usize = 0;
    while i < threshold - 2
        invariant
            i <= threshold - 2,
            a < n,
            g_acc.len() == i + 1,
            g_acc[0] == 0,
            g_acc.last() == a as int,
            forall|k: int| 0 <= k < g_acc.len() ==> 0 <= #[trigger] g_acc[k] < n,
            sampled@.len() == i + 1,
            forall|k: int| 0 <= k < g_acc.len() ==> sampled@[k] == s[g_acc[k]],
            select_rec(s, t, i as int, a as int, g_acc) == select_rec(s, t, 0, 0, seq![0int]),
        decreases threshold - 2 - i,
    {
        proof {
            lemma_bound_mono(n as int, t, i as int, t - 2);
            lemma_bound_mono(n as int, t, i as int + 1, t - 2);
            lemma_bound_mono(n as int, t, i as int + 1, i as int + 2);
            lemma_bound_last(n as int, t);
            lemma_bound_pos(n as int, t, i as int);
            lemma_bound_step(n as int, t, i as int);
        }
        let lo = bound_clamped(n, threshold, i);
        let hi = bound_clamped(n, threshold, i + 1);
        let aend = bound_clamped(n, threshold, i + 2);
        proof {
            assert(lo as int == bound(n as int, t, i as int));
            assert(hi as int == bound(n as int, t, i as int + 1));
            assert(aend as int == avg_end(n as int, t, i as int));
            assert(lo < hi);
        }
        let mut sum_x = Dec::from_int(0);
        let mut sum_y = Dec::from_int(0);
        let mut j: usize = hi;
        while j < aend
            invariant
                hi <= j <= aend,
                dec_valid(sum_x),
                dec_valid(sum_y),
                sum_xs(s, j as int, aend as int, sum_x) == sum_xs(
                    s,
                    hi as int,
                    aend as int,
                    dec_zero(),
                ),
                sum_ys(s, j as int, aend as int, sum_y) == sum_ys(
                    s,
                    hi as int,
                    aend as int,
                    dec_zero(),
                ),
            decreases aend - j,
        {
            let px = points[j];
            sum_x = match dec_add(sum_x, px.x) {
                Some(d) => d,
                None => {
                    proof {
                        assert(sum_xs(s, j as int, aend as int, sum_x) is None);
                        assert(bucket_avg(s, hi as int, aend as int) is None);
                        assert(select_rec(s, t, i as int, a as int, g_acc) == Err::<
                            Seq<int>,
                            DownsampleError,
                        >(DownsampleError::ArithmeticOverflow));
                    }
                    return Err(DownsampleError::ArithmeticOverflow);
                },
            };
            sum_y = match dec_add(sum_y, px.y) {
                Some(d) => d,
                None => {
                    proof {
                        assert(sum_ys(s, j as int, aend as int, sum_y) is None);
                        assert(bucket_avg(s, hi as int, aend as int) is None);
                        assert(select_rec(s, t, i as int, a as int, g_acc) == Err::<
                            Seq<int>,
                            DownsampleError,
                        >(DownsampleError::ArithmeticOverflow));
                    }
                    return Err(DownsampleError::ArithmeticOverflow);
                },
            };
            j += 1;
        }
        let len_dec = Dec { mantissa: (aend - hi) as i128, scale: 0 };
        let avg_x = match dec_div(sum_x, len_dec) {
            Some(d) => d,
            None => {
                proof {
                    assert(bucket_avg(s, hi as int, aend as int) is None);
                }
                return Err(DownsampleError::ArithmeticOverflow);
            },
        };
        let avg_y = match dec_div(sum_y, len_dec) {
            Some(d) => d,
            None => {
                proof {
                    assert(bucket_avg(s, hi as int, aend as int) is None);
                }
                return Err(DownsampleError::ArithmeticOverflow);
            },
        };
        proof {
            assert(bucket_avg(s, hi as int, aend as int) == Some((avg_x, avg_y)));
        }
        let pa = points[a];
        let mut best: usize = lo;
        let mut max_area = Dec::from_int(-1);
        let mut c_idx: usize = lo;
        while c_idx < hi
            invariant
                lo <= c_idx <= hi,
                lo <= best < hi,
                dec_valid(max_area),
                pick(s, a as int, avg_x, avg_y, c_idx as int, hi as int, best as int, max_area)
                    == pick(
                    s,
                    a as int,
                    avg_x,
                    avg_y,
                    lo as int,
                    hi as int,
                    lo as int,
                    dec_neg_one(),
                ),
            decreases hi - c_idx,
        {
            let c = points[c_idx];
            let ar = match area_exec(pa, c, avg_x, avg_y) {
                Some(d) => d,
                None => {
                    proof {
                        assert(pick(
                            s,
                            a as int,
                            avg_x,
                            avg_y,
                            c_idx as int,
                            hi as int,
                            best as int,
                            max_area,
                        ) is None);
                        assert(select_rec(s, t, i as int, a as int, g_acc) == Err::<
                            Seq<int>,
                            DownsampleError,
                        >(DownsampleError::ArithmeticOverflow));
                    }
                    return Err(DownsampleError::ArithmeticOverflow);
                },
            };
            if dec_gt(ar, max_area) {
                max_area = ar;
                best = c_idx;
            }
            c_idx += 1;
        }
        proof {
            assert(pick(
                s,
                a as int,
                avg_x,
                avg_y,
                lo as int,
                hi as int,
                lo as int,
                dec_neg_one(),
            ) == Some(best as int));
        }
        sampled.push(points[best]);
        a = best;
        proof {
            g_acc = g_acc.push(best as int);
        }
        i += 1;
    }
    sampled.push(points[n - 1]);
    let ghost idxs = g_acc.push(n as int - 1);
    proof {
        assert(select_rec(s, t, i as int, a as int, g_acc) == Ok::<Seq<int>, DownsampleError>(
            idxs,
        ));
    }
    let mut out: Vec<DataOutput> = Vec::new();
    let mut k: usize = 0;
    while k < sampled.len()
        invariant
            k <= sampled@.len(),
            out@.len() == k,
            sampled@.len() == threshold,
            forall|m: int| 0 <= m < sampled@.len() ==> 0 <= #[trigger] idxs[m] < n
                && sampled@[m] == s[idxs[m]],
            forall|m: int| 0 <= m < k ==> out@[m] == out_of(sampled@[m]),
        decreases sampled@.len() - k,
    {
        out.push(DataOutput::from(sampled[k]));
        k += 1;
    }
    proof {
        assert(out@ =~= idxs.map_values(|m: int| out_of(s[m])));
        assert(spec_downsample(s, t) == Ok::<Seq<DataOutput>, DownsampleError>(out@));
    }
    Ok(out)
}

/// A series that can be downsampled with the LTTB selection rule.
pub trait Lttb {
    /// The sequence of points the series stands for.
    spec fn series(&self) -> Seq<DataPoint>;

    /// Downsamples the series to at most `threshold` points; see
    /// [`downsample`].
    fn downsample(self, threshold: usize) -> (result: Result<Vec<DataOutput>, DownsampleError>)
        requires
            seq_wf(self.series()),
        ensures
            (match result {
                Ok(v) => spec_downsample(self.series(), threshold as int) == Ok::<
                    Seq<DataOutput>,
                    DownsampleError,
                >(v@),
                Err(e) => spec_downsample(self.series(), threshold as int) == Err::<
                    Seq<DataOutput>,
                    DownsampleError,
                >(e),
            }),
    ;
}

impl Lttb for Vec<DataPoint> {
    open spec fn series(&self) -> Seq<DataPoint> {
        self@
    }

    fn downsample(self, threshold: usize) -> (result: Result<Vec<DataOutput>, DownsampleError>) {
        downsample(self, threshold)
    }
}

/// Whatever index `pick` settles on lies in the candidate range: it is
/// either the leader it started with or one of the candidates it saw.
proof fn lemma_pick_bounds(
    s: Seq<DataPoint>,
    a: int,
    avg_x: Dec,
    avg_y: Dec,
    from: int,
    to: int,
    best: int,
    max_area: Dec,
    lb: int,
)
    requires
        lb <= best < to,
        lb <= from,
    ensures
        pick(s, a, avg_x, avg_y, from, to, best, max_area) matches Some(r) ==> lb <= r < to,
    decreases to - from,
{
    if from < to {
        match area_of(s[a], s[from], avg_x, avg_y) {
            Some(ar) => {
                if dec_lt(max_area, ar) {
                    lemma_pick_bounds(s, a, avg_x, avg_y, from + 1, to, from, ar, lb);
                } else {
                    lemma_pick_bounds(s, a, avg_x, avg_y, from + 1, to, best, max_area, lb);
                }
            },
            None => {},
        }
    }
}

/// The indices that the general path selects are strictly increasing and
/// stay inside the input: each pick comes from a bucket that starts past
/// the previous pick, and the appended last index lies past the last
/// bucket.
proof fn lemma_select_rec_inc(s: Seq<DataPoint>, t: int, i: int, a: int, acc: Seq<int>)
    requires
        2 < t < s.len(),
        0 <= i <= t - 2,
        acc.len() == i + 1,
        acc.last() == a,
        forall|k1: int, k2: int| 0 <= k1 < k2 < acc.len() ==> acc[k1] < acc[k2],
        forall|k: int| 0 <= k < acc.len() ==> 0 <= #[trigger] acc[k],
        a < bound(s.len() as int, t, i),
    ensures
        select_rec(s, t, i, a, acc) matches Ok(idxs) ==> (idxs.len() == acc.len() + (t - 2 - i)
            + 1 && (forall|k1: int, k2: int| 0 <= k1 < k2 < idxs.len() ==> idxs[k1] < idxs[k2])
            && (forall|k: int| 0 <= k < idxs.len() ==> 0 <= #[trigger] idxs[k] < s.len()) && (
        forall|k: int| 0 <= k < acc.len() ==> idxs[k] == acc[k])),
    decreases t - 2 - i,
{
    let n = s.len() as int;
    if i >= t - 2 {
        lemma_bound_last(n, t);
    } else {
        lemma_bound_pos(n, t, i);
        lemma_bound_step(n, t, i);
        let lo = bound(n, t, i);
        let hi = bound(n, t, i + 1);
        match bucket_avg(s, bound(n, t, i + 1), avg_end(n, t, i)) {
            Some(avg) => {
                lemma_pick_bounds(s, a, avg.0, avg.1, lo, hi, lo, dec_neg_one(), lo);
                match pick(s, a, avg.0, avg.1, lo, hi, lo, dec_neg_one()) {
                    Some(next) => {
                        lemma_select_rec_inc(s, t, i + 1, next, acc.push(next));
                    },
                    None => {},
                }
            },
            None => {},
        }
    }
}

/// Order preservation: when the input x coordinates are strictly
/// increasing (in the exact decimal order), the x coordinates of the
/// downsampled output are strictly increasing as well — the algorithm
/// selects points at strictly increasing input positions.
pub proof fn lemma_order_preservation(s: Seq<DataPoint>, threshold: int)
    requires
        seq_wf(s),
        forall|i: int, j: int| 0 <= i < j < s.len() ==> dec_lt(#[trigger] s[i].x, #[trigger] s[j].x),
    ensures
        spec_downsample(s, threshold) matches Ok(out) ==> (forall|i: int, j: int|
            0 <= i < j < out.len() ==> #[trigger] out[i].x < #[trigger] out[j].x),
{
    assert forall|i: int, j: int| 0 <= i < j < s.len() implies s[i].x.mantissa < s[j].x.mantissa by {
        let pi = s[i].x;
        let pj = s[j].x;
        assert(point_wf(s[i]));
        assert(point_wf(s[j]));
        assert(dec_lt(pi, pj));
        assert(pow10(0nat) == 1);
        assert(pi.scale as nat == 0nat);
        assert(pj.scale as nat == 0nat);
        assert(pi.mantissa * pow10(0nat) < pj.mantissa * pow10(0nat));
        assert(pi.mantissa * 1 < pj.mantissa * 1);
    }
    if threshold == 0 || threshold >= s.len() {
        let out = s.map_values(|p: DataPoint| out_of(p));
        assert forall|i: int, j: int| 0 <= i < j < out.len() implies out[i].x < out[j].x by {
            assert(out[i] == out_of(s[i]));
            assert(out[j] == out_of(s[j]));
        }
    } else if threshold <= 2 {
    } else {
        lemma_bound_pos(s.len() as int, threshold, 0);
        lemma_select_rec_inc(s, threshold, 0, 0, seq![0int]);
        match select_rec(s, threshold, 0, 0, seq![0int]) {
            Ok(idxs) => {
                let out = idxs.map_values(|k: int| out_of(s[k]));
                assert forall|i: int, j: int| 0 <= i < j < out.len() implies out[i].x
                    < out[j].x by {
                    assert(out[i] == out_of(s[idxs[i]]));
                    assert(out[j] == out_of(s[idxs[j]]));
                    assert(idxs[i] < idxs[j]);
                }
            },
            Err(_) => {},
        }
    }
}

/// Determinism: the downsampled sequence is a function of the input
/// sequence and the threshold alone — two calls on equal inputs agree.
/// The executable `downsample` ensures its result equals
/// `spec_downsample` of its input, so this carries over to it.
pub proof fn lemma_determinism(s1: Seq<DataPoint>, s2: Seq<DataPoint>, t1: int, t2: int)
    requires
        s1 == s2,
        t1 == t2,
    ensures
        spec_downsample(s1, t1) == spec_downsample(s2, t2),
{
}

} // verus!
