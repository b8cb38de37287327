//! The trend line of the activity chart: control points taken from the
//! buckets of the series, carried on to both edges of the chart, and a smooth
//! curve through them.
//!
//! Places and heights are whole numbers of small units, so that every point
//! of the curve is exact: a place in half days, a height in `HEIGHT_UNITS`
//! per minute; on the curve both are finer by the factor `CURVE_UNITS`.

use crate::trend::{
    cut, lemma_cut_bucket, lemma_cut_unique, lemma_uniform_sum, runs, series_sum, trend_buckets,
    trend_width, Bucket, TREND_SAMPLES_PER_SEGMENT, TREND_WINDOW_DAYS,
};
use vstd::prelude::*;

verus! {

/// The units of height in one minute. The mean of up to eight values and the
/// line through two neighbouring control points fall on whole units.
pub const HEIGHT_UNITS: i128 = 605_404_800;

/// The units of the curve in one unit of the control points: twice the cube
/// of the points between two control points.
pub const CURVE_UNITS: i128 = 250_000;

/// The most minutes that a day can hold: those of the largest count of seconds.
pub const MAX_MINUTES: u64 = 307_445_734_561_825_860;

/// The largest place or height of a control point that the curve is computed for.
pub const COORD_LIMIT: i128 = 1_000_000_000_000_000_000_000_000_000_000;

/// A point of the chart.
#[derive(Clone, Copy, Debug, PartialEq, Eq, Structural)]
pub struct Knot {
    pub x: i128,
    pub y: i128,
}

impl View for Knot {
    type V = (int, int);

    open spec fn view(&self) -> (int, int) {
        (self.x as int, self.y as int)
    }
}

/// The height of the mean of a bucket.
pub open spec fn bucket_height(b: Bucket) -> int {
    b.sum * (840int / (b.last - b.first + 1)) * 720_720
}

/// The control point of a bucket: the middle of its days, the mean of their values.
pub open spec fn bucket_knot(b: Bucket) -> (int, int) {
    (b.first + b.last, bucket_height(b))
}

/// The height at the place `x` of the straight line through `p` and `q`.
pub open spec fn extend(p: (int, int), q: (int, int), x: int) -> int {
    (p.1 * (q.0 - x) + q.1 * (x - p.0)) / (q.0 - p.0)
}

/// The control points of the buckets, in order.
pub open spec fn core_knots(buckets: Seq<Bucket>) -> Seq<(int, int)> {
    Seq::new(buckets.len(), |k: int| bucket_knot(buckets[k]))
}

/// The control points with one more at the left edge, place 0, where the first
/// lies right of it: on the line through the first two, or at the height of
/// `first_value` minutes where there is only one.
pub open spec fn with_left(core: Seq<(int, int)>, first_value: int) -> Seq<(int, int)> {
    if core.len() > 0 && core[0].0 > 0 {
        seq![
            (
                0int,
                if core.len() >= 2 {
                    extend(core[0], core[1], 0)
                } else {
                    first_value * 605_404_800
                },
            ),
        ] + core
    } else {
        core
    }
}

/// The control points with one more at the right edge, the place `edge`, where
/// the last lies left of it: on the line through the last two, or at the
/// height of `last_value` minutes where there is only one.
pub open spec fn with_right(pts: Seq<(int, int)>, edge: int, last_value: int) -> Seq<(int, int)> {
    if pts.len() > 0 && pts.last().0 < edge {
        pts.push(
            (
                edge,
                if pts.len() >= 2 {
                    extend(pts[pts.len() - 2], pts[pts.len() - 1], edge)
                } else {
                    last_value * 605_404_800
                },
            ),
        )
    } else {
        pts
    }
}

/// The control points of the trend over a series cut into `buckets`.
pub open spec fn knots_of(vals: Seq<u64>, buckets: Seq<Bucket>) -> Seq<(int, int)> {
    if vals.len() == 0 {
        Seq::empty()
    } else {
        with_right(
            with_left(core_knots(buckets), vals[0] as int),
            2 * (vals.len() - 1),
            vals.last() as int,
        )
    }
}

/// The Catmull-Rom blend of four neighbouring coordinates at the step `s` of
/// `TREND_SAMPLES_PER_SEGMENT` between the second and the third, in units finer by `CURVE_UNITS`.
pub open spec fn blend(p0: int, p1: int, p2: int, p3: int, s: int) -> int {
    2 * p1 * 125_000 + (p2 - p0) * s * 2_500 + (2 * p0 - 5 * p1 + 4 * p2 - p3) * (s * s) * 50 + (
    -p0 + 3 * p1 - 3 * p2 + p3) * (s * s * s)
}

/// How many points the curve through `k` control points has.
pub open spec fn curve_len(k: int) -> int {
    if k < 2 {
        k
    } else {
        (k - 1) * 50 + 1
    }
}

/// The control point that stands for position `i` where the curve looks past either end.
pub open spec fn clamped(knots: Seq<(int, int)>, i: int) -> (int, int) {
    if i < 0 {
        knots[0]
    } else if i >= knots.len() {
        knots[knots.len() - 1]
    } else {
        knots[i]
    }
}

/// The point `j` of the curve: step `j % 50` from control point `j / 50` to the next.
pub open spec fn curve_point(knots: Seq<(int, int)>, j: int) -> (int, int) {
    let seg = j / 50;
    let s = j % 50;
    if seg + 1 >= knots.len() {
        (250_000 * knots[knots.len() - 1].0, 250_000 * knots[knots.len() - 1].1)
    } else {
        (
            blend(
                clamped(knots, seg - 1).0,
                knots[seg].0,
                knots[seg + 1].0,
                clamped(knots, seg + 2).0,
                s,
            ),
            blend(
                clamped(knots, seg - 1).1,
                knots[seg].1,
                knots[seg + 1].1,
                clamped(knots, seg + 2).1,
                s,
            ),
        )
    }
}

/// Whether `curve` is the curve through `knots`.
pub open spec fn is_curve(curve: Seq<Knot>, knots: Seq<(int, int)>) -> bool {
    &&& curve.len() == curve_len(knots.len() as int)
    &&& forall|j: int| 0 <= j < curve.len() ==> (#[trigger] curve[j])@ == curve_point(knots, j)
}

/// Whether both coordinates of a point are within `COORD_LIMIT`.
pub open spec fn within(p: (int, int), limit: int) -> bool {
    -limit <= p.0 <= limit && -limit <= p.1 <= limit
}

/// Whether no value of the series exceeds `MAX_MINUTES`.
pub open spec fn in_minutes(vals: Seq<u64>) -> bool {
    forall|i: int| 0 <= i < vals.len() ==> #[trigger] vals[i] <= MAX_MINUTES
}

proof fn lemma_floor_negative(a: int, d: int)
    requires
        d > 0,
        a < 0,
    ensures
        a / d == -((-(a + 1)) / d) - 1,
{
    let m = -(a + 1);
    let q = m / d;
    let r = m % d;
    assert(m == q * d + r && 0 <= r < d) by (nonlinear_arith)
        requires
            d > 0,
            m >= 0,
            q == m / d,
            r == m % d,
    ;
    assert(a == (-q - 1) * d + (d - 1 - r)) by (nonlinear_arith)
        requires
            a == -m - 1,
            m == q * d + r,
    ;
    vstd::arithmetic::div_mod::lemma_fundamental_div_mod_converse(a, d, -q - 1, d - 1 - r);
}

/// The quotient rounded down.
fn floor_div(a: i128, d: i128) -> (q: i128)
    requires
        d > 0,
    ensures
        q == a as int / d as int,
{
    if a >= 0 {
        a / d
    } else {
        proof {
            lemma_floor_negative(a as int, d as int);
        }
        let t = (a + 1) / d;
        t - 1
    }
}

proof fn lemma_quotient_bound(a: int, d: int, limit: int)
    requires
        d > 0,
        -limit <= a <= limit,
    ensures
        -limit <= a / d <= limit,
{
    assert(-limit <= a / d <= limit) by (nonlinear_arith)
        requires
            d > 0,
            -limit <= a <= limit,
    ;
}

proof fn lemma_product_bound(a: int, b: int, la: int, lb: int)
    requires
        -la <= a <= la,
        -lb <= b <= lb,
    ensures
        -(la * lb) <= a * b <= la * lb,
{
    assert(-(la * lb) <= a * b <= la * lb) by (nonlinear_arith)
        requires
            -la <= a <= la,
            -lb <= b <= lb,
    ;
}

/// The largest height of the mean of a bucket.
pub const HEIGHT_LIMIT: i128 = 1_489_032_987_546_042_179_265_024_000;

fn line_at(p: Knot, q: Knot, x: i128) -> (y: i128)
    requires
        p.x < q.x,
        -64 <= q.x - x <= 64,
        -64 <= x - p.x <= 64,
        -HEIGHT_LIMIT <= p.y <= HEIGHT_LIMIT,
        -HEIGHT_LIMIT <= q.y <= HEIGHT_LIMIT,
    ensures
        y == extend(p@, q@, x as int),
        -128 * HEIGHT_LIMIT <= y <= 128 * HEIGHT_LIMIT,
{
    proof {
        lemma_product_bound(p.y as int, q.x - x, HEIGHT_LIMIT as int, 64);
        lemma_product_bound(q.y as int, x - p.x, HEIGHT_LIMIT as int, 64);
        lemma_quotient_bound(
            p.y * (q.x - x) + q.y * (x - p.x),
            q.x - p.x,
            128 * HEIGHT_LIMIT,
        );
    }
    floor_div(p.y * (q.x - x) + q.y * (x - p.x), q.x - p.x)
}

proof fn lemma_series_sum_limit(vals: Seq<u64>, from: int, to: int)
    requires
        0 <= from <= to <= vals.len(),
        in_minutes(vals),
    ensures
        series_sum(vals, from, to) <= (to - from) * MAX_MINUTES,
    decreases to - from,
{
    if from < to {
        lemma_series_sum_limit(vals, from, to - 1);
        assert(vals[to - 1] <= MAX_MINUTES);
    }
}

fn height_of(b: &Bucket, Ghost(vals): Ghost<Seq<u64>>) -> (y: i128)
    requires
        in_minutes(vals),
        b.first <= b.last < vals.len(),
        b.last - b.first < 8,
        b.sum == series_sum(vals, b.first as int, b.last + 1),
    ensures
        y == bucket_height(*b),
        0 <= y <= HEIGHT_LIMIT,
{
    let count: i128 = (b.last - b.first) as i128 + 1;
    proof {
        lemma_series_sum_limit(vals, b.first as int, b.last + 1);
        assert(b.sum <= 8 * MAX_MINUTES);
        assert(b.sum * (840int / count as int) <= 8 * MAX_MINUTES * 840) by (nonlinear_arith)
            requires
                0 <= b.sum <= 8 * MAX_MINUTES,
                0 <= 840int / count as int <= 840,
        ;
        assert(0 <= b.sum * (840int / count as int)) by (nonlinear_arith)
            requires
                0 <= b.sum,
                0 <= 840int / count as int,
        ;
    }
    let scaled: i128 = b.sum as i128 * (840 / count);
    scaled * 720_720
}

/// The control points of the trend: one for each bucket, and one more at each
/// edge of the chart where the outermost bucket does not lie on it.
pub fn trend_knots(vals: &Vec<u64>, buckets: &Vec<Bucket>) -> (res: Vec<Knot>)
    requires
        in_minutes(vals@),
        runs(buckets@, vals@, TREND_WINDOW_DAYS as int),
    ensures
        res.len() == knots_of(vals@, buckets@).len(),
        forall|i: int| 0 <= i < res.len() ==> (#[trigger] res[i])@ == knots_of(vals@, buckets@)[i],
        forall|i: int| 0 <= i < res.len() ==> within((#[trigger] res[i])@, COORD_LIMIT as int),
        forall|i: int| 0 <= i < res.len() - 1 ==> (#[trigger] res[i]).x < res[i + 1].x,
        vals.len() > 0 ==> res.len() > 0 && res[0].x == 0 && res[res.len() - 1].x == 2 * (
        vals.len() - 1),
{
    let n = vals.len();
    let mut res: Vec<Knot> = Vec::new();
    if n == 0 {
        return res;
    }
    let m = buckets.len();
    let ghost core = core_knots(buckets@);
    let ghost left = with_left(core, vals@[0] as int);
    let first = buckets[0];
    let first_y = height_of(&first, Ghost(vals@));
    if first.last > 0 {
        let y: i128 = if m >= 2 {
            let second = buckets[1];
            let second_y = height_of(&second, Ghost(vals@));
            line_at(
                Knot { x: first.last as i128, y: first_y },
                Knot { x: second.first as i128 + second.last as i128, y: second_y },
                0,
            )
        } else {
            vals[0] as i128 * HEIGHT_UNITS
        };
        res.push(Knot { x: 0, y });
    }
    let ghost lead = res.len();
    proof {
        assert(left.len() == lead + m);
        assert(forall|i: int| 0 <= i < lead ==> (#[trigger] res[i])@ == left[i]);
    }
    let mut k: usize = 0;
    while k < m
        invariant
            k <= m,
            m == buckets.len(),
            n == vals.len(),
            n > 0,
            in_minutes(vals@),
            runs(buckets@, vals@, TREND_WINDOW_DAYS as int),
            core == core_knots(buckets@),
            left == with_left(core, vals@[0] as int),
            lead <= 1,
            lead == 1 <==> core[0].0 > 0,
            left.len() == lead + m,
            res.len() == lead + k,
            forall|i: int| 0 <= i < res.len() ==> (#[trigger] res[i])@ == left[i],
            forall|i: int|
                0 <= i < res.len() ==> -128 * HEIGHT_LIMIT <= (#[trigger] res[i]).y <= 128
                    * HEIGHT_LIMIT,
            forall|i: int| lead <= i < res.len() ==> 0 <= (#[trigger] res[i]).y <= HEIGHT_LIMIT,
            forall|i: int|
                lead <= i < res.len() ==> (#[trigger] res[i]).x == buckets[i - lead].first
                    + buckets[i - lead].last,
            lead == 1 ==> res[0].x == 0,
        decreases m - k,
    {
        let b = buckets[k];
        let y = height_of(&b, Ghost(vals@));
        res.push(Knot { x: b.first as i128 + b.last as i128, y });
        proof {
            assert(left[lead + k] == core[k as int]);
        }
        k += 1;
    }
    let edge: i128 = 2 * (n as i128 - 1);
    let len = res.len();
    let last = res[len - 1];
    proof {
        assert(last.x == buckets[m - 1].first + buckets[m - 1].last);
        assert(buckets[m - 1].last == n - 1);
    }
    if last.x < edge {
        let y: i128 = if len >= 2 {
            let prev = res[len - 2];
            proof {
                if lead + 1 == len {
                    assert(m == 1);
                    assert(prev.x == 0);
                    assert(last.x == buckets[0].first + buckets[0].last);
                } else {
                    let a = buckets[m - 2];
                    let b = buckets[m - 2 + 1];
                    assert(b.first == a.last + 1);
                    assert(prev.x == a.first + a.last);
                }
            }
            line_at(prev, last, edge)
        } else {
            vals[n - 1] as i128 * HEIGHT_UNITS
        };
        res.push(Knot { x: edge, y });
    }
    proof {
        let all = knots_of(vals@, buckets@);
        assert(all == with_right(left, edge as int, vals@.last() as int));
        assert(res.len() == all.len());
        assert forall|i: int| 0 <= i < res.len() implies (#[trigger] res[i])@ == all[i] by {
            if i < len {
                assert(res[i]@ == left[i]);
            }
        }
        assert forall|i: int| 0 <= i < res.len() - 1 implies (#[trigger] res[i]).x < res[i + 1].x by {
            if i + 1 < len {
                if i >= lead {
                    let a = buckets[i - lead];
                    let b = buckets[i - lead + 1];
                    assert(b.first == a.last + 1);
                } else {
                    assert(res[i].x == 0);
                    assert(res[i + 1].x == buckets[0].first + buckets[0].last);
                }
            }
        }
    }
    res
}

/// The places and heights of control points.
pub open spec fn points(knots: Seq<Knot>) -> Seq<(int, int)> {
    Seq::new(knots.len(), |i: int| knots[i]@)
}

fn blend_at(p0: i128, p1: i128, p2: i128, p3: i128, s: i128) -> (v: i128)
    requires
        -COORD_LIMIT <= p0 <= COORD_LIMIT,
        -COORD_LIMIT <= p1 <= COORD_LIMIT,
        -COORD_LIMIT <= p2 <= COORD_LIMIT,
        -COORD_LIMIT <= p3 <= COORD_LIMIT,
        0 <= s < 50,
    ensures
        v == blend(p0 as int, p1 as int, p2 as int, p3 as int, s as int),
{
    proof {
        assert(0 <= s * s <= 2_500 && 0 <= s * s * s <= 125_000) by (nonlinear_arith)
            requires
                0 <= s < 50,
        ;
    }
    let square: i128 = s * s;
    let cube: i128 = square * s;
    let rise: i128 = p2 - p0;
    let bend: i128 = 2 * p0 - 5 * p1 + 4 * p2 - p3;
    let twist: i128 = -p0 + 3 * p1 - 3 * p2 + p3;
    proof {
        lemma_product_bound(2 * p1, 125_000, 2 * COORD_LIMIT, 125_000);
        lemma_product_bound(rise as int, s as int, 2 * COORD_LIMIT, 50);
        lemma_product_bound(bend as int, square as int, 12 * COORD_LIMIT, 2_500);
        lemma_product_bound(twist as int, cube as int, 8 * COORD_LIMIT, 125_000);
    }
    let first: i128 = 2 * p1 * 125_000;
    let second: i128 = rise * s * 2_500;
    let third: i128 = bend * square * 50;
    let fourth: i128 = twist * cube;
    first + second + third + fourth
}

fn at(knots: &Vec<Knot>, i: usize, back: bool) -> (k: Knot)
    requires
        knots.len() > 0,
        i < knots.len() || !back,
    ensures
        k@ == clamped(
            points(knots@),
            if back {
                i - 1
            } else {
                i as int
            },
        ),
        back && i > 0 ==> k == knots[i - 1],
        back && i == 0 ==> k == knots[0],
        !back && i < knots.len() ==> k == knots[i as int],
        !back && i >= knots.len() ==> k == knots[knots.len() - 1],
{
    if back {
        if i == 0 {
            knots[0]
        } else {
            knots[i - 1]
        }
    } else if i >= knots.len() {
        knots[knots.len() - 1]
    } else {
        knots[i]
    }
}

/// The curve through control points: between each two neighbours `TREND_SAMPLES_PER_SEGMENT`
/// points of the Catmull-Rom blend of them and their neighbours, and the last
/// control point at the end.
pub fn spline(knots: &Vec<Knot>) -> (curve: Vec<Knot>)
    requires
        forall|i: int| 0 <= i < knots.len() ==> within((#[trigger] knots[i])@, COORD_LIMIT as int),
    ensures
        is_curve(curve@, points(knots@)),
{
    let mut curve: Vec<Knot> = Vec::new();
    let len = knots.len();
    if len == 0 {
        return curve;
    }
    let ghost pts = points(knots@);
    let mut seg: usize = 0;
    while seg + 1 < len
        invariant
            seg < len,
            len == knots.len(),
            pts == points(knots@),
            forall|i: int| 0 <= i < knots.len() ==> within((#[trigger] knots[i])@, COORD_LIMIT as int),
            curve.len() == seg * 50,
            forall|j: int| 0 <= j < curve.len() ==> (#[trigger] curve[j])@ == curve_point(pts, j),
        decreases len - seg,
    {
        let p0 = at(knots, seg, true);
        let p1 = knots[seg];
        let p2 = knots[seg + 1];
        let p3 = at(knots, seg + 2, false);
        proof {
            assert(within(p0@, COORD_LIMIT as int));
            assert(within(p1@, COORD_LIMIT as int));
            assert(within(p2@, COORD_LIMIT as int));
            assert(within(p3@, COORD_LIMIT as int));
            assert(pts[seg as int] == p1@ && pts[seg + 1] == p2@);
        }
        let mut s: usize = 0;
        while s < TREND_SAMPLES_PER_SEGMENT
            invariant
                s <= TREND_SAMPLES_PER_SEGMENT,
                seg + 1 < len,
                len == knots.len(),
                pts == points(knots@),
                within(p0@, COORD_LIMIT as int),
                within(p1@, COORD_LIMIT as int),
                within(p2@, COORD_LIMIT as int),
                within(p3@, COORD_LIMIT as int),
                p0@ == clamped(pts, seg - 1),
                p1@ == pts[seg as int],
                p2@ == pts[seg + 1],
                p3@ == clamped(pts, seg + 2),
                curve.len() == seg * 50 + s,
                forall|j: int| 0 <= j < curve.len() ==> (#[trigger] curve[j])@ == curve_point(pts, j),
            decreases TREND_SAMPLES_PER_SEGMENT - s,
        {
            let x = blend_at(p0.x, p1.x, p2.x, p3.x, s as i128);
            let y = blend_at(p0.y, p1.y, p2.y, p3.y, s as i128);
            let ghost j = curve.len() as int;
            curve.push(Knot { x, y });
            proof {
                assert(j / 50 == seg && j % 50 == s);
                assert(curve[j]@ == curve_point(pts, j));
            }
            s += 1;
        }
        seg += 1;
    }
    let last = knots[len - 1];
    let ghost j = curve.len() as int;
    curve.push(Knot { x: CURVE_UNITS * last.x, y: CURVE_UNITS * last.y });
    proof {
        assert(j == (len - 1) * 50);
        assert(j / 50 == len - 1);
        assert(pts[len - 1] == last@);
        assert(curve[j]@ == curve_point(pts, j));
    }
    curve
}

/// The control points of the trend over a series.
pub open spec fn trend_points(vals: Seq<u64>) -> Seq<(int, int)> {
    knots_of(vals, cut(vals, trend_width(vals.len() as int)))
}

/// The trend line over a series of daily minutes: its points from the left
/// edge of the chart to the right, places in half days and heights in
/// `HEIGHT_UNITS` per minute, both times `CURVE_UNITS`.
pub fn trend_curve(vals: &Vec<u64>) -> (curve: Vec<Knot>)
    requires
        in_minutes(vals@),
    ensures
        is_curve(curve@, trend_points(vals@)),
        vals.len() == 0 <==> curve.len() == 0,
        vals.len() > 0 ==> curve[0].x == 0 && curve[curve.len() - 1].x == CURVE_UNITS * 2 * (
        vals.len() - 1),
{
    let buckets = trend_buckets(vals);
    proof {
        lemma_cut_unique(
            buckets@,
            vals@,
            trend_width(vals.len() as int),
        );
    }
    let knots = trend_knots(vals, &buckets);
    assert(points(knots@) =~= trend_points(vals@));
    let curve = spline(&knots);
    proof {
        if vals.len() > 0 {
            let pts = points(knots@);
            let last = curve.len() - 1;
            assert(curve[0]@ == curve_point(pts, 0));
            assert(curve[last]@ == curve_point(pts, last));
            assert(pts[0] == knots[0]@);
            assert(pts[pts.len() - 1] == knots[knots.len() - 1]@);
            if knots.len() >= 2 {
                assert(last / 50 == knots.len() - 1);
                lemma_blend_start(
                    clamped(pts, -1).0,
                    pts[0].0,
                    pts[1].0,
                    clamped(pts, 2).0,
                );
            }
        }
    }
    curve
}

/// The curve begins at the second of the four control points.
pub proof fn lemma_blend_start(p0: int, p1: int, p2: int, p3: int)
    ensures
        blend(p0, p1, p2, p3, 0) == 250_000 * p1,
{
    assert((p2 - p0) * 0 * 2_500 == 0) by (nonlinear_arith);
    assert((2 * p0 - 5 * p1 + 4 * p2 - p3) * (0int * 0int) * 50 == 0) by (nonlinear_arith);
    assert((-p0 + 3 * p1 - 3 * p2 + p3) * (0int * 0int * 0int) == 0) by (nonlinear_arith);
}

/// The line through two points of one height has that height everywhere.
pub proof fn lemma_level_line(p: (int, int), q: (int, int), x: int)
    requires
        p.0 < q.0,
        p.1 == q.1,
    ensures
        extend(p, q, x) == p.1,
{
    let d = q.0 - p.0;
    assert(p.1 * (q.0 - x) + q.1 * (x - p.0) == p.1 * d) by (nonlinear_arith)
        requires
            p.1 == q.1,
            d == q.0 - p.0,
    ;
    assert((p.1 * d) / d == p.1) by (nonlinear_arith)
        requires
            d > 0,
    ;
}

/// The blend of four equal coordinates is that coordinate.
pub proof fn lemma_level_blend(h: int, s: int)
    ensures
        blend(h, h, h, h, s) == 250_000 * h,
{
    assert((h - h) * s * 2_500 == 0) by (nonlinear_arith);
    assert((2 * h - 5 * h + 4 * h - h) * (s * s) * 50 == 0) by (nonlinear_arith);
    assert((-h + 3 * h - 3 * h + h) * (s * s * s) == 0) by (nonlinear_arith);
}

/// The mean of a bucket of one to eight equal values is that value.
pub proof fn lemma_level_bucket(b: Bucket, v: u64)
    requires
        b.first <= b.last,
        b.last - b.first < 8,
        b.sum == v * (b.last - b.first + 1),
    ensures
        bucket_height(b) == v * HEIGHT_UNITS,
{
    let c = b.last - b.first + 1;
    assert(c * (840int / c) == 840) by {
        assert(c == 1 || c == 2 || c == 3 || c == 4 || c == 5 || c == 6 || c == 7 || c == 8);
    }
    assert(b.sum * (840int / c) * 720_720 == v * 605_404_800) by (nonlinear_arith)
        requires
            b.sum == v * c,
            c * (840int / c) == 840,
    ;
}

/// On a series of equal values the trend is flat: every control point and
/// every point of the curve has the height of that value, and no division by
/// zero stands in the way.
pub proof fn lemma_flat_trend(vals: Seq<u64>, v: u64)
    requires
        0 < vals.len() <= usize::MAX,
        forall|i: int| 0 <= i < vals.len() ==> #[trigger] vals[i] == v,
    ensures
        forall|i: int|
            0 <= i < trend_points(vals).len() ==> (#[trigger] trend_points(vals)[i]).1 == v
                * HEIGHT_UNITS,
        forall|j: int|
            0 <= j < curve_len(trend_points(vals).len() as int) ==> (#[trigger] curve_point(
                trend_points(vals),
                j,
            )).1 == v * HEIGHT_UNITS * CURVE_UNITS,
{
    let n = vals.len() as int;
    let width = trend_width(n);
    let buckets = cut(vals, width);
    let core = core_knots(buckets);
    let h = v * HEIGHT_UNITS;
    let m = buckets.len() as int;
    assert(m == crate::trend::bucket_count(n, width));
    assert(m >= 1) by (nonlinear_arith)
        requires
            m == (n + width - 1) / width,
            n >= 1,
            width > 0,
    ;
    assert forall|k: int| 0 <= k < m implies (#[trigger] core[k]).1 == h && core[k].0
        == buckets[k].first + buckets[k].last && buckets[k].first == k * width
        && buckets[k].first <= buckets[k].last && buckets[k].last - buckets[k].first < width by {
        lemma_cut_bucket(vals, width, k);
        let b = buckets[k];
        lemma_uniform_sum(vals, b.first as int, b.last + 1, v);
        lemma_level_bucket(b, v);
    }
    let left = with_left(core, vals[0] as int);
    assert(core[0].1 == h);
    if m >= 2 {
        assert(core[1].1 == h);
        assert(core[0].0 < core[1].0) by {
            lemma_cut_bucket(vals, width, 0);
            lemma_cut_bucket(vals, width, 1);
            assert(buckets[1].first == 1 * width);
            assert(buckets[0].first == 0 * width);
        }
        lemma_level_line(core[0], core[1], 0);
    }
    assert forall|i: int| 0 <= i < left.len() implies (#[trigger] left[i]).1 == h by {
        if left.len() > core.len() {
            if i > 0 {
                assert(left[i] == core[i - 1]);
            }
        }
    }
    let edge = 2 * (n - 1);
    let all = with_right(left, edge, vals.last() as int);
    assert(all == trend_points(vals));
    if left.len() >= 2 {
        let p = left[left.len() - 2];
        let q = left[left.len() - 1];
        assert(p.0 < q.0) by {
            if left.len() > core.len() {
                assert(q == core[m - 1]);
                if m >= 2 {
                    assert(p == core[m - 2]);
                } else {
                    assert(p.0 == 0);
                    assert(q == core[0]);
                }
            } else {
                assert(q == core[m - 1]);
                assert(p == core[m - 2]);
            }
            if m >= 2 {
                lemma_cut_bucket(vals, width, m - 2);
                lemma_cut_bucket(vals, width, m - 1);
                assert((m - 1) * width == (m - 2) * width + width) by (nonlinear_arith);
            }
        }
        lemma_level_line(p, q, edge);
    }
    assert forall|i: int| 0 <= i < all.len() implies (#[trigger] all[i]).1 == h by {
        if i < left.len() {
            assert(all[i] == left[i]);
        }
    }
    assert forall|j: int| 0 <= j < curve_len(all.len() as int) implies (#[trigger] curve_point(
        all,
        j,
    )).1 == h * CURVE_UNITS by {
        let seg = j / 50;
        let s = j % 50;
        if seg + 1 < all.len() {
            assert(clamped(all, seg - 1).1 == h);
            assert(all[seg].1 == h);
            assert(all[seg + 1].1 == h);
            assert(clamped(all, seg + 2).1 == h);
            lemma_level_blend(h, s);
        } else {
            assert(all[all.len() - 1].1 == h);
        }
    }
}

/// The height of a bucket of one to eight days is its mean without remainder.
pub proof fn lemma_mean_exact(b: Bucket)
    requires
        b.first <= b.last,
        b.last - b.first < 8,
    ensures
        bucket_height(b) * (b.last - b.first + 1) == b.sum * HEIGHT_UNITS,
{
    let c = b.last - b.first + 1;
    assert(c * (840int / c) == 840) by {
        assert(c == 1 || c == 2 || c == 3 || c == 4 || c == 5 || c == 6 || c == 7 || c == 8);
    }
    assert(b.sum * (840int / c) * 720_720 * c == b.sum * 605_404_800) by (nonlinear_arith)
        requires
            c * (840int / c) == 840,
    ;
}

/// The line through the control points of two buckets that are at most
/// sixteen half days apart meets every place at a whole height.
pub proof fn lemma_line_exact(a: Bucket, b: Bucket, x: int)
    requires
        0 < bucket_knot(b).0 - bucket_knot(a).0 <= 16,
    ensures
        extend(bucket_knot(a), bucket_knot(b), x) * (bucket_knot(b).0 - bucket_knot(a).0)
            == bucket_knot(a).1 * (bucket_knot(b).0 - x) + bucket_knot(b).1 * (x - bucket_knot(a).0),
{
    let p = bucket_knot(a);
    let q = bucket_knot(b);
    let d = q.0 - p.0;
    let part = 720_720int / d;
    assert(d * part == 720_720) by {
        assert(d == 1 || d == 2 || d == 3 || d == 4 || d == 5 || d == 6 || d == 7 || d == 8 || d
            == 9 || d == 10 || d == 11 || d == 12 || d == 13 || d == 14 || d == 15 || d == 16);
    }
    let pa = a.sum * (840int / (a.last - a.first + 1));
    let qa = b.sum * (840int / (b.last - b.first + 1));
    let inner = pa * (q.0 - x) + qa * (x - p.0);
    let num = p.1 * (q.0 - x) + q.1 * (x - p.0);
    assert(num == (part * inner) * d + 0) by (nonlinear_arith)
        requires
            p.1 == pa * 720_720,
            q.1 == qa * 720_720,
            d * part == 720_720,
            inner == pa * (q.0 - x) + qa * (x - p.0),
            num == p.1 * (q.0 - x) + q.1 * (x - p.0),
    ;
    vstd::arithmetic::div_mod::lemma_fundamental_div_mod_converse(num, d, part * inner, 0);
}

} // verus!
