use blazectl::curve::{
    spline, trend_curve, trend_knots, Knot, CURVE_UNITS, HEIGHT_UNITS, MAX_MINUTES,
};
use blazectl::trend::{trend_buckets, TREND_SAMPLES_PER_SEGMENT};

/// The control points as the float arithmetic of a plotting program has them: days and hours.
fn float_knots(vals: &[f64]) -> Vec<(f64, f64)> {
    let n = vals.len();
    let cut = |step: usize| -> Vec<(f64, f64)> {
        let mut pts = Vec::new();
        let mut i = 0usize;
        while i < n {
            let end = (i + step).min(n);
            let slice = &vals[i..end];
            let avg = slice.iter().sum::<f64>() / slice.len() as f64;
            pts.push(((i as f64 + (end - 1) as f64) / 2.0, avg / 60.0));
            i = end;
        }
        pts
    };
    let mut pts = cut(8);
    if pts.len() < 3 && n >= 3 {
        let alt = cut(4);
        if alt.len() >= pts.len() {
            pts = alt;
        }
    }
    let x_right = (n - 1) as f64;
    if pts[0].0 > 0.0 {
        if pts.len() >= 2 {
            let (p0, p1) = (pts[0], pts[1]);
            let slope = (p1.1 - p0.1) / (p1.0 - p0.0).max(1e-9);
            pts.insert(0, (0.0, p0.1 + slope * (0.0 - p0.0)));
        } else {
            pts.insert(0, (0.0, vals[0] / 60.0));
        }
    }
    let last = pts.len() - 1;
    if pts[last].0 < x_right {
        if pts.len() >= 2 {
            let (p_last, p_prev) = (pts[last], pts[last - 1]);
            let slope = (p_last.1 - p_prev.1) / (p_last.0 - p_prev.0).max(1e-9);
            pts.push((x_right, p_last.1 + slope * (x_right - p_last.0)));
        } else {
            pts.push((x_right, vals[n - 1] / 60.0));
        }
    }
    pts
}

fn float_curve(pts: &[(f64, f64)], samples: usize) -> Vec<(f64, f64)> {
    if pts.len() < 2 {
        return pts.to_vec();
    }
    let mut out = Vec::new();
    for ii in 0..pts.len() - 1 {
        let p0 = pts[if ii == 0 { 0 } else { ii - 1 }];
        let p1 = pts[ii];
        let p2 = pts[ii + 1];
        let p3 = pts[(ii + 2).min(pts.len() - 1)];
        for s in 0..samples {
            let t = s as f64 / samples as f64;
            let t2 = t * t;
            let t3 = t2 * t;
            let x = 0.5 * (2.0 * p1.0 + (-p0.0 + p2.0) * t + (2.0 * p0.0 - 5.0 * p1.0 + 4.0 * p2.0 - p3.0) * t2 + (-p0.0 + 3.0 * p1.0 - 3.0 * p2.0 + p3.0) * t3);
            let y = 0.5 * (2.0 * p1.1 + (-p0.1 + p2.1) * t + (2.0 * p0.1 - 5.0 * p1.1 + 4.0 * p2.1 - p3.1) * t2 + (-p0.1 + 3.0 * p1.1 - 3.0 * p2.1 + p3.1) * t3);
            out.push((x, y));
        }
    }
    out.push(pts[pts.len() - 1]);
    out
}

fn days(k: &Knot) -> f64 {
    k.x as f64 / (2.0 * CURVE_UNITS as f64)
}

fn hours(k: &Knot) -> f64 {
    k.y as f64 / (HEIGHT_UNITS as f64 * CURVE_UNITS as f64 * 60.0)
}

fn close(a: f64, b: f64) -> bool {
    (a - b).abs() <= 1e-9 * (1.0 + a.abs().max(b.abs()))
}

fn agrees_with_floats(vals: &[u64]) {
    let curve = trend_curve(&vals.to_vec());
    let floats: Vec<f64> = vals.iter().map(|v| *v as f64).collect();
    let wanted = float_curve(&float_knots(&floats), 50);
    assert_eq!(curve.len(), wanted.len());
    for (k, w) in curve.iter().zip(wanted.iter()) {
        assert!(close(days(k), w.0), "{} {}", days(k), w.0);
        assert!(close(hours(k), w.1), "{} {}", hours(k), w.1);
    }
}

#[test]
fn curve_agrees_with_float_arithmetic() {
    let mut vals = Vec::new();
    for i in 0..75u64 {
        vals.push((i * 37 + 11) % 240 + if i % 9 == 0 { 500 } else { 0 });
    }
    agrees_with_floats(&vals);
    for n in 1..=40usize {
        agrees_with_floats(&vals[..n]);
        agrees_with_floats(&vals[75 - n..]);
    }
    agrees_with_floats(&[0, 0, 0, 0, 0, 0, 0, 0, 720, 0, 0]);
    agrees_with_floats(&[1_440; 20]);
}

#[test]
fn curve_of_nothing_and_of_one_day() {
    assert_eq!(trend_curve(&Vec::new()), Vec::<Knot>::new());
    assert_eq!(trend_curve(&vec![90]), vec![Knot { x: 0, y: 90 * HEIGHT_UNITS * CURVE_UNITS }]);
    assert_eq!(spline(&Vec::new()), Vec::<Knot>::new());
    assert_eq!(spline(&vec![Knot { x: 3, y: -4 }]), vec![Knot { x: 750_000, y: -1_000_000 }]);
}

#[test]
fn control_points_of_short_series() {
    let vals = vec![60u64, 120];
    let knots = trend_knots(&vals, &trend_buckets(&vals));
    assert_eq!(
        knots,
        vec![
            Knot { x: 0, y: 60 * HEIGHT_UNITS },
            Knot { x: 1, y: 90 * HEIGHT_UNITS },
            Knot { x: 2, y: 120 * HEIGHT_UNITS },
        ]
    );
    let vals = vec![10u64, 20, 30, 40, 50];
    let knots = trend_knots(&vals, &trend_buckets(&vals));
    assert_eq!(
        knots,
        vec![
            Knot { x: 0, y: 10 * HEIGHT_UNITS },
            Knot { x: 3, y: 25 * HEIGHT_UNITS },
            Knot { x: 8, y: 50 * HEIGHT_UNITS },
        ]
    );
    let vals: Vec<u64> = vec![0, 0, 0, 0, 0, 0, 0, 0, 8, 8, 8, 8, 8, 8, 8, 8, 3];
    let knots = trend_knots(&vals, &trend_buckets(&vals));
    assert_eq!(
        knots,
        vec![
            Knot { x: 0, y: -7 * HEIGHT_UNITS / 2 },
            Knot { x: 7, y: 0 },
            Knot { x: 23, y: 8 * HEIGHT_UNITS },
            Knot { x: 32, y: 3 * HEIGHT_UNITS },
        ]
    );
}

#[test]
fn curve_through_control_points() {
    let knots = vec![Knot { x: 0, y: 0 }, Knot { x: 10, y: 100 }, Knot { x: 20, y: 0 }];
    let curve = spline(&knots);
    assert_eq!(TREND_SAMPLES_PER_SEGMENT, 50);
    assert_eq!(curve.len(), 101);
    assert_eq!(curve[0], Knot { x: 0, y: 0 });
    assert_eq!(curve[50], Knot { x: 10 * CURVE_UNITS, y: 100 * CURVE_UNITS });
    assert_eq!(curve[100], Knot { x: 20 * CURVE_UNITS, y: 0 });
    // Half way, in units of 1 / 250000:
    // 250000 p1 + 62500 (p2 - p0) + 31250 (2 p0 - 5 p1 + 4 p2 - p3) + 15625 (-p0 + 3 p1 - 3 p2 + p3)
    assert_eq!(curve[25], Knot { x: 1_093_750, y: 14_062_500 });
    assert_eq!(curve[75], Knot { x: 5_000_000 - 1_093_750, y: 14_062_500 });
}

#[test]
fn uniform_series_gives_flat_curve() {
    for v in [0u64, 1, 42, 1_440, MAX_MINUTES] {
        for n in [1usize, 2, 3, 4, 5, 8, 9, 16, 17, 24, 25, 75, 200] {
            let curve = trend_curve(&vec![v; n]);
            assert_eq!(curve.len(), if n == 1 { 1 } else if n <= 4 { 101 } else { curve.len() });
            for k in &curve {
                assert_eq!(k.y, v as i128 * HEIGHT_UNITS * CURVE_UNITS);
            }
        }
    }
    assert_eq!(trend_curve(&vec![7; 75]).len(), 11 * 50 + 1);
}

#[test]
fn curve_spans_the_window() {
    for n in 1..=80usize {
        let vals: Vec<u64> = (0..n as u64).map(|i| (i * i) % 97).collect();
        let curve = trend_curve(&vals);
        assert_eq!(curve[0].x, 0);
        assert_eq!(curve[curve.len() - 1].x, 2 * (n as i128 - 1) * CURVE_UNITS);
    }
}

#[test]
fn largest_values_do_not_overflow() {
    let mut vals = vec![MAX_MINUTES; 75];
    for i in (0..75).step_by(3) {
        vals[i] = 0;
    }
    let curve = trend_curve(&vals);
    assert_eq!(curve.len(), 551);
    agrees_with_floats(&vals);
}
