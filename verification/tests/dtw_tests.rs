use rust_dtw_algorithm::dtw::{warp_series, warping_cost, warping_shape, ShapeError};

fn abs_distance<'a>(x: &'a [f64], y: &'a [f64]) -> impl Fn(usize, usize) -> f64 + 'a {
    move |i, j| (x[i] - y[j]).abs()
}

fn relax(cost: f64, insertion: f64, deletion: f64, matched: f64) -> f64 {
    cost + insertion.min(deletion).min(matched)
}

#[test]
fn both_series_empty_cost_zero() {
    let r = warping_cost(0, 0, 0.0f64, f64::INFINITY, |_: usize, _: usize| 1.0f64, relax);
    assert_eq!(r, 0.0);
}

#[test]
fn one_series_empty_cost_infinite() {
    let r = warping_cost(0, 3, 0.0f64, f64::INFINITY, |_: usize, _: usize| 1.0f64, relax);
    assert_eq!(r, f64::INFINITY);
    let r = warping_cost(2, 0, 0.0f64, f64::INFINITY, |_: usize, _: usize| 1.0f64, relax);
    assert_eq!(r, f64::INFINITY);
}

#[test]
fn identical_series_cost_zero() {
    let x = [1.0, 3.0, 2.0, 5.0];
    let r = warping_cost(4, 4, 0.0, f64::INFINITY, abs_distance(&x, &x), relax);
    assert_eq!(r, 0.0);
}

#[test]
fn warping_absorbs_repeated_sample() {
    // y repeats the middle sample of x: the warping path pairs both copies with it.
    let x = [0.0, 1.0, 2.0];
    let y = [0.0, 1.0, 1.0, 2.0];
    let r = warping_cost(3, 4, 0.0, f64::INFINITY, abs_distance(&x, &y), relax);
    assert_eq!(r, 0.0);
}

#[test]
fn warping_cost_exact_value() {
    // Table for x = [0, 2], y = [1]:
    // cell (1,1) = |0-1| + 0 = 1, cell (2,1) = |2-1| + min(1, inf, inf) = 2.
    let x = [0.0, 2.0];
    let y = [1.0];
    let r = warping_cost(2, 1, 0.0, f64::INFINITY, abs_distance(&x, &y), relax);
    assert_eq!(r, 2.0);
}

#[test]
fn warping_cost_on_integers() {
    let x = [3u64, 7, 7, 1];
    let y = [3u64, 7, 1];
    let local = |i: usize, j: usize| x[i].abs_diff(y[j]);
    let combine = |c: u64, a: u64, b: u64, d: u64| c.saturating_add(a.min(b).min(d));
    let r = warping_cost(4, 3, 0u64, u64::MAX, local, combine);
    assert_eq!(r, 0);
    let z = [4u64];
    let local2 = |i: usize, j: usize| x[i].abs_diff(z[j]);
    let r2 = warping_cost(4, 1, 0u64, u64::MAX, local2, combine);
    assert_eq!(r2, 1 + 3 + 3 + 3);
}

#[test]
fn warping_cost_is_repeatable() {
    let x = [0.5, 1.5, -2.0];
    let y = [1.0, -1.0];
    let a = warping_cost(3, 2, 0.0, f64::INFINITY, abs_distance(&x, &y), relax);
    let b = warping_cost(3, 2, 0.0, f64::INFINITY, abs_distance(&x, &y), relax);
    assert_eq!(a, b);
}

#[test]
fn shape_accepts_matching_series() {
    assert_eq!(warping_shape(10, 5, 2, 4, 2, 2), Ok((6, 3)));
    assert_eq!(warping_shape(0, 0, 9, 0, 0, 9), Ok((1, 1)));
}

#[test]
fn shape_rejects_column_mismatch() {
    assert_eq!(warping_shape(10, 5, 2, 9, 3, 3), Err(ShapeError::ColumnMismatch));
}

#[test]
fn shape_rejects_table_too_large() {
    assert_eq!(warping_shape(0, usize::MAX, 0, 0, 0, 0), Err(ShapeError::TooLarge));
    assert_eq!(
        warping_shape(0, usize::MAX / 2, 0, 0, 2, 0),
        Err(ShapeError::TooLarge)
    );
}

#[test]
fn shape_rejects_short_series() {
    assert_eq!(warping_shape(9, 5, 2, 4, 2, 2), Err(ShapeError::SeriesTooShort));
    assert_eq!(warping_shape(10, 5, 2, 3, 2, 2), Err(ShapeError::SeriesTooShort));
    assert_eq!(warping_shape(0, 2, usize::MAX, 0, 2, usize::MAX), Err(ShapeError::SeriesTooShort));
}

#[test]
fn shape_ignores_buffers_without_inner_cells() {
    // With an empty second series no sample of the first is ever read.
    assert_eq!(warping_shape(0, 5, 2, 0, 0, 2), Ok((6, 1)));
}

#[test]
fn warp_series_multivariate() {
    // Two samples of two columns each, against one sample.
    let x = [0.0f64, 0.0, 3.0, 4.0];
    let y = [0.0f64, 0.0];
    let local = |i: usize, j: usize| {
        let a = &x[i * 2..i * 2 + 2];
        let b = &y[j * 2..j * 2 + 2];
        a.iter().zip(b.iter()).map(|(p, q)| (p - q).powi(2)).sum::<f64>().sqrt()
    };
    let r = warp_series(4, 2, 2, 2, 1, 2, 0.0, f64::INFINITY, local, relax);
    assert_eq!(r, Ok(5.0));
}

#[test]
fn warp_series_reports_shape_error() {
    let r = warp_series(4, 2, 2, 3, 1, 3, 0.0, f64::INFINITY, |_: usize, _: usize| 0.0f64, relax);
    assert_eq!(r, Err(ShapeError::ColumnMismatch));
}

#[test]
fn warping_cost_is_symmetric() {
    let x = [0.5, 1.5, -2.0, 4.0];
    let y = [1.0, -1.0, 0.0];
    let xy = warping_cost(4, 3, 0.0, f64::INFINITY, abs_distance(&x, &y), relax);
    let yx = warping_cost(3, 4, 0.0, f64::INFINITY, abs_distance(&y, &x), relax);
    assert_eq!(xy, yx);
    assert_eq!(xy, 6.0);
}

#[test]
fn series_at_zero_cost_from_itself() {
    let x = [0.0f64, 1.0, 0.0, 1.0, 2.0, 2.0];
    let local = |i: usize, j: usize| {
        let a = &x[i * 2..i * 2 + 2];
        let b = &x[j * 2..j * 2 + 2];
        a.iter().zip(b.iter()).map(|(p, q)| (p - q).powi(2)).sum::<f64>().sqrt()
    };
    assert_eq!(warp_series(6, 3, 2, 6, 3, 2, 0.0, f64::INFINITY, local, relax), Ok(0.0));
}
