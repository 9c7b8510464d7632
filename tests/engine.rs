use julia_fractal::config::{ConfigurationError, GridConfig};
use julia_fractal::engine::{colorize, compute_row, render};
use julia_fractal::escape::escape_count;
use julia_fractal::raster::{assemble, AggregationError, Assembler, Raster, RowResult};
use julia_fractal::color::anchor;
use num::complex::Complex;

fn rows_of(raster: &Raster) -> Vec<Vec<u32>> {
    (0..raster.height()).map(|y| raster.row(y)).collect()
}

fn row(row_index: u32, values: Vec<u32>) -> RowResult {
    RowResult { row_index, values }
}

#[test]
fn grid_config_accepts_positive_sizes() {
    let c = GridConfig::new(4, 3, 50).unwrap();
    assert_eq!((c.width(), c.height(), c.max_iterations()), (4, 3, 50));
}

#[test]
fn grid_config_rejects_zero_fields() {
    assert_eq!(GridConfig::new(0, 3, 50).unwrap_err(), ConfigurationError::ZeroWidth);
    assert_eq!(GridConfig::new(4, 0, 50).unwrap_err(), ConfigurationError::ZeroHeight);
    assert_eq!(GridConfig::new(4, 3, 0).unwrap_err(), ConfigurationError::ZeroIterations);
    assert_eq!(GridConfig::new(0, 0, 0).unwrap_err(), ConfigurationError::ZeroWidth);
}

#[test]
fn escape_count_returns_steps_before_escape() {
    // 1, 2, 4, ..., 128: the eighth point is the first past 100
    assert_eq!(escape_count(1i64, |z: i64| z > 100, |z: i64| z * 2, 50), 7);
    assert_eq!(escape_count(200i64, |z: i64| z > 100, |z: i64| z * 2, 50), 0);
}

#[test]
fn escape_count_caps_at_last_iteration() {
    assert_eq!(escape_count(1i64, |z: i64| z > 100, |z: i64| z * 2, 5), 4);
    assert_eq!(escape_count(0i64, |z: i64| z > 100, |z: i64| z + 0, 1), 0);
}

#[test]
fn compute_row_fills_every_column() {
    let r = compute_row(3, 5, &|x: u32, y: u32| x + 10 * y);
    assert_eq!(r.row_index, 3);
    assert_eq!(r.values, vec![30, 31, 32, 33, 34]);
}

#[test]
fn render_has_every_row_and_column() {
    let config = GridConfig::new(3, 2, 10).unwrap();
    let raster = render(&config, &|x: u32, y: u32| 1 + x + 10 * y);
    assert_eq!(raster.width(), 3);
    assert_eq!(raster.height(), 2);
    assert_eq!(rows_of(&raster), vec![vec![1, 2, 3], vec![11, 12, 13]]);
    assert_eq!(raster.get(2, 1), 13);
}

#[test]
fn render_twice_gives_identical_rasters() {
    let config = GridConfig::new(6, 5, 10).unwrap();
    let pixel = |x: u32, y: u32| (x * 7 + y * 3) % 11;
    let a = render(&config, &pixel);
    let b = render(&config, &pixel);
    assert_eq!(rows_of(&a), rows_of(&b));
}

#[test]
fn assemble_in_any_order_gives_same_raster() {
    let in_order = vec![row(0, vec![1, 2]), row(1, vec![3, 4]), row(2, vec![5, 6])];
    let reversed = vec![row(2, vec![5, 6]), row(1, vec![3, 4]), row(0, vec![1, 2])];
    let shuffled = vec![row(1, vec![3, 4]), row(2, vec![5, 6]), row(0, vec![1, 2])];
    let expected = vec![vec![1, 2], vec![3, 4], vec![5, 6]];
    assert_eq!(rows_of(&assemble(2, 3, &in_order).unwrap()), expected);
    assert_eq!(rows_of(&assemble(2, 3, &reversed).unwrap()), expected);
    assert_eq!(rows_of(&assemble(2, 3, &shuffled).unwrap()), expected);
}

#[test]
fn assemble_rejects_row_out_of_range() {
    let rows = vec![row(0, vec![1]), row(5, vec![2])];
    assert_eq!(assemble(1, 2, &rows).unwrap_err(), AggregationError::RowOutOfRange { row: 5 });
}

#[test]
fn assemble_rejects_duplicate_row() {
    let rows = vec![row(0, vec![1]), row(0, vec![2])];
    assert_eq!(assemble(1, 2, &rows).unwrap_err(), AggregationError::DuplicateRow { row: 0 });
}

#[test]
fn assemble_rejects_wrong_row_length() {
    let rows = vec![row(0, vec![1]), row(1, vec![2, 3])];
    assert_eq!(
        assemble(1, 2, &rows).unwrap_err(),
        AggregationError::WrongRowLength { row: 1, len: 2 }
    );
}

#[test]
fn assemble_reports_missing_row_instead_of_zero_row() {
    let rows = vec![row(0, vec![1, 1]), row(2, vec![3, 3])];
    assert_eq!(assemble(2, 3, &rows).unwrap_err(), AggregationError::MissingRow { row: 1 });
    assert_eq!(assemble(2, 1, &vec![]).unwrap_err(), AggregationError::MissingRow { row: 0 });
}

#[test]
fn assembler_takes_rows_one_at_a_time() {
    let mut a = Assembler::new(2, 2);
    assert_eq!(a.accept(row(1, vec![3, 4])), Ok(()));
    assert_eq!(a.accept(row(1, vec![9, 9])), Err(AggregationError::DuplicateRow { row: 1 }));
    assert_eq!(a.accept(row(0, vec![1, 2])), Ok(()));
    let raster = a.finish().unwrap();
    assert_eq!(rows_of(&raster), vec![vec![1, 2], vec![3, 4]]);
}

#[test]
fn assembler_finish_names_first_missing_row() {
    let mut a = Assembler::new(1, 3);
    assert_eq!(a.accept(row(2, vec![7])), Ok(()));
    assert_eq!(a.finish().unwrap_err(), AggregationError::MissingRow { row: 0 });
}

#[test]
fn colorize_maps_each_value() {
    let raster = assemble(2, 1, &vec![row(0, vec![0, 255])]).unwrap();
    let colors = colorize(&raster);
    assert_eq!(colors, vec![vec![anchor(0), anchor(4)]]);
}

fn julia_pixel(
    width: u32,
    height: u32,
    scale: f64,
    c: Complex<f64>,
    max_iterations: u32,
) -> impl Fn(u32, u32) -> u32 {
    let ratio = width as f64 / height as f64;
    let (x_extent, y_extent) = if width == height {
        (scale, scale)
    } else if width > height {
        (scale * ratio, scale)
    } else {
        (scale, scale / ratio)
    };
    let (scale_x, scale_y) = (x_extent / width as f64, y_extent / height as f64);
    move |x: u32, y: u32| {
        let z = Complex::new(
            x as f64 * scale_x - x_extent / 2.0,
            y as f64 * scale_y - y_extent / 2.0,
        );
        escape_count(z, |z: Complex<f64>| z.norm_sqr() > 4.0, move |z: Complex<f64>| z * z + c, max_iterations)
    }
}

#[test]
fn julia_four_by_four_scenario() {
    let config = GridConfig::new(4, 4, 50).unwrap();
    let pixel = julia_pixel(4, 4, 2.0, Complex::new(-0.74543, 0.11301), 50);
    let raster = render(&config, &pixel);
    let rows = rows_of(&raster);
    assert_eq!(rows.len(), 4);
    for r in &rows {
        assert_eq!(r.len(), 4);
        for v in r {
            assert!(*v <= 49);
        }
    }
    // column 2 of row 2 lies on the plane's origin
    assert!(raster.get(2, 2) > raster.get(0, 0));
}

#[test]
fn julia_escape_count_is_repeatable() {
    let c = Complex::new(-0.74543, 0.11301);
    let z = Complex::new(0.3, -0.2);
    let first = escape_count(z, |z: Complex<f64>| z.norm_sqr() > 4.0, |z: Complex<f64>| z * z + c, 1000);
    let second = escape_count(z, |z: Complex<f64>| z.norm_sqr() > 4.0, |z: Complex<f64>| z * z + c, 1000);
    assert_eq!(first, second);
}
