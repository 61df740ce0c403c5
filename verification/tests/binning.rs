use cloud_raster::binning::{bin_points, cell_index, collapse_cell, Function};
use cloud_raster::error::Error;
use cloud_raster::point::{Bounds, PointRecord, Variable, Vector};
use cloud_raster::scalar::NODATA;

fn square(side: i64) -> Bounds {
    Bounds {
        min: Vector { x: 0, y: 0, z: 0 },
        max: Vector { x: side, y: side, z: 0 },
    }
}

fn record(x: i64, y: i64, z: i64, class: u8) -> PointRecord {
    PointRecord::new(x, y, z, 40, class).unwrap()
}

#[test]
fn median_of_four_is_the_mean_of_the_middle_two() {
    assert_eq!(collapse_cell(vec![1_000, 2_000, 3_000, 4_000], &Function::Median), 2_500);
}

#[test]
fn median_of_three_is_the_middle() {
    assert_eq!(collapse_cell(vec![1_000, 2_000, 3_000], &Function::Median), 2_000);
}

#[test]
fn median_does_not_depend_on_the_order() {
    assert_eq!(collapse_cell(vec![4_000, 1_000, 3_000, 2_000], &Function::Median), 2_500);
    assert_eq!(collapse_cell(vec![3_000, 1_000, 2_000], &Function::Median), 2_000);
}

#[test]
fn median_of_one_is_that_one() {
    assert_eq!(collapse_cell(vec![-7_250], &Function::Median), -7_250);
}

#[test]
fn median_rounds_down() {
    assert_eq!(collapse_cell(vec![1, 2], &Function::Median), 1);
    assert_eq!(collapse_cell(vec![-1, -2], &Function::Median), -2);
}

#[test]
fn empty_cell_is_nodata() {
    for function in [
        Function::Mean,
        Function::Median,
        Function::Min,
        Function::Max,
        Function::Count,
    ] {
        assert_eq!(collapse_cell(vec![], &function), NODATA);
    }
    assert_eq!(NODATA, -9_999_000);
}

#[test]
fn count_of_two_is_two() {
    assert_eq!(collapse_cell(vec![5_000, 5_000], &Function::Count), 2_000);
}

#[test]
fn mean_is_the_sum_over_the_count() {
    assert_eq!(collapse_cell(vec![1_000, 2_000, 6_000], &Function::Mean), 3_000);
    assert_eq!(collapse_cell(vec![1, 2], &Function::Mean), 1);
    assert_eq!(collapse_cell(vec![-1, -2], &Function::Mean), -2);
}

#[test]
fn mean_of_extreme_values_does_not_overflow() {
    assert_eq!(collapse_cell(vec![i64::MAX, i64::MAX], &Function::Mean), i64::MAX);
    assert_eq!(collapse_cell(vec![i64::MIN, i64::MIN], &Function::Mean), i64::MIN);
    assert_eq!(collapse_cell(vec![i64::MIN, i64::MAX], &Function::Mean), -1);
}

#[test]
fn min_and_max_are_the_extremes() {
    assert_eq!(collapse_cell(vec![3_000, -1_000, 2_000], &Function::Min), -1_000);
    assert_eq!(collapse_cell(vec![3_000, -1_000, 2_000], &Function::Max), 3_000);
}

#[test]
fn cell_index_is_column_and_row() {
    let bounds = square(10_000);
    assert_eq!(cell_index(&bounds, 5_000, 0, 0), Some((0, 0)));
    assert_eq!(cell_index(&bounds, 5_000, 4_999, 5_000), Some((0, 1)));
    assert_eq!(cell_index(&bounds, 5_000, 9_999, 9_999), Some((1, 1)));
    assert_eq!(cell_index(&bounds, 5_000, 10_000, 0), None);
    assert_eq!(cell_index(&bounds, 5_000, -1, 0), None);
    assert_eq!(cell_index(&bounds, 5_000, 0, -1), None);
    assert_eq!(cell_index(&bounds, 0, 0, 0), None);
}

#[test]
fn bins_hold_the_points_of_their_cells() {
    let points = vec![
        record(1_000, 1_000, 10_000, 2),
        record(2_000, 3_000, 30_000, 2),
        record(6_000, 1_000, 50_000, 2),
        record(1_000, 6_000, 70_000, 2),
    ];
    let got = bin_points(&points, &square(10_000), 5_000, None, &Variable::Z, &Function::Mean);
    assert_eq!(got, Ok(vec![20_000, 50_000, 70_000, NODATA]));
}

#[test]
fn bins_show_the_variable_asked_for() {
    let points = vec![record(1_000, 2_000, 3_000, 2)];
    let bounds = square(5_000);
    let of = |var: Variable| bin_points(&points, &bounds, 5_000, None, &var, &Function::Max);
    assert_eq!(of(Variable::X), Ok(vec![1_000]));
    assert_eq!(of(Variable::Y), Ok(vec![2_000]));
    assert_eq!(of(Variable::Z), Ok(vec![3_000]));
    assert_eq!(of(Variable::Intensity), Ok(vec![40_000]));
}

#[test]
fn bins_keep_only_the_class_asked_for() {
    let points = vec![record(1_000, 1_000, 10_000, 2), record(1_000, 1_000, 90_000, 5)];
    let bounds = square(5_000);
    let of = |class: Option<u8>| {
        bin_points(&points, &bounds, 5_000, class, &Variable::Z, &Function::Count)
    };
    assert_eq!(of(None), Ok(vec![2_000]));
    assert_eq!(of(Some(2)), Ok(vec![1_000]));
    assert_eq!(of(Some(9)), Ok(vec![NODATA]));
}

#[test]
fn point_outside_the_extent_is_in_no_cell() {
    let points = vec![record(25_000, 3_000, 10_000, 2)];
    let got = bin_points(&points, &square(10_000), 5_000, None, &Variable::Z, &Function::Median);
    assert_eq!(got, Ok(vec![NODATA, NODATA, NODATA, NODATA]));
}

#[test]
fn point_past_the_last_column_does_not_wrap_into_the_next_row() {
    let points = vec![record(10_000, 0, 10_000, 2), record(-1, 5_000, 10_000, 2)];
    let got = bin_points(&points, &square(10_000), 5_000, None, &Variable::Z, &Function::Count);
    assert_eq!(got, Ok(vec![NODATA, NODATA, NODATA, NODATA]));
}

#[test]
fn raster_without_cells_has_no_values() {
    let points = vec![record(1_000, 1_000, 10_000, 2)];
    let got = bin_points(&points, &square(10_000), 0, None, &Variable::Z, &Function::Mean);
    assert_eq!(got, Ok(vec![]));
}

#[test]
fn raster_with_more_cells_than_can_be_counted_is_refused() {
    let far = 1i64 << 62;
    let bounds = Bounds {
        min: Vector { x: -far, y: -far, z: 0 },
        max: Vector { x: far, y: far, z: 0 },
    };
    let points = vec![record(1_000, 1_000, 10_000, 2)];
    let got = bin_points(&points, &bounds, 1, None, &Variable::Z, &Function::Mean);
    assert!(matches!(got, Err(Error::ShouldntHappen(_))));
}
