use crate::error::Error;
use crate::order::{sorted, stable_sort};
use crate::point::{get_var, Bounds, PointRecord, PointRecordView, Variable};
use crate::sampler::{get_raster_size, raster_height, raster_width};
use crate::scalar::{floor_div, NODATA, UNITS};
use vstd::arithmetic::div_mod::{lemma_div_is_ordered, lemma_div_multiples_vanish};
use vstd::prelude::*;
use vstd::string::*;

verus! {

/// How the values of the points in a cell become the value of the cell.
#[derive(Clone, Copy, Debug, PartialEq, Eq, Structural)]
pub enum Function {
    Mean,
    Median,
    Min,
    Max,
    Count,
}

/// The sum of the values.
pub open spec fn total(values: Seq<i64>) -> int
    decreases values.len(),
{
    if values.len() == 0 {
        0
    } else {
        total(values.drop_last()) + values.last()
    }
}

/// The middle of a sorted run of values: the one in the middle where they
/// are odd in number, else the mean of the two in the middle, rounded down.
pub open spec fn middle(values: Seq<i64>) -> int {
    let half = values.len() as int / 2;
    if values.len() % 2 == 0 {
        (values[half - 1] + values[half]) / 2
    } else {
        values[half] as int
    }
}

/// Whether `m` is one of the values and none is lower.
pub open spec fn is_lowest(values: Seq<i64>, m: int) -> bool {
    &&& exists|i: int| 0 <= i < values.len() && values[i] == m
    &&& forall|i: int| 0 <= i < values.len() ==> m <= values[i]
}

/// Whether `m` is one of the values and none is higher.
pub open spec fn is_highest(values: Seq<i64>, m: int) -> bool {
    &&& exists|i: int| 0 <= i < values.len() && values[i] == m
    &&& forall|i: int| 0 <= i < values.len() ==> m >= values[i]
}

/// The number of values in whole units, as far as a scalar can count.
pub open spec fn counted(values: Seq<i64>) -> int {
    if values.len() * UNITS > i64::MAX {
        i64::MAX as int
    } else {
        values.len() * UNITS
    }
}

/// Whether `v` is the value of a cell that holds `values`. A cell that
/// holds none has no value, whatever the function.
pub open spec fn is_cell_statistic(values: Seq<i64>, function: Function, v: int) -> bool {
    if values.len() == 0 {
        v == NODATA
    } else {
        match function {
            Function::Mean => v == total(values) / (values.len() as int),
            Function::Median => v == middle(sorted(values)),
            Function::Min => is_lowest(values, v),
            Function::Max => is_highest(values, v),
            Function::Count => v == counted(values),
        }
    }
}

/// A cell has one value: two scalars that both are the value of a cell are
/// equal.
pub proof fn lemma_cell_statistic_unique(values: Seq<i64>, function: Function, v: int, w: int)
    requires
        is_cell_statistic(values, function, v),
        is_cell_statistic(values, function, w),
    ensures
        v == w,
{
}

proof fn lemma_total_bounds(values: Seq<i64>)
    ensures
        -0x8000_0000_0000_0000 * values.len() <= total(values) <= 0x7fff_ffff_ffff_ffff
            * values.len(),
    decreases values.len(),
{
    if values.len() > 0 {
        lemma_total_bounds(values.drop_last());
    }
}

fn mean(values: &Vec<i64>) -> (v: i64)
    requires
        values@.len() > 0,
    ensures
        v == total(values@) / (values@.len() as int),
{
    let mut sum: i128 = 0;
    let mut i: usize = 0;
    proof {
        assert(values@.take(0) =~= Seq::<i64>::empty());
    }
    while i < values.len()
        invariant
            i <= values@.len(),
            sum == total(values@.take(i as int)),
            -0x8000_0000_0000_0000 * i <= sum <= 0x7fff_ffff_ffff_ffff * i,
        decreases values@.len() - i,
    {
        proof {
            assert(values@.take(i + 1).drop_last() =~= values@.take(i as int));
        }
        sum = sum + values[i] as i128;
        i = i + 1;
    }
    proof {
        assert(values@.take(i as int) =~= values@);
    }
    let n: i128 = values.len() as i128;
    proof {
        lemma_div_is_ordered(-0x8000_0000_0000_0000 * n, sum as int, n as int);
        lemma_div_is_ordered(sum as int, 0x7fff_ffff_ffff_ffff * n, n as int);
        lemma_div_multiples_vanish(-0x8000_0000_0000_0000, n as int);
        lemma_div_multiples_vanish(0x7fff_ffff_ffff_ffff, n as int);
        assert(-0x8000_0000_0000_0000 * n == n * (-0x8000_0000_0000_0000)) by (nonlinear_arith);
        assert(0x7fff_ffff_ffff_ffff * n == n * 0x7fff_ffff_ffff_ffff) by (nonlinear_arith);
    }
    let q: i128 = floor_div(sum, n);
    q as i64
}

fn median(values: &Vec<i64>) -> (v: i64)
    requires
        values@.len() > 0,
    ensures
        v == middle(sorted(values@)),
{
    let ordered: Vec<i64> = stable_sort(values);
    let half: usize = ordered.len() / 2;
    if ordered.len() % 2 == 0 {
        let pair: i128 = ordered[half - 1] as i128 + ordered[half] as i128;
        let q: i128 = floor_div(pair, 2);
        q as i64
    } else {
        ordered[half]
    }
}

fn lowest(values: &Vec<i64>) -> (v: i64)
    requires
        values@.len() > 0,
    ensures
        is_lowest(values@, v as int),
{
    let mut best: i64 = values[0];
    let mut i: usize = 1;
    while i < values.len()
        invariant
            1 <= i <= values@.len(),
            exists|j: int| 0 <= j < i && values@[j] == best,
            forall|j: int| 0 <= j < i ==> best <= values@[j],
        decreases values@.len() - i,
    {
        if values[i] < best {
            best = values[i];
        }
        i = i + 1;
    }
    best
}

fn highest(values: &Vec<i64>) -> (v: i64)
    requires
        values@.len() > 0,
    ensures
        is_highest(values@, v as int),
{
    let mut best: i64 = values[0];
    let mut i: usize = 1;
    while i < values.len()
        invariant
            1 <= i <= values@.len(),
            exists|j: int| 0 <= j < i && values@[j] == best,
            forall|j: int| 0 <= j < i ==> best >= values@[j],
        decreases values@.len() - i,
    {
        if values[i] > best {
            best = values[i];
        }
        i = i + 1;
    }
    best
}

fn count(values: &Vec<i64>) -> (v: i64)
    ensures
        v == counted(values@),
{
    let n: i128 = values.len() as i128 * UNITS as i128;
    if n > i64::MAX as i128 {
        i64::MAX
    } else {
        n as i64
    }
}

fn collapse(values: &Vec<i64>, function: &Function) -> (v: i64)
    ensures
        is_cell_statistic(values@, *function, v as int),
{
    if values.len() == 0 {
        return NODATA;
    }
    match function {
        Function::Mean => mean(values),
        Function::Median => median(values),
        Function::Min => lowest(values),
        Function::Max => highest(values),
        Function::Count => count(values),
    }
}

/// The value of a cell that holds the given values of points.
pub fn collapse_cell(points: Vec<i64>, function: &Function) -> (v: i64)
    ensures
        is_cell_statistic(points@, *function, v as int),
{
    collapse(&points, function)
}

/// The column and the row of the cell of the raster in which the planar
/// position `(x, y)` lies; none where the position is outside the raster.
pub open spec fn cell_of(bounds: Bounds, res: int, x: int, y: int) -> Option<(int, int)> {
    let column = (x - bounds.min.x) / res;
    let row = (y - bounds.min.y) / res;
    if res > 0 && 0 <= column < raster_width(bounds, res) && 0 <= row < raster_height(
        bounds,
        res,
    ) {
        Some((column, row))
    } else {
        None
    }
}

/// Whether a point counts for the cell of the given index, cells counted
/// row by row: its class is the one asked for, if one is, and its position
/// lies in the cell.
pub open spec fn is_binned(
    point: PointRecordView,
    bounds: Bounds,
    res: int,
    class: Option<u8>,
    cell: int,
) -> bool {
    &&& class matches Some(c) ==> point.classification == c
    &&& match cell_of(bounds, res, point.x, point.y) {
        Some((column, row)) => row * raster_width(bounds, res) + column == cell,
        None => false,
    }
}

/// The test that picks the points that count for the given cell.
pub open spec fn binned(bounds: Bounds, res: int, class: Option<u8>, cell: int) -> spec_fn(
    PointRecord,
) -> bool {
    |r: PointRecord| is_binned(r@, bounds, res, class, cell)
}

/// What a cell holds: of each point that counts for it the variable shown,
/// in the order of the points.
pub open spec fn bin(
    records: Seq<PointRecord>,
    bounds: Bounds,
    res: int,
    class: Option<u8>,
    var: Variable,
    cell: int,
) -> Seq<i64> {
    records.filter(binned(bounds, res, class, cell)).map_values(
        |r: PointRecord| r@.variable(var) as i64,
    )
}

proof fn lemma_bin_push(
    records: Seq<PointRecord>,
    r: PointRecord,
    bounds: Bounds,
    res: int,
    class: Option<u8>,
    var: Variable,
    cell: int,
)
    ensures
        bin(records.push(r), bounds, res, class, var, cell) == if is_binned(
            r@,
            bounds,
            res,
            class,
            cell,
        ) {
            bin(records, bounds, res, class, var, cell).push(r@.variable(var) as i64)
        } else {
            bin(records, bounds, res, class, var, cell)
        },
{
    reveal(Seq::filter);
    assert(records.push(r).drop_last() =~= records);
    let rest = records.filter(binned(bounds, res, class, cell));
    if is_binned(r@, bounds, res, class, cell) {
        assert(rest.push(r).map_values(|r: PointRecord| r@.variable(var) as i64)
            =~= rest.map_values(|r: PointRecord| r@.variable(var) as i64).push(
            r@.variable(var) as i64,
        ));
    }
}

/// The column and the row of the cell in which a planar position lies.
pub fn cell_index(bounds: &Bounds, res: i64, x: i64, y: i64) -> (cell: Option<(usize, usize)>)
    ensures
        match cell {
            Some(at) => cell_of(*bounds, res as int, x as int, y as int) == Some(
                (at.0 as int, at.1 as int),
            ),
            None => cell_of(*bounds, res as int, x as int, y as int).is_none(),
        },
{
    if res <= 0 {
        return None;
    }
    let size: (usize, usize) = get_raster_size(bounds, res);
    let column: i128 = floor_div(x as i128 - bounds.min.x as i128, res as i128);
    let row: i128 = floor_div(y as i128 - bounds.min.y as i128, res as i128);
    if column < 0 || column >= size.0 as i128 || row < 0 || row >= size.1 as i128 {
        None
    } else {
        Some((column as usize, row as usize))
    }
}

/// Bins the points into the cells of the raster that covers `bounds` with
/// cells of size `res`, and gives each cell its value, row by row from the
/// lowest row up. Where `class` names a class, only points of that class
/// count. A point outside the raster counts for no cell. It fails where the
/// raster has more cells than the machine can count.
pub fn bin_points(
    points: &Vec<PointRecord>,
    bounds: &Bounds,
    res: i64,
    class: Option<u8>,
    var: &Variable,
    func: &Function,
) -> (r: Result<Vec<i64>, Error>)
    ensures
        r.is_ok() <==> raster_width(*bounds, res as int) * raster_height(*bounds, res as int)
            <= usize::MAX,
        r matches Ok(values) ==> {
            &&& values@.len() == raster_width(*bounds, res as int) * raster_height(
                *bounds,
                res as int,
            )
            &&& forall|cell: int|
                0 <= cell < values@.len() ==> is_cell_statistic(
                    bin(points@, *bounds, res as int, class, *var, cell),
                    *func,
                    #[trigger] values@[cell] as int,
                )
        },
        r matches Err(e) ==> e is ShouldntHappen,
{
    let size: (usize, usize) = get_raster_size(bounds, res);
    let width: usize = size.0;
    let height: usize = size.1;
    assert(0 <= width * height <= 0xffff_ffff_ffff_ffff * 0xffff_ffff_ffff_ffff)
        by (nonlinear_arith)
        requires
            0 <= width <= 0xffff_ffff_ffff_ffff,
            0 <= height <= 0xffff_ffff_ffff_ffff,
    ;
    let total: u128 = width as u128 * height as u128;
    if total > usize::MAX as u128 {
        return Err(
            Error::ShouldntHappen(
                String::from_str("the raster has more cells than can be counted"),
            ),
        );
    }
    let len: usize = total as usize;
    let mut bins: Vec<Vec<i64>> = Vec::new();
    let mut c: usize = 0;
    while c < len
        invariant
            c <= len,
            bins@.len() == c,
            forall|i: int| 0 <= i < c ==> (#[trigger] bins@[i])@ == Seq::<i64>::empty(),
        decreases len - c,
    {
        bins.push(Vec::new());
        c = c + 1;
    }
    let mut k: usize = 0;
    proof {
        assert(points@.take(0) =~= Seq::<PointRecord>::empty());
        reveal(Seq::filter);
        assert forall|i: int| 0 <= i < len implies (#[trigger] bins@[i])@ == bin(
            points@.take(0),
            *bounds,
            res as int,
            class,
            *var,
            i,
        ) by {
            assert(bin(points@.take(0), *bounds, res as int, class, *var, i) =~= Seq::<
                i64,
            >::empty());
        }
    }
    while k < points.len()
        invariant
            k <= points@.len(),
            bins@.len() == len,
            len == width * height,
            width == raster_width(*bounds, res as int),
            height == raster_height(*bounds, res as int),
            forall|i: int|
                0 <= i < len ==> (#[trigger] bins@[i])@ == bin(
                    points@.take(k as int),
                    *bounds,
                    res as int,
                    class,
                    *var,
                    i,
                ),
        decreases points@.len() - k,
    {
        let record: &PointRecord = &points[k];
        let ghost before = bins@;
        let wanted: bool = match class {
            Some(c) => record.classification() == c,
            None => true,
        };
        let place: Option<(usize, usize)> = if wanted {
            cell_index(bounds, res, record.x(), record.y())
        } else {
            None
        };
        let ghost target: int = -1;
        match place {
            Some(at) => {
                proof {
                    assert(0 <= at.1 * width) by (nonlinear_arith)
                        requires
                            0 <= at.1,
                            0 <= width,
                    ;
                    assert(at.1 * width + at.0 < width * height) by (nonlinear_arith)
                        requires
                            0 <= at.1 < height,
                            0 <= at.0 < width,
                    ;
                    target = at.1 * width + at.0;
                }
                let i: usize = at.1 * width + at.0;
                let value: i64 = get_var(var, record);
                bins[i].push(value);
            },
            None => {},
        }
        proof {
            assert(points@.take(k + 1) =~= points@.take(k as int).push(*record));
            assert forall|i: int| 0 <= i < len implies (#[trigger] bins@[i])@ == bin(
                points@.take(k + 1),
                *bounds,
                res as int,
                class,
                *var,
                i,
            ) by {
                lemma_bin_push(points@.take(k as int), *record, *bounds, res as int, class, *var, i);
                assert(before[i]@ == bin(
                    points@.take(k as int),
                    *bounds,
                    res as int,
                    class,
                    *var,
                    i,
                ));
                assert(is_binned(record@, *bounds, res as int, class, i) <==> i == target);
            }
        }
        k = k + 1;
    }
    proof {
        assert(points@.take(k as int) =~= points@);
    }
    let mut values: Vec<i64> = Vec::new();
    let mut c: usize = 0;
    while c < len
        invariant
            c <= len,
            bins@.len() == len,
            values@.len() == c,
            forall|i: int|
                0 <= i < c ==> is_cell_statistic(bins@[i]@, *func, #[trigger] values@[i] as int),
        decreases len - c,
    {
        let v: i64 = collapse(&bins[c], func);
        values.push(v);
        c = c + 1;
    }
    Ok(values)
}

} // verus!
