//! A chart of the daily series drawn with characters.

use crate::trend::{series_max, series_min};
use vstd::prelude::*;
use vstd::string::*;

verus! {

/// The row up to which the column of a value is filled, where the least value
/// of the series fills row 0 only and the greatest fills all `height` rows:
/// the value's share of the spread times `height - 1`, rounded to the nearest
/// row, a half upwards.
pub open spec fn level(v: u64, min: u64, max: u64, height: usize) -> int {
    let scaled = (v - min) * (height - 1);
    let spread = max - min;
    scaled / spread + if 2 * (scaled % spread) >= spread {
        1int
    } else {
        0int
    }
}

/// One row of the chart: a block in each column that is filled up to `row`, else a space.
pub open spec fn row_cells(vals: Seq<u64>, min: u64, max: u64, height: usize, row: int) -> Seq<char> {
    Seq::new(
        vals.len(),
        |i: int|
            if level(vals[i], min, max, height) >= row {
                '\u{2588}'
            } else {
                ' '
            },
    )
}

/// The rows from `top` down to row 0, each with its line feed.
pub open spec fn rows_from(vals: Seq<u64>, min: u64, max: u64, height: usize, top: int) -> Seq<char>
    decreases top + 1,
{
    if top < 0 {
        Seq::empty()
    } else {
        row_cells(vals, min, max, height, top) + seq!['\n'] + rows_from(
            vals,
            min,
            max,
            height,
            top - 1,
        )
    }
}

/// The line under the chart: a tick at every fifth column.
pub open spec fn baseline(n: nat) -> Seq<char> {
    Seq::new(
        n,
        |i: int|
            if i % 5 == 0 {
                '|'
            } else {
                '-'
            },
    )
}

/// The chart of a series, `height` rows high. Nothing for an empty series or
/// no rows; one line of low blocks where all values are equal.
pub open spec fn area_chart(vals: Seq<u64>, height: usize) -> Seq<char> {
    if vals.len() == 0 || height == 0 {
        Seq::empty()
    } else if series_max(vals) == series_min(vals) {
        Seq::new(vals.len(), |i: int| '\u{2581}')
    } else {
        rows_from(vals, series_min(vals), series_max(vals), height, height - 1) + baseline(
            vals.len(),
        )
    }
}

fn extremes(vals: &Vec<u64>) -> (res: (u64, u64))
    requires
        vals.len() > 0,
    ensures
        res.0 == series_min(vals@),
        res.1 == series_max(vals@),
{
    let mut min: u64 = vals[0];
    let mut max: u64 = vals[0];
    let mut i: usize = 1;
    assert(vals@.take(1).drop_last().len() == 0);
    while i < vals.len()
        invariant
            1 <= i <= vals.len(),
            min == series_min(vals@.take(i as int)),
            max == series_max(vals@.take(i as int)),
        decreases vals.len() - i,
    {
        proof {
            let next = vals@.take(i + 1);
            assert(next.drop_last() =~= vals@.take(i as int));
            assert(next.last() == vals@[i as int]);
        }
        if vals[i] <= min {
            min = vals[i];
        }
        if vals[i] >= max {
            max = vals[i];
        }
        i += 1;
    }
    assert(vals@.take(i as int) =~= vals@);
    (min, max)
}

fn level_of(v: u64, min: u64, max: u64, height: usize) -> (res: u128)
    requires
        min <= v,
        min < max,
        height > 0,
    ensures
        res == level(v, min, max, height),
{
    let spread: u128 = (max - min) as u128;
    assert((v - min) * (height - 1) <= u64::MAX * usize::MAX) by (nonlinear_arith)
        requires
            0 <= v - min <= u64::MAX,
            0 <= height - 1 <= usize::MAX,
    ;
    let scaled: u128 = (v - min) as u128 * (height - 1) as u128;
    let whole: u128 = scaled / spread;
    if 2 * (scaled % spread) >= spread {
        whole + 1
    } else {
        whole
    }
}

/// Draws the chart of a series.
pub fn ascii_area(vals: &Vec<u64>, height: usize) -> (res: String)
    ensures
        res@ == area_chart(vals@, height),
{
    let mut out = String::new();
    let n = vals.len();
    if n == 0 || height == 0 {
        return out;
    }
    let (min, max) = extremes(vals);
    proof {
        crate::trend::lemma_series_bounds(vals@);
    }
    if max == min {
        let mut i: usize = 0;
        while i < n
            invariant
                i <= n,
                out@ == Seq::new(i as nat, |k: int| '\u{2581}'),
            decreases n - i,
        {
            proof {
                reveal_strlit("\u{2581}");
            }
            out.append("\u{2581}");
            i += 1;
            assert(out@ =~= Seq::new(i as nat, |k: int| '\u{2581}'));
        }
        return out;
    }
    let mut levels: Vec<u128> = Vec::new();
    let mut i: usize = 0;
    while i < n
        invariant
            i <= n,
            n == vals.len(),
            min < max,
            height > 0,
            levels.len() == i,
            forall|k: int| 0 <= k < n ==> min <= #[trigger] vals[k],
            forall|k: int| 0 <= k < i ==> #[trigger] levels[k] == level(vals[k], min, max, height),
        decreases n - i,
    {
        levels.push(level_of(vals[i], min, max, height));
        i += 1;
    }
    let mut row: usize = height;
    assert(out@ + rows_from(vals@, min, max, height, height - 1) =~= rows_from(
        vals@,
        min,
        max,
        height,
        height - 1,
    ));
    while row > 0
        invariant
            row <= height,
            n == vals.len(),
            levels.len() == n,
            forall|k: int| 0 <= k < n ==> #[trigger] levels[k] == level(vals[k], min, max, height),
            out@ + rows_from(vals@, min, max, height, row - 1) == rows_from(
                vals@,
                min,
                max,
                height,
                height - 1,
            ),
        decreases row,
    {
        row -= 1;
        let ghost before = out@;
        let mut col: usize = 0;
        assert(out@ =~= before + row_cells(vals@, min, max, height, row as int).take(0));
        while col < n
            invariant
                col <= n,
                n == vals.len(),
                levels.len() == n,
                forall|k: int|
                    0 <= k < n ==> #[trigger] levels[k] == level(vals[k], min, max, height),
                out@ == before + row_cells(vals@, min, max, height, row as int).take(col as int),
            decreases n - col,
        {
            proof {
                reveal_strlit("\u{2588}");
                reveal_strlit(" ");
            }
            if levels[col] >= row as u128 {
                out.append("\u{2588}");
            } else {
                out.append(" ");
            }
            col += 1;
            assert(out@ =~= before + row_cells(vals@, min, max, height, row as int).take(
                col as int,
            ));
        }
        proof {
            reveal_strlit("\n");
            assert(row_cells(vals@, min, max, height, row as int).take(n as int) =~= row_cells(
                vals@,
                min,
                max,
                height,
                row as int,
            ));
        }
        out.append("\n");
        assert(out@ + rows_from(vals@, min, max, height, row - 1) =~= before + rows_from(
            vals@,
            min,
            max,
            height,
            row as int,
        ));
    }
    let ghost grid = out@;
    assert(grid =~= rows_from(vals@, min, max, height, height - 1));
    let mut col: usize = 0;
    while col < n
        invariant
            col <= n,
            out@ == grid + baseline(n as nat).take(col as int),
        decreases n - col,
    {
        proof {
            reveal_strlit("|");
            reveal_strlit("-");
        }
        if col % 5 == 0 {
            out.append("|");
        } else {
            out.append("-");
        }
        col += 1;
        assert(out@ =~= grid + baseline(n as nat).take(col as int));
    }
    assert(baseline(n as nat).take(n as int) =~= baseline(n as nat));
    out
}

} // verus!
