//! The layout of names in columns on a terminal: which name goes where, and
//! how much room follows it.

use vstd::prelude::*;

verus! {

/// One place of the grid: the name that stands there, by its index, and the
/// number of blanks after it.
#[derive(Debug, Clone, Copy, PartialEq, Eq)]
pub struct Cell {
    pub index: usize,
    pub padding: usize,
}

/// The width of a column: what is left of the terminal once two blanks per
/// column are set aside, shared out evenly.
pub open spec fn column_width(term_width: int, num_cols: int) -> int {
    if term_width >= 2 * num_cols {
        (term_width - 2 * num_cols) / num_cols
    } else {
        0
    }
}

/// The number of rows that `total` names take in `num_cols` columns.
pub open spec fn row_count(total: int, num_cols: int) -> int {
    if total <= 0 {
        0
    } else {
        (total - 1) / num_cols + 1
    }
}

/// The blanks after a name of length `len` in a column of width `width`:
/// what fills the column, and two at the least.
pub open spec fn padding_for(width: int, len: int) -> int {
    if width - len > 2 {
        width - len
    } else {
        2
    }
}

/// Whether `rows` lays out names of the given lengths in `num_cols` columns
/// on a terminal of width `term_width`. The names run down the first
/// column, then down the second, and so on: row `r` holds, at column `c`,
/// the name of index `r + c * rows.len()`, as long as there is one.
pub open spec fn lays_out(
    rows: Seq<Seq<Cell>>,
    lengths: Seq<usize>,
    num_cols: int,
    term_width: int,
) -> bool {
    &&& rows.len() == row_count(lengths.len() as int, num_cols)
    &&& forall|r: int|
        0 <= r < rows.len() ==> r + (#[trigger] rows[r]).len() * rows.len() >= lengths.len()
    &&& forall|r: int, c: int|
        0 <= r < rows.len() && 0 <= c < rows[r].len() ==> {
            let cell = #[trigger] rows[r][c];
            &&& cell.index == r + c * rows.len()
            &&& cell.index < lengths.len()
            &&& cell.padding == padding_for(
                column_width(term_width, num_cols),
                lengths[cell.index as int] as int,
            )
        }
}

/// What a vector of rows holds.
pub open spec fn rows_of(rows: Seq<Vec<Cell>>) -> Seq<Seq<Cell>> {
    rows.map_values(|row: Vec<Cell>| row@)
}

/// Lays out names of the given lengths in `num_cols` columns on a terminal
/// of width `term_width`. There has to be a column.
pub fn grid(lengths: &Vec<usize>, num_cols: usize, term_width: usize) -> (rows: Vec<Vec<Cell>>)
    requires
        num_cols > 0,
    ensures
        lays_out(rows_of(rows@), lengths@, num_cols as int, term_width as int),
{
    let total = lengths.len();
    let width: usize = if num_cols <= usize::MAX / 2 && term_width >= 2 * num_cols {
        (term_width - 2 * num_cols) / num_cols
    } else {
        0
    };
    let count: usize = if total == 0 {
        0
    } else {
        assert((total - 1) / (num_cols as int) <= total - 1) by (nonlinear_arith)
            requires
                num_cols >= 1,
                total >= 1,
        ;
        (total - 1) / num_cols + 1
    };
    let mut rows: Vec<Vec<Cell>> = Vec::new();
    let mut r: usize = 0;
    while r < count
        invariant
            r <= count,
            total == lengths@.len(),
            num_cols > 0,
            count == row_count(total as int, num_cols as int),
            width == column_width(term_width as int, num_cols as int),
            rows@.len() == r,
            forall|k: int| 0 <= k < r ==> k + (#[trigger] rows@[k])@.len() * count >= total,
            forall|k: int, c: int|
                0 <= k < r && 0 <= c < rows@[k]@.len() ==> {
                    let cell = #[trigger] rows@[k]@[c];
                    &&& cell.index == k + c * count
                    &&& cell.index < total
                    &&& cell.padding == padding_for(width as int, lengths@[cell.index as int] as int)
                },
        decreases count - r,
    {
        let mut row: Vec<Cell> = Vec::new();
        let mut index: usize = r;
        assert(0 * count == 0) by (nonlinear_arith);
        while index < total
            invariant
                r < count,
                total == lengths@.len(),
                index < total ==> index == r + row@.len() * count,
                index >= total ==> r + row@.len() * count >= total,
                forall|c: int|
                    0 <= c < row@.len() ==> {
                        let cell = #[trigger] row@[c];
                        &&& cell.index == r + c * count
                        &&& cell.index < total
                        &&& cell.padding == padding_for(
                            width as int,
                            lengths@[cell.index as int] as int,
                        )
                    },
            decreases total - index,
        {
            let len = lengths[index];
            let padding: usize = if width > len && width - len > 2 {
                width - len
            } else {
                2
            };
            let ghost before = row@.len() as int;
            row.push(Cell { index, padding });
            assert((before + 1) * count == before * count + count) by (nonlinear_arith);
            if count >= total - index {
                index = total;
            } else {
                index = index + count;
            }
        }
        let ghost before = rows@;
        rows.push(row);
        proof {
            assert forall|k: int| 0 <= k < r + 1 implies k + (#[trigger] rows@[k])@.len() * count
                >= total by {
                if k < r {
                    assert(rows@[k] == before[k]);
                }
            }
            assert forall|k: int, c: int| 0 <= k < r + 1 && 0 <= c < rows@[k]@.len() implies {
                let cell = #[trigger] rows@[k]@[c];
                &&& cell.index == k + c * count
                &&& cell.index < total
                &&& cell.padding == padding_for(width as int, lengths@[cell.index as int] as int)
            } by {
                if k < r {
                    assert(rows@[k] == before[k]);
                }
            }
        }
        r += 1;
    }
    proof {
        let laid = rows_of(rows@);
        assert forall|k: int| 0 <= k < laid.len() implies k + (#[trigger] laid[k]).len()
            * laid.len() >= lengths@.len() by {
            assert(laid[k] == rows@[k]@);
        }
        assert forall|k: int, c: int| 0 <= k < laid.len() && 0 <= c < laid[k].len() implies {
            let cell = #[trigger] laid[k][c];
            &&& cell.index == k + c * laid.len()
            &&& cell.index < lengths@.len()
            &&& cell.padding == padding_for(
                column_width(term_width as int, num_cols as int),
                lengths@[cell.index as int] as int,
            )
        } by {
            assert(laid[k] == rows@[k]@);
            assert(laid[k][c] == rows@[k]@[c]);
        }
    }
    rows
}

} // verus!
