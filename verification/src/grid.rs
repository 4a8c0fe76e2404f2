//! The grid as a sequence of rows: what it means to transpose it, to move
//! all its rows, to count its tiles and to list its empty cells.

use crate::board::Direction;
use crate::row::{
    blanks, doubling_fits, is_legal, legal, legal_row, merges_fit, move_row, tiles, Bias,
};
use vstd::prelude::*;

verus! {

/// The rows of a grid, each as the sequence of its cells.
pub open spec fn cells(items: Vec<Vec<i16>>) -> Seq<Seq<i16>> {
    Seq::new(items@.len(), |i: int| items@[i]@)
}

/// Every row is as long as the grid has rows.
pub open spec fn square(g: Seq<Seq<i16>>) -> bool {
    forall|i: int| 0 <= i < g.len() ==> (#[trigger] g[i]).len() == g.len()
}

/// Every cell of the grid holds a legal value.
pub open spec fn legal_grid(g: Seq<Seq<i16>>) -> bool {
    forall|i: int| 0 <= i < g.len() ==> legal_row(#[trigger] g[i])
}

/// The square grid of the given side without a tile.
pub open spec fn blank_grid(side: nat) -> Seq<Seq<i16>> {
    Seq::new(side, |i: int| blanks(side))
}

/// The first `width` columns of a grid, each read from the top as a row.
pub open spec fn columns(g: Seq<Seq<i16>>, width: nat) -> Seq<Seq<i16>> {
    Seq::new(width, |j: int| Seq::new(g.len(), |i: int| g[i][j]))
}

/// The grid with rows and columns exchanged: cell `(j, i)` of the result is
/// cell `(i, j)` of a square grid.
pub open spec fn transposed(g: Seq<Seq<i16>>) -> Seq<Seq<i16>> {
    columns(g, g.len())
}

/// The grid in which every row has made its move toward the bias end.
pub open spec fn slide_rows(g: Seq<Seq<i16>>, bias: Bias) -> Seq<Seq<i16>> {
    Seq::new(g.len(), |i: int| move_row(g[i], bias))
}

/// The grid after the tiles have moved in the given direction: rows move
/// left or right as they are, columns move up or down as the rows of the
/// transposed grid move left or right.
pub open spec fn slide(g: Seq<Seq<i16>>, direction: Direction) -> Seq<Seq<i16>> {
    match direction {
        Direction::LEFT => slide_rows(g, Bias::Left),
        Direction::RIGHT => slide_rows(g, Bias::Right),
        Direction::UP => transposed(slide_rows(transposed(g), Bias::Left)),
        Direction::DOWN => transposed(slide_rows(transposed(g), Bias::Right)),
    }
}

/// In every row, every merge that a move performs fits.
pub open spec fn rows_fit(g: Seq<Seq<i16>>) -> bool {
    forall|i: int| 0 <= i < g.len() ==> doubling_fits(tiles(#[trigger] g[i]))
}

/// Every merge that a move in the given direction performs gives an `i16`.
pub open spec fn fits(g: Seq<Seq<i16>>, direction: Direction) -> bool {
    match direction {
        Direction::LEFT | Direction::RIGHT => rows_fit(g),
        Direction::UP | Direction::DOWN => rows_fit(transposed(g)),
    }
}

/// The number of cells of the grid.
pub open spec fn cell_count(g: Seq<Seq<i16>>) -> nat
    decreases g.len(),
{
    if g.len() == 0 {
        0
    } else {
        cell_count(g.drop_last()) + g.last().len()
    }
}

/// The number of tiles on the grid.
pub open spec fn tile_count(g: Seq<Seq<i16>>) -> nat
    decreases g.len(),
{
    if g.len() == 0 {
        0
    } else {
        tile_count(g.drop_last()) + tiles(g.last()).len()
    }
}

/// The cell in row `i` and column `j` lies on the grid and is empty.
pub open spec fn blank_at(g: Seq<Seq<i16>>, i: int, j: int) -> bool {
    0 <= i < g.len() && 0 <= j < g[i].len() && g[i][j] == 0
}

/// The grid has an empty cell.
pub open spec fn has_blank(g: Seq<Seq<i16>>) -> bool {
    exists|i: int, j: int| blank_at(g, i, j)
}

/// The empty cells of row number `row`, from the left, each as the pair of
/// its row and its column.
pub open spec fn blank_cells(s: Seq<i16>, row: int) -> Seq<(int, int)>
    decreases s.len(),
{
    if s.len() == 0 {
        Seq::empty()
    } else if s.last() == 0 {
        blank_cells(s.drop_last(), row).push((row, s.len() - 1))
    } else {
        blank_cells(s.drop_last(), row)
    }
}

/// The empty cells of the grid in reading order: row by row from the top,
/// each row from the left.
pub open spec fn empty_cells(g: Seq<Seq<i16>>) -> Seq<(int, int)>
    decreases g.len(),
{
    if g.len() == 0 {
        Seq::empty()
    } else {
        empty_cells(g.drop_last()) + blank_cells(g.last(), g.len() - 1)
    }
}

/// The place `a` comes before the place `b` in reading order.
pub open spec fn reads_before(a: (int, int), b: (int, int)) -> bool {
    a.0 < b.0 || (a.0 == b.0 && a.1 < b.1)
}

/// A list of places on the grid, as pairs of a row and a column.
pub open spec fn places(list: Seq<(usize, usize)>) -> Seq<(int, int)> {
    Seq::new(list.len(), |k: int| (list[k].0 as int, list[k].1 as int))
}

/// The grid with the value `v` in the given cell.
pub open spec fn put(g: Seq<Seq<i16>>, cell: (int, int), v: i16) -> Seq<Seq<i16>> {
    g.update(cell.0, g[cell.0].update(cell.1, v))
}

/// The value of a new tile for a roll of the dice out of a hundred: four
/// rolls in five give a 2, the others a 4.
pub open spec fn spawn_value(roll: int) -> i16 {
    if roll < 80 {
        2
    } else {
        4
    }
}

/// The grid `after` is the grid `g` with a 2 or a 4 on one of its empty
/// cells.
pub open spec fn spawned_from(g: Seq<Seq<i16>>, after: Seq<Seq<i16>>) -> bool {
    exists|i: int, j: int, v: i16|
        blank_at(g, i, j) && (v == 2 || v == 4) && after == #[trigger] put(g, (i, j), v)
}

/// Every cell holds 0, 2 or 4.
pub open spec fn seeded(g: Seq<Seq<i16>>) -> bool {
    forall|i: int, j: int|
        0 <= i < g.len() && 0 <= j < g[i].len() ==> {
            let v = #[trigger] g[i][j];
            v == 0 || v == 2 || v == 4
        }
}

/// Transposes a square grid into a new one.
pub fn transpose(src: &Vec<Vec<i16>>) -> (result: Vec<Vec<i16>>)
    requires
        square(cells(*src)),
    ensures
        cells(result) == transposed(cells(*src)),
{
    let n = src.len();
    let mut result: Vec<Vec<i16>> = Vec::new();
    let mut j: usize = 0;
    while j < n
        invariant
            j <= n,
            n == src@.len(),
            square(cells(*src)),
            result@.len() == j,
            forall|k: int| 0 <= k < j ==> (#[trigger] result@[k])@ == transposed(cells(*src))[k],
        decreases n - j,
    {
        let mut column: Vec<i16> = Vec::new();
        let mut i: usize = 0;
        while i < n
            invariant
                i <= n,
                j < n,
                n == src@.len(),
                square(cells(*src)),
                column@.len() == i,
                forall|k: int| 0 <= k < i ==> column@[k] == #[trigger] src@[k]@[j as int],
            decreases n - i,
        {
            assert(cells(*src)[i as int].len() == n);
            column.push(src[i][j]);
            i += 1;
        }
        assert(column@ == transposed(cells(*src))[j as int]);
        result.push(column);
        j += 1;
    }
    assert(cells(result) == transposed(cells(*src)));
    result
}

/// Tells whether, in every row, every merge that a move performs gives an
/// `i16`.
pub fn rows_merge_fit(items: &Vec<Vec<i16>>) -> (ok: bool)
    ensures
        ok == rows_fit(cells(*items)),
{
    let n = items.len();
    let mut i: usize = 0;
    while i < n
        invariant
            i <= n,
            n == items@.len(),
            forall|k: int| 0 <= k < i ==> doubling_fits(tiles(#[trigger] cells(*items)[k])),
        decreases n - i,
    {
        if !merges_fit(&items[i]) {
            assert(!doubling_fits(tiles(cells(*items)[i as int])));
            return false;
        }
        i += 1;
    }
    true
}

/// Tells whether the rows make a square grid of legal values.
pub fn is_legal_square(items: &Vec<Vec<i16>>) -> (ok: bool)
    ensures
        ok == (square(cells(*items)) && legal_grid(cells(*items))),
{
    let n = items.len();
    let mut i: usize = 0;
    while i < n
        invariant
            i <= n,
            n == items@.len(),
            forall|k: int| 0 <= k < i ==> (#[trigger] cells(*items)[k]).len() == n,
            forall|k: int| 0 <= k < i ==> legal_row(#[trigger] cells(*items)[k]),
        decreases n - i,
    {
        let row = &items[i];
        if row.len() != n {
            assert(cells(*items)[i as int].len() != n);
            return false;
        }
        let mut j: usize = 0;
        while j < n
            invariant
                j <= n,
                n == row@.len(),
                i < items@.len(),
                row@ == cells(*items)[i as int],
                forall|k: int| 0 <= k < j ==> legal(#[trigger] row@[k]),
            decreases n - j,
        {
            if !is_legal(row[j]) {
                assert(!legal(cells(*items)[i as int][j as int]));
                return false;
            }
            j += 1;
        }
        i += 1;
    }
    true
}

} // verus!
