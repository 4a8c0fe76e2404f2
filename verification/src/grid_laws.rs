//! What holds of the grid model.

use crate::board::Direction;
use crate::grid::{
    blank_at, blank_cells, blank_grid, cell_count, columns, empty_cells, fits, has_blank,
    legal_grid, put, reads_before, rows_fit, seeded, slide, slide_rows, spawned_from, square,
    tile_count, transposed,
};
use crate::row::{legal, legal_row, move_row, occupied, tiles, Bias};
use crate::row_laws::{
    law_move_row_accounts, lemma_append_cell, lemma_blanks_hold_no_tile, lemma_move_row_legal,
    lemma_moved_row_has_blank,
};
use vstd::prelude::*;

verus! {

/// Transposing a square grid gives a square grid of the same size, and
/// transposing that gives the first grid back.
pub proof fn law_transpose_twice(g: Seq<Seq<i16>>)
    requires
        square(g),
    ensures
        square(transposed(g)),
        transposed(g).len() == g.len(),
        transposed(transposed(g)) == g,
{
    let t = transposed(g);
    assert forall|i: int| 0 <= i < g.len() implies transposed(t)[i] == g[i] by {
        assert(g[i].len() == g.len());
        assert(transposed(t)[i] =~= g[i]);
    }
    assert(transposed(t) =~= g);
}

/// The list of the empty cells of a row holds exactly the empty cells of
/// the row, from the left; with the tiles they are all the cells.
pub proof fn lemma_blank_cells(s: Seq<i16>, row: int)
    ensures
        blank_cells(s, row).len() + tiles(s).len() == s.len(),
        forall|k: int|
            0 <= k < blank_cells(s, row).len() ==> {
                let cell = #[trigger] blank_cells(s, row)[k];
                cell.0 == row && 0 <= cell.1 < s.len() && s[cell.1] == 0
            },
        forall|j: int| 0 <= j < s.len() && s[j] == 0 ==> blank_cells(s, row).contains((row, j)),
        forall|a: int, b: int|
            0 <= a < b < blank_cells(s, row).len() ==> reads_before(
                #[trigger] blank_cells(s, row)[a],
                #[trigger] blank_cells(s, row)[b],
            ),
    decreases s.len(),
{
    let list = blank_cells(s, row);
    if s.len() == 0 {
        reveal(Seq::filter);
    } else {
        let front = s.drop_last();
        let inner = blank_cells(front, row);
        lemma_blank_cells(front, row);
        assert(s == front.push(s.last()));
        front.lemma_filter_push(s.last(), occupied());
        assert forall|k: int| 0 <= k < list.len() implies {
            let cell = #[trigger] list[k];
            cell.0 == row && 0 <= cell.1 < s.len() && s[cell.1] == 0
        } by {
            if k < inner.len() {
                let cell = inner[k];
                assert(front[cell.1] == s[cell.1]);
            }
        }
        assert forall|j: int| 0 <= j < s.len() && s[j] == 0 implies list.contains((row, j)) by {
            if j < front.len() {
                assert(front[j] == s[j]);
                let k = choose|k: int| 0 <= k < inner.len() && inner[k] == (row, j);
                assert(list[k] == (row, j));
            } else {
                assert(list[list.len() - 1] == (row, j));
            }
        }
        assert forall|a: int, b: int| 0 <= a < b < list.len() implies reads_before(
            #[trigger] list[a],
            #[trigger] list[b],
        ) by {
            if b < inner.len() {
                assert(reads_before(inner[a], inner[b]));
            } else {
                assert(list[a] == inner[a]);
            }
        }
    }
}

/// The list of the empty cells of a grid holds exactly the empty cells of
/// the grid, each once, in reading order; with the tiles they are all the
/// cells.
pub proof fn lemma_empty_cells(g: Seq<Seq<i16>>)
    ensures
        empty_cells(g).len() + tile_count(g) == cell_count(g),
        forall|k: int|
            0 <= k < empty_cells(g).len() ==> {
                let cell = #[trigger] empty_cells(g)[k];
                blank_at(g, cell.0, cell.1)
            },
        forall|i: int, j: int| blank_at(g, i, j) ==> empty_cells(g).contains((i, j)),
        forall|a: int, b: int|
            0 <= a < b < empty_cells(g).len() ==> reads_before(
                #[trigger] empty_cells(g)[a],
                #[trigger] empty_cells(g)[b],
            ),
        has_blank(g) <==> empty_cells(g).len() > 0,
    decreases g.len(),
{
    let list = empty_cells(g);
    if g.len() > 0 {
        let above = g.drop_last();
        let low = g.len() - 1;
        let upper = empty_cells(above);
        let lower = blank_cells(g.last(), low);
        let m = upper.len() as int;
        lemma_empty_cells(above);
        lemma_blank_cells(g.last(), low);
        assert forall|k: int| 0 <= k < list.len() implies {
            let cell = #[trigger] list[k];
            blank_at(g, cell.0, cell.1)
        } by {
            if k < m {
                let cell = upper[k];
                assert(blank_at(above, cell.0, cell.1));
                assert(above[cell.0] == g[cell.0]);
            } else {
                let cell = lower[k - m];
                assert(cell.0 == low);
            }
        }
        assert forall|i: int, j: int| blank_at(g, i, j) implies list.contains((i, j)) by {
            if i < low {
                assert(above[i] == g[i]);
                assert(blank_at(above, i, j));
                let k = choose|k: int| 0 <= k < upper.len() && upper[k] == (i, j);
                assert(list[k] == (i, j));
            } else {
                let k = choose|k: int| 0 <= k < lower.len() && lower[k] == (i, j);
                assert(list[m + k] == (i, j));
            }
        }
        assert forall|a: int, b: int| 0 <= a < b < list.len() implies reads_before(
            #[trigger] list[a],
            #[trigger] list[b],
        ) by {
            if b < m {
                assert(reads_before(upper[a], upper[b]));
            } else if a < m {
                assert(blank_at(above, upper[a].0, upper[a].1));
                assert(lower[b - m].0 == low);
            } else {
                assert(reads_before(lower[a - m], lower[b - m]));
            }
        }
    }
    if has_blank(g) {
        let (i, j) = choose|i: int, j: int| blank_at(g, i, j);
        assert(list.contains((i, j)));
    }
    if list.len() > 0 {
        assert(blank_at(g, list[0].0, list[0].1));
    }
}

/// A grid whose rows all have the same width has as many cells as rows
/// times that width.
pub proof fn lemma_cell_count(g: Seq<Seq<i16>>, width: nat)
    requires
        forall|i: int| 0 <= i < g.len() ==> (#[trigger] g[i]).len() == width,
    ensures
        cell_count(g) == g.len() * width,
    decreases g.len(),
{
    if g.len() > 0 {
        let above = g.drop_last();
        assert forall|i: int| 0 <= i < above.len() implies (#[trigger] above[i]).len() == width by {
            assert(above[i] == g[i]);
        }
        lemma_cell_count(above, width);
        assert(g.len() * width == (g.len() - 1) * width + width) by (nonlinear_arith);
    } else {
        assert(0 * width == 0) by (nonlinear_arith);
    }
}

/// What a new value in one cell does to the number of tiles of a row.
pub proof fn lemma_row_update(s: Seq<i16>, j: int, v: i16)
    requires
        0 <= j < s.len(),
    ensures
        tiles(s.update(j, v)).len() + (if s[j] != 0 { 1int } else { 0int }) == tiles(s).len() + (if v
            != 0 { 1int } else { 0int }),
    decreases s.len(),
{
    let front = s.drop_last();
    let last = s.last();
    assert(s == front.push(last));
    lemma_append_cell(front, last);
    if j == s.len() - 1 {
        assert(s.update(j, v) == front.push(v));
        lemma_append_cell(front, v);
    } else {
        lemma_row_update(front, j, v);
        assert(s.update(j, v) == front.update(j, v).push(last));
        lemma_append_cell(front.update(j, v), last);
    }
}

/// What a new row in place of an old one does to the numbers of tiles and
/// of cells of a grid.
pub proof fn lemma_grid_update(g: Seq<Seq<i16>>, i: int, r: Seq<i16>)
    requires
        0 <= i < g.len(),
    ensures
        tile_count(g.update(i, r)) + tiles(g[i]).len() == tile_count(g) + tiles(r).len(),
        cell_count(g.update(i, r)) + g[i].len() == cell_count(g) + r.len(),
    decreases g.len(),
{
    let above = g.drop_last();
    if i == g.len() - 1 {
        assert(g.update(i, r).drop_last() == above);
    } else {
        lemma_grid_update(above, i, r);
        assert(g.update(i, r).drop_last() == above.update(i, r));
    }
}

/// A tile put on an empty cell is one tile more on a grid of the same shape.
pub proof fn lemma_put_on_blank(g: Seq<Seq<i16>>, cell: (int, int), v: i16)
    requires
        blank_at(g, cell.0, cell.1),
        v != 0,
    ensures
        tile_count(put(g, cell, v)) == tile_count(g) + 1,
        cell_count(put(g, cell, v)) == cell_count(g),
        put(g, cell, v).len() == g.len(),
        forall|i: int| 0 <= i < g.len() ==> (#[trigger] put(g, cell, v)[i]).len() == g[i].len(),
{
    lemma_row_update(g[cell.0], cell.1, v);
    lemma_grid_update(g, cell.0, g[cell.0].update(cell.1, v));
}

/// A grid whose rows are those of another, each with one more cell at its
/// end, holds the tiles of the other and those among the added cells.
proof fn lemma_widened(wide: Seq<Seq<i16>>, narrow: Seq<Seq<i16>>, added: Seq<i16>)
    requires
        wide.len() == narrow.len(),
        added.len() == narrow.len(),
        forall|j: int| 0 <= j < wide.len() ==> #[trigger] wide[j] == narrow[j].push(added[j]),
    ensures
        tile_count(wide) == tile_count(narrow) + tiles(added).len(),
    decreases wide.len(),
{
    if wide.len() == 0 {
        added.lemma_filter_len(occupied());
    } else {
        let w = wide.drop_last();
        let n = narrow.drop_last();
        let a = added.drop_last();
        assert forall|j: int| 0 <= j < w.len() implies #[trigger] w[j] == n[j].push(a[j]) by {
            assert(w[j] == wide[j]);
        }
        lemma_widened(w, n, a);
        assert(added == a.push(added.last()));
        lemma_append_cell(a, added.last());
        assert(wide.last() == wide[wide.len() - 1]);
        lemma_append_cell(narrow.last(), added.last());
    }
}

/// Reading a grid by columns finds the tiles that reading it by rows finds.
pub proof fn lemma_columns_tile_count(g: Seq<Seq<i16>>, width: nat)
    requires
        forall|i: int| 0 <= i < g.len() ==> (#[trigger] g[i]).len() == width,
    ensures
        tile_count(columns(g, width)) == tile_count(g),
    decreases g.len(),
{
    if g.len() == 0 {
        let none = columns(g, width);
        assert forall|j: int| 0 <= j < none.len() implies tiles(#[trigger] none[j]).len() == 0 by {
            none[j].lemma_filter_len(occupied());
        }
        lemma_no_tiles(none);
    } else {
        let above = g.drop_last();
        assert forall|i: int| 0 <= i < above.len() implies (#[trigger] above[i]).len() == width by {
            assert(above[i] == g[i]);
        }
        lemma_columns_tile_count(above, width);
        let wide = columns(g, width);
        let narrow = columns(above, width);
        assert forall|j: int| 0 <= j < wide.len() implies #[trigger] wide[j] == narrow[j].push(
            g.last()[j],
        ) by {
            assert(wide[j] =~= narrow[j].push(g.last()[j]));
        }
        lemma_widened(wide, narrow, g.last());
    }
}

/// Transposing a square grid keeps the numbers of its tiles and cells.
pub proof fn lemma_transposed_counts(g: Seq<Seq<i16>>)
    requires
        square(g),
    ensures
        tile_count(transposed(g)) == tile_count(g),
        cell_count(transposed(g)) == cell_count(g),
{
    lemma_columns_tile_count(g, g.len());
    lemma_cell_count(g, g.len());
    lemma_cell_count(transposed(g), g.len());
}

/// Moving the rows of a grid adds no tile and keeps the number of cells,
/// and if it changes the grid, it leaves an empty cell.
pub proof fn lemma_slide_rows_counts(g: Seq<Seq<i16>>, bias: Bias)
    requires
        rows_fit(g),
    ensures
        tile_count(slide_rows(g, bias)) <= tile_count(g),
        cell_count(slide_rows(g, bias)) == cell_count(g),
        tile_count(slide_rows(g, bias)) <= cell_count(g),
        slide_rows(g, bias) != g ==> tile_count(slide_rows(g, bias)) < cell_count(g),
    decreases g.len(),
{
    let slid = slide_rows(g, bias);
    if g.len() == 0 {
        assert(slid =~= g);
    } else {
        let above = g.drop_last();
        let last = g.last();
        assert forall|i: int| 0 <= i < above.len() implies crate::row::doubling_fits(
            tiles(#[trigger] above[i]),
        ) by {
            assert(above[i] == g[i]);
        }
        lemma_slide_rows_counts(above, bias);
        assert(slid.drop_last() =~= slide_rows(above, bias));
        assert(slid.last() == move_row(last, bias));
        law_move_row_accounts(last, bias);
        move_row(last, bias).lemma_filter_len(occupied());
        if slid != g {
            if move_row(last, bias) != last {
                lemma_moved_row_has_blank(last, bias);
            } else {
                if slide_rows(above, bias) == above {
                    assert forall|i: int| 0 <= i < g.len() implies slid[i] == g[i] by {
                        if i < above.len() {
                            assert(slid.drop_last()[i] == above[i]);
                        }
                    }
                    assert(slid =~= g);
                }
            }
        }
    }
}

/// Transposing keeps a grid legal.
pub proof fn lemma_transposed_legal(g: Seq<Seq<i16>>)
    requires
        square(g),
        legal_grid(g),
    ensures
        legal_grid(transposed(g)),
{
    let t = transposed(g);
    assert forall|j: int| 0 <= j < t.len() implies legal_row(#[trigger] t[j]) by {
        assert forall|i: int| 0 <= i < t[j].len() implies legal(#[trigger] t[j][i]) by {
            assert(legal_row(g[i]));
            assert(t[j][i] == g[i][j]);
        }
    }
}

/// Moving the rows of a square grid gives a square grid of the same size,
/// which is legal if the grid was.
pub proof fn lemma_slide_rows_shape(g: Seq<Seq<i16>>, bias: Bias)
    requires
        square(g),
        rows_fit(g),
    ensures
        square(slide_rows(g, bias)),
        slide_rows(g, bias).len() == g.len(),
        legal_grid(g) ==> legal_grid(slide_rows(g, bias)),
{
    let slid = slide_rows(g, bias);
    assert forall|i: int| 0 <= i < slid.len() implies (#[trigger] slid[i]).len() == slid.len() by {
        law_move_row_accounts(g[i], bias);
    }
    if legal_grid(g) {
        assert forall|i: int| 0 <= i < slid.len() implies legal_row(#[trigger] slid[i]) by {
            lemma_move_row_legal(g[i], bias);
        }
    }
}

/// A move of a square grid in any direction gives a square grid of the same
/// size, legal if the grid was, with no more tiles than before; and a move
/// that changes the grid leaves an empty cell on it.
pub proof fn law_slide(g: Seq<Seq<i16>>, direction: Direction)
    requires
        square(g),
        fits(g, direction),
    ensures
        square(slide(g, direction)),
        slide(g, direction).len() == g.len(),
        legal_grid(g) ==> legal_grid(slide(g, direction)),
        tile_count(slide(g, direction)) <= tile_count(g),
        slide(g, direction) != g ==> has_blank(slide(g, direction)),
{
    let bias = match direction {
        Direction::LEFT | Direction::UP => Bias::Left,
        Direction::RIGHT | Direction::DOWN => Bias::Right,
    };
    match direction {
        Direction::LEFT | Direction::RIGHT => {
            lemma_slide_rows_shape(g, bias);
            lemma_slide_rows_counts(g, bias);
            lemma_empty_cells(slide(g, direction));
        },
        Direction::UP | Direction::DOWN => {
            let t = transposed(g);
            let slid = slide_rows(t, bias);
            law_transpose_twice(g);
            lemma_transposed_counts(g);
            lemma_slide_rows_shape(t, bias);
            lemma_slide_rows_counts(t, bias);
            law_transpose_twice(slid);
            lemma_transposed_counts(slid);
            lemma_empty_cells(slide(g, direction));
            if legal_grid(g) {
                lemma_transposed_legal(g);
                lemma_transposed_legal(slid);
            }
        },
    }
}

/// A move up or down moves every column as a move left or right moves a
/// row: the cells of column `j` after the move, read from the top, are the
/// cells of the moved column.
pub proof fn law_slide_moves_columns(g: Seq<Seq<i16>>, direction: Direction, i: int, j: int)
    requires
        square(g),
        fits(g, direction),
        direction == Direction::UP || direction == Direction::DOWN,
        0 <= i < g.len(),
        0 <= j < g.len(),
    ensures
        slide(g, direction)[i][j] == move_row(
            columns(g, g.len())[j],
            if direction == Direction::UP {
                Bias::Left
            } else {
                Bias::Right
            },
        )[i],
{
    let bias = if direction == Direction::UP {
        Bias::Left
    } else {
        Bias::Right
    };
    law_transpose_twice(g);
    lemma_slide_rows_shape(transposed(g), bias);
}

/// A grid without a tile has only empty cells.
pub proof fn lemma_blank_grid(side: nat)
    ensures
        square(blank_grid(side)),
        legal_grid(blank_grid(side)),
        blank_grid(side).len() == side,
        tile_count(blank_grid(side)) == 0,
        empty_cells(blank_grid(side)).len() == side * side,
{
    let g = blank_grid(side);
    lemma_blanks_hold_no_tile(side);
    lemma_no_tiles(g);
    lemma_cell_count(g, side);
    lemma_empty_cells(g);
}

/// A grid of rows without tiles holds no tile.
proof fn lemma_no_tiles(g: Seq<Seq<i16>>)
    requires
        forall|i: int| 0 <= i < g.len() ==> tiles(#[trigger] g[i]).len() == 0,
    ensures
        tile_count(g) == 0,
    decreases g.len(),
{
    if g.len() > 0 {
        let above = g.drop_last();
        assert forall|i: int| 0 <= i < above.len() implies tiles(#[trigger] above[i]).len() == 0 by {
            assert(above[i] == g[i]);
        }
        lemma_no_tiles(above);
    }
}

/// A new tile on a grid of cells that hold 0, 2 or 4 leaves such a grid.
pub proof fn lemma_spawn_on_seeded(g: Seq<Seq<i16>>, after: Seq<Seq<i16>>)
    requires
        seeded(g),
        spawned_from(g, after) || after == g,
    ensures
        seeded(after),
{
    if after != g {
        let (r, c, v) = choose|i: int, j: int, v: i16|
            blank_at(g, i, j) && (v == 2 || v == 4) && after == #[trigger] put(g, (i, j), v);
        assert forall|i: int, j: int| 0 <= i < after.len() && 0 <= j < after[i].len() implies {
            let w = #[trigger] after[i][j];
            w == 0 || w == 2 || w == 4
        } by {
            if i != r || j != c {
                assert(after[i][j] == g[i][j]);
            }
        }
    }
}

} // verus!
