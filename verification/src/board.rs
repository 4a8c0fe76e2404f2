//! The board of the game: a square grid of tiles that is moved in one of
//! four directions and receives a new tile after every move that changed it.

use crate::grid::{
    blank_cells, blank_grid, cells, empty_cells, fits, has_blank, is_legal_square, legal_grid,
    places, put, rows_fit, rows_merge_fit, seeded, slide, slide_rows, spawn_value, spawned_from,
    square, tile_count, transpose, transposed,
};
use crate::grid_laws::{
    law_slide, law_transpose_twice, lemma_blank_grid, lemma_cell_count, lemma_empty_cells,
    lemma_put_on_blank, lemma_spawn_on_seeded, lemma_transposed_legal,
};
use crate::random::random_below;
use crate::row::{blanks, legal, legal_row, move_row, to_left, to_right, Bias};
use crate::row_laws::{law_move_row_accounts, lemma_move_row_legal, lemma_seeds_are_legal};
use vstd::prelude::*;

verus! {

/// The direction of a move.
#[allow(non_camel_case_types)]
#[derive(Debug, Clone, Copy, PartialEq, Eq, Structural)]
pub enum Direction {
    UP,
    DOWN,
    RIGHT,
    LEFT,
}

/// A square grid of cells, each empty or holding a tile, together with the
/// mark that the last move changed it.
#[derive(Debug)]
pub struct Board {
    items: Vec<Vec<i16>>,
    modified: bool,
    size: u16,
}

impl View for Board {
    type V = Seq<Seq<i16>>;

    /// The rows of the board from the top, each from the left.
    closed spec fn view(&self) -> Seq<Seq<i16>> {
        cells(self.items)
    }
}

impl Board {
    /// The number of rows, and of columns, that the board was made with.
    pub closed spec fn side(&self) -> nat {
        self.size as nat
    }

    /// The mark that a move has changed the board and no tile has been
    /// added since.
    pub closed spec fn changed(&self) -> bool {
        self.modified
    }

    /// The board is a square of its side, and every cell holds 0 or a tile.
    pub open spec fn wf(&self) -> bool {
        &&& self@.len() == self.side()
        &&& square(self@)
        &&& legal_grid(self@)
    }

    /// A board of `s` rows and `s` columns on which two tiles, each a 2 or a
    /// 4, lie on cells chosen at random; or as many as it has room for.
    pub fn new(s: u16) -> (board: Board)
        ensures
            board.wf(),
            board.side() == s,
            !board.changed(),
            s == 0 ==> board@ == blank_grid(0),
            s == 1 ==> spawned_from(blank_grid(1), board@),
            s >= 2 ==> exists|first: Seq<Seq<i16>>|
                spawned_from(blank_grid(s as nat), first) && #[trigger] spawned_from(first, board@),
            tile_count(board@) == if s >= 2 { 2int } else { s as int },
            seeded(board@),
    {
        let n = s as usize;
        let mut items: Vec<Vec<i16>> = Vec::new();
        let mut i: usize = 0;
        while i < n
            invariant
                i <= n,
                items@.len() == i,
                forall|k: int| 0 <= k < i ==> (#[trigger] items@[k])@ == blanks(n as nat),
            decreases n - i,
        {
            let row: Vec<i16> = vec![0; n];
            assert(row@ == blanks(n as nat));
            items.push(row);
            i += 1;
        }
        let mut matrix = Board { items, modified: false, size: s };
        let ghost blank = blank_grid(s as nat);
        let ghost area = (s as nat) * (s as nat);
        proof {
            assert(matrix@ == blank);
            lemma_blank_grid(s as nat);
            assert(s == 0 ==> area == 0) by (nonlinear_arith)
                requires
                    area == s * s,
            ;
            assert(s == 1 ==> area == 1) by (nonlinear_arith)
                requires
                    area == s * s,
            ;
            assert(s >= 2 ==> area >= 4) by (nonlinear_arith)
                requires
                    area == s * s,
            ;
        }
        matrix.add_random(true);
        let ghost first = matrix@;
        proof {
            lemma_empty_cells(first);
            lemma_cell_count(first, s as nat);
            assert(empty_cells(first).len() + tile_count(first) == area);
            lemma_spawn_on_seeded(blank, first);
        }
        matrix.add_random(true);
        proof {
            lemma_spawn_on_seeded(first, matrix@);
        }
        return matrix;
    }

    /// Moves the tiles in the given direction and, if that changed the
    /// board, adds one tile on an empty cell chosen at random.
    pub fn shift(&mut self, direction: Direction)
        requires
            old(self).wf(),
            fits(old(self)@, direction),
        ensures
            final(self).wf(),
            final(self).side() == old(self).side(),
            !final(self).changed(),
            ({
                let slid = slide(old(self)@, direction);
                let count = tile_count(final(self)@);
                &&& slid == old(self)@ ==> final(self)@ == old(self)@
                &&& slid != old(self)@ ==> spawned_from(slid, final(self)@)
                &&& count == tile_count(slid) || count == tile_count(slid) + 1
                &&& count == tile_count(slid) + 1 <==> slid != old(self)@ && has_blank(slid)
                &&& count <= tile_count(old(self)@) + 1
            }),
    {
        proof {
            law_slide(self@, direction);
            law_transpose_twice(self@);
        }
        match direction {
            Direction::UP => {
                let mut flipped = self.transposed();
                self.modified = shift_rows(&mut flipped, Bias::Left);
                proof {
                    law_transpose_twice(flipped@);
                }
                self.items = flipped.transposed().items;
                self.add_random(false);
            },
            Direction::DOWN => {
                let mut flipped = self.transposed();
                self.modified = shift_rows(&mut flipped, Bias::Right);
                proof {
                    law_transpose_twice(flipped@);
                }
                self.items = flipped.transposed().items;
                self.add_random(false);
            },
            Direction::RIGHT => {
                let moved = shift_rows(self, Bias::Right);
                self.modified = moved;
                self.add_random(false);
            },
            Direction::LEFT => {
                let moved = shift_rows(self, Bias::Left);
                self.modified = moved;
                self.add_random(false);
            },
        };
    }

    /// A new board that holds the transposed grid, with the mark cleared.
    pub fn transposed(&self) -> (flipped: Board)
        requires
            self.wf(),
        ensures
            flipped.wf(),
            flipped.side() == self.side(),
            flipped@ == transposed(self@),
            !flipped.changed(),
    {
        proof {
            law_transpose_twice(self@);
            lemma_transposed_legal(self@);
        }
        Board { items: transpose(&self.items), modified: false, size: self.size }
    }

    /// A board that holds the given rows, each from the left, if they make
    /// a square grid of legal values with no more rows than a board can
    /// count.
    pub fn from_rows(rows: Vec<Vec<i16>>) -> (made: Option<Board>)
        ensures
            made is Some <==> rows@.len() <= u16::MAX && square(cells(rows)) && legal_grid(
                cells(rows),
            ),
            made matches Some(board) ==> board.wf() && board@ == cells(rows) && board.side()
                == rows@.len() && !board.changed(),
    {
        let n = rows.len();
        if n > 65535 || !is_legal_square(&rows) {
            return None;
        }
        Some(Board { items: rows, modified: false, size: n as u16 })
    }

    /// The number of rows, and of columns, of the board.
    pub fn size(&self) -> (s: u16)
        ensures
            s == self.side(),
    {
        self.size
    }

    /// Tells whether the board can be moved in the given direction without
    /// a merge whose sum is too large for a cell.
    pub fn can_shift(&self, direction: Direction) -> (ok: bool)
        requires
            self.wf(),
        ensures
            ok == fits(self@, direction),
    {
        match direction {
            Direction::LEFT | Direction::RIGHT => rows_merge_fit(&self.items),
            Direction::UP | Direction::DOWN => {
                let flipped = transpose(&self.items);
                rows_merge_fit(&flipped)
            },
        }
    }

    /// The rows of the board, for reading.
    pub fn items(&self) -> (items: &Vec<Vec<i16>>)
        ensures
            cells(*items) == self@,
    {
        &self.items
    }

    /// Lists the empty cells of the board in reading order.
    pub fn empty_cells(&self) -> (free: Vec<(usize, usize)>)
        ensures
            places(free@) == empty_cells(self@),
    {
        let n = self.items.len();
        let mut free: Vec<(usize, usize)> = Vec::new();
        let mut i: usize = 0;
        assert(self@.take(0) == Seq::<Seq<i16>>::empty());
        assert(places(free@) == empty_cells(self@.take(0)));
        while i < n
            invariant
                i <= n,
                n == self.items@.len(),
                places(free@) == empty_cells(self@.take(i as int)),
            decreases n - i,
        {
            let row = &self.items[i];
            let m = row.len();
            let mut j: usize = 0;
            let ghost above = empty_cells(self@.take(i as int));
            assert(row@.take(0) == Seq::<i16>::empty());
            assert(places(free@) == above + blank_cells(row@.take(0), i as int));
            while j < m
                invariant
                    j <= m,
                    m == row@.len(),
                    places(free@) == above + blank_cells(row@.take(j as int), i as int),
                decreases m - j,
            {
                let ghost before = free@;
                let ghost part = blank_cells(row@.take(j as int), i as int);
                assert(row@.take(j + 1).drop_last() == row@.take(j as int));
                if row[j] == 0 {
                    free.push((i, j));
                    assert(places(free@) == places(before).push((i as int, j as int)));
                    assert(above + part.push((i as int, j as int)) == (above + part).push(
                        (i as int, j as int),
                    ));
                }
                j += 1;
            }
            assert(row@.take(m as int) == row@);
            assert(self@.take(i + 1).drop_last() == self@.take(i as int));
            i += 1;
        }
        assert(self@.take(n as int) == self@);
        free
    }

    /// Puts a new tile on the empty cell of number `pick` in reading order,
    /// counted from 0; `roll` decides its value. Does nothing where the
    /// board has no such empty cell, and tells so.
    pub fn spawn_at(&mut self, pick: usize, roll: usize) -> (spawned: bool)
        requires
            old(self).wf(),
        ensures
            final(self).wf(),
            final(self).side() == old(self).side(),
            final(self).changed() == old(self).changed(),
            spawned == (pick < empty_cells(old(self)@).len()),
            spawned ==> final(self)@ == put(
                old(self)@,
                empty_cells(old(self)@)[pick as int],
                spawn_value(roll as int),
            ),
            !spawned ==> final(self)@ == old(self)@,
    {
        let free = self.empty_cells();
        if pick < free.len() {
            let (r, c) = free[pick];
            let value: i16 = if roll < 80 {
                2
            } else {
                4
            };
            proof {
                lemma_empty_cells(self@);
                lemma_seeds_are_legal();
                assert(places(free@)[pick as int] == (r as int, c as int));
            }
            self.items[r][c] = value;
            proof {
                let cell = (r as int, c as int);
                let after = put(old(self)@, cell, value);
                assert(self@ =~= after);
                lemma_put_on_blank(old(self)@, cell, value);
                assert forall|i: int| 0 <= i < after.len() implies legal_row(#[trigger] after[i]) by {
                    assert(legal_row(old(self)@[i]));
                }
            }
            true
        } else {
            false
        }
    }

    /// Adds a tile on an empty cell chosen at random, a 2 four times out of
    /// five and else a 4, if the last move changed the board or
    /// `is_override` is set, and clears the mark of the last move. A board
    /// without an empty cell gets no tile. Tells whether a tile was added.
    pub fn add_random(&mut self, is_override: bool) -> (spawned: bool)
        requires
            old(self).wf(),
        ensures
            final(self).wf(),
            final(self).side() == old(self).side(),
            !final(self).changed(),
            spawned == ((old(self).changed() || is_override) && has_blank(old(self)@)),
            spawned ==> spawned_from(old(self)@, final(self)@),
            !spawned ==> final(self)@ == old(self)@,
            tile_count(final(self)@) == tile_count(old(self)@) + if spawned { 1int } else { 0int },
    {
        let mut spawned = false;
        proof {
            lemma_empty_cells(self@);
        }
        if self.modified || is_override {
            let free = self.empty_cells();
            if free.len() > 0 {
                let pick = random_below(free.len());
                let roll = random_below(100);
                spawned = self.spawn_at(pick, roll);
                proof {
                    let cell = empty_cells(old(self)@)[pick as int];
                    assert(self@ == put(old(self)@, (cell.0, cell.1), spawn_value(roll as int)));
                    lemma_put_on_blank(old(self)@, cell, spawn_value(roll as int));
                }
            }
            self.modified = false;
        }
        spawned
    }
}

/// Moves every row of the board toward the bias end and tells whether any
/// row changed.
pub fn shift_rows(board: &mut Board, bias: Bias) -> (modified: bool)
    requires
        old(board).wf(),
        rows_fit(old(board)@),
    ensures
        final(board).wf(),
        final(board).side() == old(board).side(),
        final(board).changed() == old(board).changed(),
        final(board)@ == slide_rows(old(board)@, bias),
        modified == (final(board)@ != old(board)@),
{
    let n = board.items.len();
    let mut modified = false;
    let mut i: usize = 0;
    let ghost mut hit: int = 0;
    while i < n
        invariant
            i <= n,
            n == board.items@.len(),
            n == old(board)@.len(),
            board.size == old(board).size,
            board.modified == old(board).modified,
            rows_fit(old(board)@),
            legal_grid(old(board)@),
            forall|k: int| 0 <= k < i ==> (#[trigger] board.items@[k])@ == move_row(old(board)@[k], bias),
            forall|k: int| i <= k < n ==> (#[trigger] board.items@[k])@ == old(board)@[k],
            !modified ==> forall|k: int| 0 <= k < i ==> (#[trigger] board.items@[k])@ == old(board)@[k],
            modified ==> 0 <= hit < i && move_row(old(board)@[hit], bias) != old(board)@[hit],
        decreases n - i,
    {
        let moved = match bias {
            Bias::Left => to_left(&mut board.items[i]),
            Bias::Right => to_right(&mut board.items[i]),
        };
        if moved {
            proof {
                hit = i as int;
            }
            modified = true;
        }
        i += 1;
    }
    proof {
        let after = cells(board.items);
        let slid = slide_rows(old(board)@, bias);
        assert(after =~= slid);
        assert forall|k: int| 0 <= k < slid.len() implies (#[trigger] slid[k]).len() == slid.len()
            && legal_row(slid[k]) by {
            law_move_row_accounts(old(board)@[k], bias);
            lemma_move_row_legal(old(board)@[k], bias);
        }
        if modified {
            assert(after[hit] != old(board)@[hit]);
        } else {
            assert(after =~= old(board)@);
        }
    }
    modified
}

} // verus!
