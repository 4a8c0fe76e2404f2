//! One row of the grid: the model of a move as functions on sequences, and
//! the in-place operations that compute them.

use crate::row_laws::{
    lemma_compact_fits, lemma_fits_with_one_more, lemma_move_changes, lemma_tiles_are_occupied,
};
use vstd::arithmetic::power2::is_pow2;
use vstd::prelude::*;

verus! {

/// The end of a row that tiles slide toward: index 0 or the last index.
#[derive(Clone, Copy, Debug, PartialEq, Eq, Structural)]
pub enum Bias {
    Left,
    Right,
}

/// One of the two kinds of pass that make up a move.
#[derive(Clone, Copy, Debug, PartialEq, Eq, Structural)]
pub enum Phase {
    Compact,
    Merge,
}

/// A value that a cell may hold: 0 for an empty cell, or a tile, which is a
/// power of two from 2 upward.
pub open spec fn legal(v: i16) -> bool {
    v == 0 || (v >= 2 && is_pow2(v as int))
}

/// Every cell of the row holds a legal value.
pub open spec fn legal_row(s: Seq<i16>) -> bool {
    forall|i: int| 0 <= i < s.len() ==> legal(#[trigger] s[i])
}

/// The predicate that tells a tile from an empty cell.
pub open spec fn occupied() -> spec_fn(i16) -> bool {
    |v: i16| v != 0
}

/// The tiles of a row: its non-zero values in their order.
pub open spec fn tiles(s: Seq<i16>) -> Seq<i16> {
    s.filter(occupied())
}

/// A run of `n` empty cells.
pub open spec fn blanks(n: nat) -> Seq<i16> {
    Seq::new(n, |i: int| 0i16)
}

/// The row with its tiles slid to the bias end, order kept, and the empty
/// cells gathered at the other end.
pub open spec fn compact(s: Seq<i16>, bias: Bias) -> Seq<i16> {
    let gap = blanks((s.len() - tiles(s).len()) as nat);
    match bias {
        Bias::Left => tiles(s) + gap,
        Bias::Right => gap + tiles(s),
    }
}

/// An empty cell at `i` lies somewhere to the left of a tile at `j`.
pub open spec fn blank_then_tile(s: Seq<i16>, i: int, j: int) -> bool {
    0 <= i < j < s.len() && s[i] == 0 && s[j] != 0
}

/// A tile at `i` lies somewhere to the left of an empty cell at `j`.
pub open spec fn tile_then_blank(s: Seq<i16>, i: int, j: int) -> bool {
    0 <= i < j < s.len() && s[i] != 0 && s[j] == 0
}

/// No empty cell lies on the bias side of a tile.
pub open spec fn settled(s: Seq<i16>, bias: Bias) -> bool {
    match bias {
        Bias::Left => forall|i: int, j: int| !#[trigger] blank_then_tile(s, i, j),
        Bias::Right => forall|i: int, j: int| !#[trigger] tile_then_blank(s, i, j),
    }
}

/// Two neighbouring cells hold the same tile.
pub open spec fn pair_at(s: Seq<i16>, i: int) -> bool {
    0 <= i && i + 1 < s.len() && s[i] != 0 && s[i] == s[i + 1]
}

/// The double of every pair of equal neighbouring tiles is an `i16`.
pub open spec fn doubling_fits(s: Seq<i16>) -> bool {
    forall|i: int| #[trigger] pair_at(s, i) ==> i16::MIN <= 2 * s[i] <= i16::MAX
}

/// The merge pass: scanning from the bias end, each pair of equal
/// neighbouring tiles becomes their sum in the cell nearer the bias end and
/// an empty cell in the other, and the scan goes on behind the pair.
pub open spec fn join(s: Seq<i16>, bias: Bias) -> Seq<i16>
    decreases s.len(),
{
    let n = s.len() as int;
    if n < 2 {
        s
    } else {
        match bias {
            Bias::Left => if pair_at(s, 0) {
                seq![(s[0] + s[1]) as i16, 0i16] + join(s.skip(2), bias)
            } else {
                seq![s[0]] + join(s.skip(1), bias)
            },
            Bias::Right => if pair_at(s, n - 2) {
                join(s.take(n - 2), bias) + seq![0i16, (s[n - 2] + s[n - 1]) as i16]
            } else {
                join(s.take(n - 1), bias).push(s[n - 1])
            },
        }
    }
}

/// The number of pairs that the merge pass merges.
pub open spec fn merge_count(s: Seq<i16>, bias: Bias) -> nat
    decreases s.len(),
{
    let n = s.len() as int;
    if n < 2 {
        0
    } else {
        match bias {
            Bias::Left => if pair_at(s, 0) {
                1 + merge_count(s.skip(2), bias)
            } else {
                merge_count(s.skip(1), bias)
            },
            Bias::Right => if pair_at(s, n - 2) {
                1 + merge_count(s.take(n - 2), bias)
            } else {
                merge_count(s.take(n - 1), bias)
            },
        }
    }
}

/// In `out`, the two equal tiles that `s` holds at `i` and `i + 1` have become
/// their sum in the cell nearer the bias end and an empty cell in the other.
pub open spec fn merged_pair(s: Seq<i16>, out: Seq<i16>, i: int, bias: Bias) -> bool {
    &&& pair_at(s, i)
    &&& i + 1 < out.len()
    &&& match bias {
        Bias::Left => out[i] == 2 * s[i] && out[i + 1] == 0,
        Bias::Right => out[i] == 0 && out[i + 1] == 2 * s[i],
    }
}

/// Cell `k` of `out` is as it is in `s`, or it is one of the two cells of a
/// pair of `s` that has been merged in `out`.
pub open spec fn cell_explained(s: Seq<i16>, out: Seq<i16>, k: int, bias: Bias) -> bool {
    out[k] == s[k] || merged_pair(s, out, k, bias) || merged_pair(s, out, k - 1, bias)
}

/// What one pass of the given kind makes of a row.
pub open spec fn pass(s: Seq<i16>, phase: Phase, bias: Bias) -> Seq<i16> {
    match phase {
        Phase::Compact => compact(s, bias),
        Phase::Merge => join(s, bias),
    }
}

/// A full move of one row: compact, merge, compact again.
pub open spec fn move_row(s: Seq<i16>, bias: Bias) -> Seq<i16> {
    compact(join(compact(s, bias), bias), bias)
}

/// The sum of the values of a row.
pub open spec fn row_sum(s: Seq<i16>) -> int
    decreases s.len(),
{
    if s.len() == 0 {
        0
    } else {
        row_sum(s.drop_last()) + s.last()
    }
}

/// Slides the tiles of `row` to the left end in one pass: each tile is moved
/// to the first cell that no earlier tile has taken.
pub fn align_to_left(row: &mut [i16]) -> (modified: bool)
    ensures
        final(row)@ == compact(old(row)@, Bias::Left),
        modified == (final(row)@ != old(row)@),
{
    let n = row.len();
    let mut modified = false;
    let mut w: usize = 0;
    let mut r: usize = 0;
    let ghost mut hit: int = 0;
    while r < n
        invariant
            w <= r <= n,
            row@.len() == n,
            old(row)@.len() == n,
            row@.take(w as int) == tiles(old(row)@.take(r as int)),
            forall|k: int| w <= k < r ==> row@[k] == 0,
            row@.skip(r as int) == old(row)@.skip(r as int),
            !modified ==> row@ == old(row)@,
            modified ==> 0 <= hit < w && old(row)@[hit] == 0 && row@[hit] != 0,
        decreases n - r,
    {
        let ghost before = row@;
        let v = row[r];
        proof {
            assert(row@[r as int] == row@.skip(r as int)[0]);
            assert(old(row)@.take(r + 1) == old(row)@.take(r as int).push(v));
            old(row)@.take(r as int).lemma_filter_push(v, occupied());
        }
        if v != 0 {
            if w != r {
                row[w] = v;
                row[r] = 0;
                proof {
                    if !modified {
                        hit = w as int;
                    }
                }
                modified = true;
            }
            assert(row@.take(w + 1) == before.take(w as int).push(v));
            w += 1;
        } else {
            assert(row@.take(w as int) == before.take(w as int));
        }
        r += 1;
        assert(row@.skip(r as int) == old(row)@.skip(r as int)) by {
            assert forall|k: int| 0 <= k < n - r implies row@.skip(r as int)[k] == old(row)@.skip(
                r as int,
            )[k] by {
                assert(before.skip(r - 1)[k + 1] == old(row)@.skip(r - 1)[k + 1]);
            }
        }
    }
    proof {
        assert(old(row)@.take(n as int) == old(row)@);
        assert(row@ == compact(old(row)@, Bias::Left));
    }
    modified
}

/// Slides the tiles of `row` to the right end in one pass: each tile, taken
/// from the right, is moved to the last cell that no later tile has taken.
pub fn align_to_right(row: &mut [i16]) -> (modified: bool)
    ensures
        final(row)@ == compact(old(row)@, Bias::Right),
        modified == (final(row)@ != old(row)@),
{
    let n = row.len();
    let mut modified = false;
    let mut w: usize = n;
    let mut r: usize = n;
    let ghost mut hit: int = 0;
    while r > 0
        invariant
            r <= w <= n,
            row@.len() == n,
            old(row)@.len() == n,
            row@.skip(w as int) == tiles(old(row)@.skip(r as int)),
            forall|k: int| r <= k < w ==> row@[k] == 0,
            row@.take(r as int) == old(row)@.take(r as int),
            !modified ==> row@ == old(row)@,
            modified ==> w <= hit < n && old(row)@[hit] == 0 && row@[hit] != 0,
        decreases r,
    {
        let ghost before = row@;
        r -= 1;
        let v = row[r];
        proof {
            assert(row@[r as int] == row@.take(r + 1)[r as int]);
            assert(old(row)@.skip(r as int) == seq![v] + old(row)@.skip(r + 1));
            old(row)@.skip(r + 1).lemma_filter_prepend(v, occupied());
        }
        if v != 0 {
            w -= 1;
            if w != r {
                row[w] = v;
                row[r] = 0;
                proof {
                    if !modified {
                        hit = w as int;
                    }
                }
                modified = true;
            }
            assert(row@.skip(w as int) == seq![v] + before.skip(w + 1));
        } else {
            assert(row@.skip(w as int) == before.skip(w as int));
        }
        assert(row@.take(r as int) == old(row)@.take(r as int)) by {
            assert forall|k: int| 0 <= k < r implies row@.take(r as int)[k] == old(row)@.take(
                r as int,
            )[k] by {
                assert(before.take(r + 1)[k] == old(row)@.take(r + 1)[k]);
            }
        }
    }
    proof {
        assert(old(row)@.skip(0) == old(row)@);
        assert(row@ == compact(old(row)@, Bias::Right));
    }
    modified
}

/// Merges pairs of equal neighbouring tiles of `row`, scanning from the right
/// end: the sum goes to the right cell of a pair, the left one is emptied.
pub fn join_pairs(row: &mut [i16]) -> (modified: bool)
    requires
        doubling_fits(old(row)@),
    ensures
        final(row)@ == join(old(row)@, Bias::Right),
        modified == (final(row)@ != old(row)@),
{
    let n = row.len();
    let mut modified = false;
    let mut j: usize = n;
    let ghost mut hit: int = 0;
    proof {
        assert(row@.take(n as int) == row@);
        assert(join(row@, Bias::Right) + row@.skip(n as int) == join(row@, Bias::Right));
    }
    while j >= 2
        invariant
            j <= n,
            row@.len() == n,
            old(row)@.len() == n,
            doubling_fits(old(row)@),
            row@.take(j as int) == old(row)@.take(j as int),
            join(old(row)@, Bias::Right) == join(old(row)@.take(j as int), Bias::Right) + row@.skip(
                j as int,
            ),
            !modified ==> row@ == old(row)@,
            modified ==> j <= hit < n && row@[hit] != old(row)@[hit],
        decreases j,
    {
        let ghost before = row@;
        let ghost rest = old(row)@.take(j as int);
        proof {
            assert(row@[j - 1] == row@.take(j as int)[j - 1]);
            assert(row@[j - 2] == row@.take(j as int)[j - 2]);
            assert(pair_at(rest, j - 2) == pair_at(old(row)@, j - 2));
        }
        if row[j - 1] != 0 && row[j - 1] == row[j - 2] {
            row[j - 1] = row[j - 1] + row[j - 2];
            row[j - 2] = 0;
            proof {
                if !modified {
                    hit = j - 1;
                }
                assert(rest.take(j - 2) == old(row)@.take(j - 2));
                assert(row@.skip(j - 2) == seq![0i16, row@[j - 1]] + before.skip(j as int));
                assert(row@.take(j - 2) == before.take(j as int).take(j - 2));
            }
            modified = true;
            j -= 2;
        } else {
            proof {
                assert(rest.take(j - 1) == old(row)@.take(j - 1));
                assert(row@.skip(j - 1) == seq![row@[j - 1]] + before.skip(j as int));
                assert(row@.take(j - 1) == before.take(j as int).take(j - 1));
            }
            j -= 1;
        }
    }
    proof {
        assert(row@ == row@.take(j as int) + row@.skip(j as int));
    }
    modified
}

/// Merges pairs of equal neighbouring tiles of `row`, scanning from the left
/// end: the sum goes to the left cell of a pair, the right one is emptied.
pub fn join_pairs_left(row: &mut [i16]) -> (modified: bool)
    requires
        doubling_fits(old(row)@),
    ensures
        final(row)@ == join(old(row)@, Bias::Left),
        modified == (final(row)@ != old(row)@),
{
    let n = row.len();
    let mut modified = false;
    let mut i: usize = 0;
    let ghost mut hit: int = 0;
    proof {
        assert(row@.skip(0) == row@);
        assert(row@.take(0) + join(row@, Bias::Left) == join(row@, Bias::Left));
    }
    while n - i >= 2
        invariant
            i <= n,
            row@.len() == n,
            old(row)@.len() == n,
            doubling_fits(old(row)@),
            row@.skip(i as int) == old(row)@.skip(i as int),
            join(old(row)@, Bias::Left) == row@.take(i as int) + join(
                old(row)@.skip(i as int),
                Bias::Left,
            ),
            !modified ==> row@ == old(row)@,
            modified ==> 0 <= hit < i && row@[hit] != old(row)@[hit],
        decreases n - i,
    {
        let ghost before = row@;
        let ghost rest = old(row)@.skip(i as int);
        proof {
            assert(row@[i as int] == row@.skip(i as int)[0]);
            assert(row@[i + 1] == row@.skip(i as int)[1]);
            assert(pair_at(rest, 0) == pair_at(old(row)@, i as int));
        }
        if row[i] != 0 && row[i] == row[i + 1] {
            row[i] = row[i] + row[i + 1];
            row[i + 1] = 0;
            proof {
                if !modified {
                    hit = i as int;
                }
                assert(rest.skip(2) == old(row)@.skip(i + 2));
                assert(row@.take(i + 2) == before.take(i as int) + seq![row@[i as int], 0i16]);
                assert(row@.skip(i + 2) == before.skip(i as int).skip(2));
            }
            modified = true;
            i += 2;
        } else {
            proof {
                assert(rest.skip(1) == old(row)@.skip(i + 1));
                assert(row@.take(i + 1) == before.take(i as int) + seq![row@[i as int]]);
                assert(row@.skip(i + 1) == before.skip(i as int).skip(1));
            }
            i += 1;
        }
    }
    proof {
        assert(row@ == row@.take(i as int) + row@.skip(i as int));
    }
    modified
}

/// Runs one pass of the given kind over `row` and tells whether it changed
/// the row.
pub fn align_row(row: &mut [i16], phase: Phase, bias: Bias) -> (modified: bool)
    requires
        phase == Phase::Merge ==> doubling_fits(old(row)@),
    ensures
        final(row)@ == pass(old(row)@, phase, bias),
        modified == (final(row)@ != old(row)@),
{
    match (phase, bias) {
        (Phase::Compact, Bias::Left) => align_to_left(row),
        (Phase::Compact, Bias::Right) => align_to_right(row),
        (Phase::Merge, Bias::Left) => join_pairs_left(row),
        (Phase::Merge, Bias::Right) => join_pairs(row),
    }
}

/// Moves `row` to the right: compacts it, merges from the right end, and
/// compacts again. Tells whether any of the three passes changed the row,
/// which is to say whether the row has changed.
pub fn to_right(row: &mut [i16]) -> (modified: bool)
    requires
        doubling_fits(tiles(old(row)@)),
    ensures
        final(row)@ == move_row(old(row)@, Bias::Right),
        modified == (final(row)@ != old(row)@),
{
    proof {
        lemma_compact_fits(row@, Bias::Right);
        lemma_move_changes(row@, Bias::Right);
    }
    let slid = align_row(row, Phase::Compact, Bias::Right);
    let joined = align_row(row, Phase::Merge, Bias::Right);
    let closed = align_row(row, Phase::Compact, Bias::Right);
    slid || joined || closed
}

/// Moves `row` to the left: compacts it, merges from the left end, and
/// compacts again. Tells whether any of the three passes changed the row,
/// which is to say whether the row has changed.
pub fn to_left(row: &mut [i16]) -> (modified: bool)
    requires
        doubling_fits(tiles(old(row)@)),
    ensures
        final(row)@ == move_row(old(row)@, Bias::Left),
        modified == (final(row)@ != old(row)@),
{
    proof {
        lemma_compact_fits(row@, Bias::Left);
        lemma_move_changes(row@, Bias::Left);
    }
    let slid = align_row(row, Phase::Compact, Bias::Left);
    let joined = align_row(row, Phase::Merge, Bias::Left);
    let closed = align_row(row, Phase::Compact, Bias::Left);
    slid || joined || closed
}

/// Tells whether `v` is a value that a cell may hold.
pub fn is_legal(v: i16) -> (ok: bool)
    ensures
        ok == legal(v),
{
    if v == 0 {
        return true;
    }
    if v < 2 {
        return false;
    }
    let mut rest: i16 = v;
    while rest % 2 == 0
        invariant
            1 <= rest <= v,
            is_pow2(rest as int) == is_pow2(v as int),
        decreases rest,
    {
        proof {
            reveal(is_pow2);
        }
        rest = rest / 2;
    }
    proof {
        reveal(is_pow2);
    }
    rest == 1
}

/// Tells whether every merge that a move of `row` performs gives an `i16`,
/// whichever way the row is moved.
pub fn merges_fit(row: &[i16]) -> (ok: bool)
    ensures
        ok == doubling_fits(tiles(row@)),
{
    let n = row.len();
    let mut last: i16 = 0;
    let mut i: usize = 0;
    proof {
        assert(row@.take(0) == Seq::<i16>::empty());
        lemma_fits_with_one_more(row@.take(0), 0i16);
    }
    while i < n
        invariant
            i <= n,
            n == row@.len(),
            doubling_fits(tiles(row@.take(i as int))),
            last == if tiles(row@.take(i as int)).len() > 0 {
                tiles(row@.take(i as int)).last()
            } else {
                0i16
            },
        decreases n - i,
    {
        let v = row[i];
        proof {
            assert(row@.take(i + 1) == row@.take(i as int).push(v));
            lemma_fits_with_one_more(row@.take(i as int), v);
            lemma_tiles_are_occupied(row@.take(i as int));
        }
        if v != 0 {
            if v == last && (v > 16383 || v < -16384) {
                proof {
                    let seen = tiles(row@.take(i + 1));
                    assert(row@ == row@.take(i + 1) + row@.skip(i + 1));
                    Seq::filter_distributes_over_add(
                        row@.take(i + 1),
                        row@.skip(i + 1),
                        occupied(),
                    );
                    assert(pair_at(seen, seen.len() - 2));
                    assert(pair_at(tiles(row@), seen.len() - 2));
                }
                return false;
            }
            last = v;
        }
        i += 1;
    }
    proof {
        assert(row@.take(n as int) == row@);
    }
    true
}

} // verus!
