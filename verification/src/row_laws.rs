//! What holds of the row model: facts about compaction, about the merge pass,
//! and about a full move of a row.

use crate::row::{
    blank_then_tile, blanks, cell_explained, compact, doubling_fits, join, legal, legal_row,
    merge_count, merged_pair, move_row, occupied, pair_at, row_sum, settled, tile_then_blank, tiles,
    Bias,
};
use vstd::arithmetic::power2::is_pow2;
use vstd::prelude::*;

verus! {

/// A run of empty cells holds no tile.
pub proof fn lemma_blanks_hold_no_tile(n: nat)
    ensures
        tiles(blanks(n)) == Seq::<i16>::empty(),
    decreases n,
{
    if n == 0 {
        assert(blanks(n) == Seq::<i16>::empty());
        reveal(Seq::filter);
    } else {
        let m = (n - 1) as nat;
        lemma_blanks_hold_no_tile(m);
        assert(blanks(n) == blanks(m).push(0i16));
        blanks(m).lemma_filter_push(0i16, occupied());
    }
}

/// A row without an empty cell is its own tiles.
pub proof fn lemma_all_occupied(s: Seq<i16>)
    requires
        forall|i: int| 0 <= i < s.len() ==> s[i] != 0,
    ensures
        tiles(s) == s,
    decreases s.len(),
{
    if s.len() == 0 {
        reveal(Seq::filter);
    } else {
        let front = s.drop_last();
        assert forall|i: int| 0 <= i < front.len() implies front[i] != 0 by {
            assert(front[i] == s[i]);
        }
        lemma_all_occupied(front);
        assert(s == front.push(s.last()));
        front.lemma_filter_push(s.last(), occupied());
    }
}

/// A row with as many tiles as cells has no empty cell and is its own tiles.
pub proof fn lemma_full_row(s: Seq<i16>)
    requires
        tiles(s).len() >= s.len(),
    ensures
        tiles(s) == s,
        forall|i: int| 0 <= i < s.len() ==> s[i] != 0,
    decreases s.len(),
{
    if s.len() == 0 {
        reveal(Seq::filter);
    } else {
        let front = s.drop_last();
        assert(s == front.push(s.last()));
        front.lemma_filter_push(s.last(), occupied());
        front.lemma_filter_len(occupied());
        lemma_full_row(front);
        assert forall|i: int| 0 <= i < s.len() implies s[i] != 0 by {
            if i < front.len() {
                assert(front[i] == s[i]);
            }
        }
    }
}

/// Every tile of a row is non-zero, so the tiles of the tiles are the tiles.
pub proof fn lemma_tiles_are_occupied(s: Seq<i16>)
    ensures
        forall|i: int| 0 <= i < tiles(s).len() ==> tiles(s)[i] != 0,
        tiles(tiles(s)) == tiles(s),
{
    assert forall|i: int| 0 <= i < tiles(s).len() implies tiles(s)[i] != 0 by {
        s.lemma_filter_pred(occupied(), i);
    }
    lemma_all_occupied(tiles(s));
}

/// Compaction keeps the length of a row and its tiles, in their order.
pub proof fn lemma_compact_keeps_tiles(s: Seq<i16>, bias: Bias)
    ensures
        compact(s, bias).len() == s.len(),
        tiles(compact(s, bias)) == tiles(s),
{
    let gap = blanks((s.len() - tiles(s).len()) as nat);
    s.lemma_filter_len(occupied());
    lemma_blanks_hold_no_tile((s.len() - tiles(s).len()) as nat);
    lemma_tiles_are_occupied(s);
    match bias {
        Bias::Left => {
            Seq::filter_distributes_over_add(tiles(s), gap, occupied());
            assert(tiles(s) + Seq::<i16>::empty() == tiles(s));
        },
        Bias::Right => {
            Seq::filter_distributes_over_add(gap, tiles(s), occupied());
            assert(Seq::<i16>::empty() + tiles(s) == tiles(s));
        },
    }
}

/// Compacting a row that was just compacted toward the same end changes
/// nothing.
pub proof fn law_compact_idempotent(s: Seq<i16>, bias: Bias)
    ensures
        compact(compact(s, bias), bias) == compact(s, bias),
{
    lemma_compact_keeps_tiles(s, bias);
}

/// A compacted row has no empty cell on the bias side of a tile.
pub proof fn lemma_compact_is_settled(s: Seq<i16>, bias: Bias)
    ensures
        settled(compact(s, bias), bias),
{
    s.lemma_filter_len(occupied());
    lemma_tiles_are_occupied(s);
    let t = tiles(s).len() as int;
    let g = s.len() - t;
    let c = compact(s, bias);
    match bias {
        Bias::Left => {
            assert forall|i: int, j: int| !#[trigger] blank_then_tile(c, i, j) by {
                if 0 <= i < t {
                    assert(c[i] == tiles(s)[i]);
                }
            }
        },
        Bias::Right => {
            assert forall|i: int, j: int| !#[trigger] tile_then_blank(c, i, j) by {
                if g <= j < c.len() {
                    assert(c[j] == tiles(s)[j - g]);
                }
            }
        },
    }
}

/// Compaction has nothing to move in a row without an empty cell.
pub proof fn lemma_full_row_is_compact(s: Seq<i16>, bias: Bias)
    requires
        forall|i: int| 0 <= i < s.len() ==> s[i] != 0,
    ensures
        compact(s, bias) == s,
{
    lemma_all_occupied(s);
    assert(s + blanks(0) == s);
    assert(blanks(0) + s == s);
}

/// An empty cell at the far end of a row stays there under compaction.
pub proof fn lemma_compact_far_blank(s: Seq<i16>, bias: Bias)
    ensures
        bias == Bias::Left ==> compact(s.push(0i16), bias) == compact(s, bias).push(0i16),
        bias == Bias::Right ==> compact(seq![0i16] + s, bias) == seq![0i16] + compact(s, bias),
{
    let t = tiles(s);
    s.lemma_filter_len(occupied());
    let g = (s.len() - t.len()) as nat;
    match bias {
        Bias::Left => {
            s.lemma_filter_push(0i16, occupied());
            assert(blanks(g + 1) == blanks(g).push(0i16));
            assert(t + blanks(g).push(0i16) == (t + blanks(g)).push(0i16));
        },
        Bias::Right => {
            s.lemma_filter_prepend(0i16, occupied());
            assert(Seq::<i16>::empty() + t == t);
            assert(blanks(g + 1) == seq![0i16] + blanks(g));
            assert((seq![0i16] + blanks(g)) + t == seq![0i16] + (blanks(g) + t));
        },
    }
}

/// Compaction to the left leaves a row as it is if no empty cell lies to the
/// left of a tile.
proof fn lemma_settled_left_is_fixed(s: Seq<i16>)
    requires
        settled(s, Bias::Left),
    ensures
        compact(s, Bias::Left) == s,
    decreases s.len(),
{
    if s.len() == 0 {
        s.lemma_filter_len(occupied());
        assert(compact(s, Bias::Left) == s);
    } else if s.last() == 0 {
        let front = s.drop_last();
        assert(s == front.push(0i16));
        assert forall|i: int, j: int| !#[trigger] blank_then_tile(front, i, j) by {
            assert(!blank_then_tile(s, i, j));
        }
        lemma_settled_left_is_fixed(front);
        lemma_compact_far_blank(front, Bias::Left);
    } else {
        assert forall|i: int| 0 <= i < s.len() implies s[i] != 0 by {
            assert(!blank_then_tile(s, i, s.len() - 1));
        }
        lemma_full_row_is_compact(s, Bias::Left);
    }
}

/// Compaction to the right leaves a row as it is if no empty cell lies to
/// the right of a tile.
proof fn lemma_settled_right_is_fixed(s: Seq<i16>)
    requires
        settled(s, Bias::Right),
    ensures
        compact(s, Bias::Right) == s,
    decreases s.len(),
{
    if s.len() == 0 {
        s.lemma_filter_len(occupied());
        assert(compact(s, Bias::Right) == s);
    } else if s[0] == 0 {
        let back = s.drop_first();
        assert(s == seq![0i16] + back);
        assert forall|i: int, j: int| !#[trigger] tile_then_blank(back, i, j) by {
            assert(!tile_then_blank(s, i + 1, j + 1));
        }
        lemma_settled_right_is_fixed(back);
        lemma_compact_far_blank(back, Bias::Right);
    } else {
        assert forall|i: int| 0 <= i < s.len() implies s[i] != 0 by {
            assert(!tile_then_blank(s, 0, i));
        }
        lemma_full_row_is_compact(s, Bias::Right);
    }
}

/// Compaction leaves a row as it is exactly when no empty cell lies on the
/// bias side of a tile.
pub proof fn lemma_settled_is_compact(s: Seq<i16>, bias: Bias)
    ensures
        settled(s, bias) <==> compact(s, bias) == s,
{
    lemma_compact_is_settled(s, bias);
    if settled(s, bias) {
        match bias {
            Bias::Left => lemma_settled_left_is_fixed(s),
            Bias::Right => lemma_settled_right_is_fixed(s),
        }
    }
}

/// What one more cell at the right end adds to the sum and the tiles.
pub proof fn lemma_append_cell(s: Seq<i16>, v: i16)
    ensures
        row_sum(s.push(v)) == row_sum(s) + v,
        tiles(s.push(v)).len() == tiles(s).len() + if v != 0 { 1int } else { 0int },
{
    assert(s.push(v).drop_last() == s);
    s.lemma_filter_push(v, occupied());
}

/// The sum of two rows laid end to end is the sum of their sums.
pub proof fn lemma_row_sum_concat(a: Seq<i16>, b: Seq<i16>)
    ensures
        row_sum(a + b) == row_sum(a) + row_sum(b),
    decreases b.len(),
{
    if b.len() == 0 {
        assert(a + b == a);
    } else {
        lemma_row_sum_concat(a, b.drop_last());
        assert((a + b).drop_last() == a + b.drop_last());
    }
}

/// What one more cell at the left end adds to the sum and the tiles.
pub proof fn lemma_prepend_cell(v: i16, s: Seq<i16>)
    ensures
        row_sum(seq![v] + s) == v + row_sum(s),
        tiles(seq![v] + s).len() == tiles(s).len() + if v != 0 { 1int } else { 0int },
{
    lemma_row_sum_concat(seq![v], s);
    assert(seq![v].drop_last() == Seq::<i16>::empty());
    assert(row_sum(seq![v]) == v) by {
        assert(row_sum(seq![v].drop_last()) == 0);
    }
    s.lemma_filter_prepend(v, occupied());
}

/// Empty cells add nothing to the sum of a row.
pub proof fn lemma_sum_of_tiles(s: Seq<i16>)
    ensures
        row_sum(tiles(s)) == row_sum(s),
    decreases s.len(),
{
    if s.len() == 0 {
        reveal(Seq::filter);
    } else {
        let front = s.drop_last();
        lemma_sum_of_tiles(front);
        assert(s == front.push(s.last()));
        front.lemma_filter_push(s.last(), occupied());
        lemma_append_cell(tiles(front), s.last());
    }
}

/// The sum of a row is the sum of its tiles, so compaction keeps it.
pub proof fn lemma_compact_keeps_sum(s: Seq<i16>, bias: Bias)
    ensures
        row_sum(tiles(s)) == row_sum(s),
        row_sum(compact(s, bias)) == row_sum(s),
{
    lemma_sum_of_tiles(s);
    lemma_sum_of_tiles(compact(s, bias));
    lemma_compact_keeps_tiles(s, bias);
}

/// A part of a row in which every merge fits holds only merges that fit.
pub proof fn lemma_doubling_fits_part(s: Seq<i16>, from: int, to: int)
    requires
        doubling_fits(s),
        0 <= from <= to <= s.len(),
    ensures
        doubling_fits(s.subrange(from, to)),
        doubling_fits(s.skip(from)),
        doubling_fits(s.take(to)),
{
    let part = s.subrange(from, to);
    assert forall|i: int| #[trigger] pair_at(part, i) implies i16::MIN <= 2 * part[i]
        <= i16::MAX by {
        assert(pair_at(s, i + from));
    }
    assert forall|i: int| #[trigger] pair_at(s.skip(from), i) implies i16::MIN <= 2 * s.skip(
        from,
    )[i] <= i16::MAX by {
        assert(pair_at(s, i + from));
    }
    assert forall|i: int| #[trigger] pair_at(s.take(to), i) implies i16::MIN <= 2 * s.take(to)[i]
        <= i16::MAX by {
        assert(pair_at(s, i));
    }
}

/// One more cell at the right end of a row adds at most one pair of equal
/// neighbours to its tiles: that of the last tile so far and the new one.
pub proof fn lemma_fits_with_one_more(s: Seq<i16>, v: i16)
    ensures
        tiles(s.push(v)) == if v != 0 {
            tiles(s).push(v)
        } else {
            tiles(s)
        },
        doubling_fits(tiles(s.push(v))) <==> doubling_fits(tiles(s)) && (v != 0 && tiles(s).len() > 0
            && tiles(s).last() == v ==> i16::MIN <= 2 * v <= i16::MAX),
{
    let t = tiles(s);
    let more = tiles(s.push(v));
    s.lemma_filter_push(v, occupied());
    if v != 0 {
        if doubling_fits(more) {
            assert forall|i: int| #[trigger] pair_at(t, i) implies i16::MIN <= 2 * t[i]
                <= i16::MAX by {
                assert(pair_at(more, i));
            }
            if t.len() > 0 && t.last() == v {
                assert(pair_at(more, t.len() - 1));
            }
        }
        if doubling_fits(t) && (t.len() > 0 && t.last() == v ==> i16::MIN <= 2 * v <= i16::MAX) {
            assert forall|i: int| #[trigger] pair_at(more, i) implies i16::MIN <= 2 * more[i]
                <= i16::MAX by {
                if i + 1 < t.len() {
                    assert(pair_at(t, i));
                }
            }
        }
    }
}

/// In a compacted row exactly the neighbouring equal tiles of the row's
/// tiles are neighbours, so every merge fits if it fits among the tiles.
pub proof fn lemma_compact_fits(s: Seq<i16>, bias: Bias)
    requires
        doubling_fits(tiles(s)),
    ensures
        doubling_fits(compact(s, bias)),
{
    let c = compact(s, bias);
    let t = tiles(s);
    s.lemma_filter_len(occupied());
    let g = s.len() - t.len();
    assert forall|i: int| #[trigger] pair_at(c, i) implies i16::MIN <= 2 * c[i] <= i16::MAX by {
        match bias {
            Bias::Left => {
                assert(pair_at(t, i));
            },
            Bias::Right => {
                assert(pair_at(t, i - g));
            },
        }
    }
}

/// The merge pass keeps the length of a row.
pub proof fn lemma_join_len(s: Seq<i16>, bias: Bias)
    ensures
        join(s, bias).len() == s.len(),
    decreases s.len(),
{
    let n = s.len() as int;
    if n >= 2 {
        match bias {
            Bias::Left => {
                lemma_join_len(s.skip(2), bias);
                lemma_join_len(s.skip(1), bias);
            },
            Bias::Right => {
                lemma_join_len(s.take(n - 2), bias);
                lemma_join_len(s.take(n - 1), bias);
            },
        }
    }
}

/// A merge pass leaves the sum of the values of a row as it was, each merged
/// pair being replaced by its sum, and lowers the number of tiles by exactly
/// the number of merges.
pub proof fn law_merge_keeps_sum(s: Seq<i16>, bias: Bias)
    requires
        doubling_fits(s),
    ensures
        row_sum(join(s, bias)) == row_sum(s),
        tiles(join(s, bias)).len() + merge_count(s, bias) == tiles(s).len(),
    decreases s.len(),
{
    let n = s.len() as int;
    if n >= 2 {
        match bias {
            Bias::Left => {
                if pair_at(s, 0) {
                    let rest = s.skip(2);
                    let sum = (s[0] + s[1]) as i16;
                    lemma_doubling_fits_part(s, 2, n);
                    law_merge_keeps_sum(rest, bias);
                    assert(s == seq![s[0]] + (seq![s[1]] + rest));
                    lemma_prepend_cell(s[1], rest);
                    lemma_prepend_cell(s[0], seq![s[1]] + rest);
                    assert(join(s, bias) == seq![sum] + (seq![0i16] + join(rest, bias)));
                    lemma_prepend_cell(0i16, join(rest, bias));
                    lemma_prepend_cell(sum, seq![0i16] + join(rest, bias));
                } else {
                    let rest = s.skip(1);
                    lemma_doubling_fits_part(s, 1, n);
                    law_merge_keeps_sum(rest, bias);
                    assert(s == seq![s[0]] + rest);
                    lemma_prepend_cell(s[0], rest);
                    lemma_prepend_cell(s[0], join(rest, bias));
                }
            },
            Bias::Right => {
                if pair_at(s, n - 2) {
                    let rest = s.take(n - 2);
                    let sum = (s[n - 2] + s[n - 1]) as i16;
                    lemma_doubling_fits_part(s, 0, n - 2);
                    law_merge_keeps_sum(rest, bias);
                    assert(s == rest.push(s[n - 2]).push(s[n - 1]));
                    lemma_append_cell(rest, s[n - 2]);
                    lemma_append_cell(rest.push(s[n - 2]), s[n - 1]);
                    assert(join(s, bias) == join(rest, bias).push(0i16).push(sum));
                    lemma_append_cell(join(rest, bias), 0i16);
                    lemma_append_cell(join(rest, bias).push(0i16), sum);
                } else {
                    let rest = s.take(n - 1);
                    lemma_doubling_fits_part(s, 0, n - 1);
                    law_merge_keeps_sum(rest, bias);
                    assert(s == rest.push(s[n - 1]));
                    lemma_append_cell(rest, s[n - 1]);
                    lemma_append_cell(join(rest, bias), s[n - 1]);
                }
            },
        }
    }
}

/// Each merge uses up two tiles of the row that no other merge uses.
pub proof fn lemma_merges_use_two_tiles(s: Seq<i16>, bias: Bias)
    ensures
        2 * merge_count(s, bias) <= tiles(s).len(),
    decreases s.len(),
{
    let n = s.len() as int;
    if n >= 2 {
        match bias {
            Bias::Left => {
                if pair_at(s, 0) {
                    let rest = s.skip(2);
                    lemma_merges_use_two_tiles(rest, bias);
                    assert(s == seq![s[0]] + (seq![s[1]] + rest));
                    lemma_prepend_cell(s[1], rest);
                    lemma_prepend_cell(s[0], seq![s[1]] + rest);
                } else {
                    let rest = s.skip(1);
                    lemma_merges_use_two_tiles(rest, bias);
                    assert(s == seq![s[0]] + rest);
                    lemma_prepend_cell(s[0], rest);
                }
            },
            Bias::Right => {
                if pair_at(s, n - 2) {
                    let rest = s.take(n - 2);
                    lemma_merges_use_two_tiles(rest, bias);
                    assert(s == rest.push(s[n - 2]).push(s[n - 1]));
                    lemma_append_cell(rest, s[n - 2]);
                    lemma_append_cell(rest.push(s[n - 2]), s[n - 1]);
                } else {
                    let rest = s.take(n - 1);
                    lemma_merges_use_two_tiles(rest, bias);
                    assert(s == rest.push(s[n - 1]));
                    lemma_append_cell(rest, s[n - 1]);
                }
            },
        }
    }
}

/// The merge pass leaves a row as it is exactly when it merges nothing, and
/// it merges nothing exactly when no two neighbouring cells hold the same
/// tile.
pub proof fn lemma_join_fixed(s: Seq<i16>, bias: Bias)
    requires
        doubling_fits(s),
    ensures
        merge_count(s, bias) == 0 <==> join(s, bias) == s,
        merge_count(s, bias) == 0 <==> (forall|i: int| !#[trigger] pair_at(s, i)),
    decreases s.len(),
{
    let n = s.len() as int;
    if n < 2 {
        assert forall|i: int| !#[trigger] pair_at(s, i) by {}
    } else {
        match bias {
            Bias::Left => {
                if pair_at(s, 0) {
                    assert(join(s, bias)[0] == 2 * s[0]);
                } else {
                    let rest = s.skip(1);
                    lemma_doubling_fits_part(s, 1, n);
                    lemma_join_fixed(rest, bias);
                    lemma_join_len(rest, bias);
                    assert(s == seq![s[0]] + rest);
                    if join(s, bias) == s {
                        assert(join(rest, bias) == join(s, bias).skip(1));
                    }
                    if forall|i: int| !#[trigger] pair_at(rest, i) {
                        assert forall|i: int| !#[trigger] pair_at(s, i) by {
                            assert(!pair_at(rest, i - 1));
                        }
                    }
                    if forall|i: int| !#[trigger] pair_at(s, i) {
                        assert forall|i: int| !#[trigger] pair_at(rest, i) by {
                            assert(!pair_at(s, i + 1));
                        }
                    }
                }
            },
            Bias::Right => {
                if pair_at(s, n - 2) {
                    assert(join(s, bias) == join(s.take(n - 2), bias) + seq![
                        0i16,
                        (s[n - 2] + s[n - 1]) as i16,
                    ]);
                    lemma_join_len(s.take(n - 2), bias);
                    assert(join(s, bias)[n - 1] == 2 * s[n - 1]);
                } else {
                    let rest = s.take(n - 1);
                    lemma_doubling_fits_part(s, 0, n - 1);
                    lemma_join_fixed(rest, bias);
                    lemma_join_len(rest, bias);
                    assert(s == rest.push(s[n - 1]));
                    if join(s, bias) == s {
                        assert(join(rest, bias) == join(s, bias).take(n - 1));
                    }
                    if forall|i: int| !#[trigger] pair_at(rest, i) {
                        assert forall|i: int| !#[trigger] pair_at(s, i) by {
                            assert(!pair_at(rest, i));
                        }
                    }
                    if forall|i: int| !#[trigger] pair_at(s, i) {
                        assert forall|i: int| !#[trigger] pair_at(rest, i) by {
                            assert(!pair_at(s, i));
                        }
                    }
                }
            },
        }
    }
}

/// A merged pair of a part of a row is a merged pair of the row, at the place
/// where the part lies in it.
proof fn lemma_pair_shifted(
    part: Seq<i16>,
    part_out: Seq<i16>,
    s: Seq<i16>,
    out: Seq<i16>,
    i: int,
    at: int,
    bias: Bias,
)
    requires
        0 <= at,
        at + part.len() <= s.len(),
        part_out.len() == part.len(),
        out.len() == s.len(),
        forall|k: int| 0 <= k < part.len() ==> part[k] == s[k + at] && part_out[k] == out[k + at],
    ensures
        merged_pair(part, part_out, i, bias) ==> merged_pair(s, out, i + at, bias),
{
    if merged_pair(part, part_out, i, bias) {
        assert(part[i] == s[i + at]);
        assert(part[i + 1] == s[i + 1 + at]);
    }
}

/// No tile is merged twice in one merge pass: every cell of the result is
/// either as it was before the pass or one of the two cells of a pair of
/// equal neighbours of the row before the pass, of which one now holds their
/// sum and the other is empty; and no cell belongs to two such pairs.
pub proof fn law_merge_once(s: Seq<i16>, bias: Bias)
    requires
        doubling_fits(s),
    ensures
        forall|k: int|
            0 <= k < s.len() ==> #[trigger] cell_explained(s, join(s, bias), k, bias),
        forall|k: int|
            !(#[trigger] merged_pair(s, join(s, bias), k, bias) && merged_pair(
                s,
                join(s, bias),
                k + 1,
                bias,
            )),
    decreases s.len(),
{
    let n = s.len() as int;
    let out = join(s, bias);
    lemma_join_len(s, bias);
    if n < 2 {
    } else {
        match bias {
            Bias::Left => {
                if pair_at(s, 0) {
                    let rest = s.skip(2);
                    let inner = join(rest, bias);
                    lemma_doubling_fits_part(s, 2, n);
                    law_merge_once(rest, bias);
                    lemma_join_len(rest, bias);
                    assert(merged_pair(s, out, 0, bias));
                    assert forall|k: int| 0 <= k < n implies #[trigger] cell_explained(
                        s,
                        out,
                        k,
                        bias,
                    ) by {
                        if k >= 2 {
                            assert(cell_explained(rest, inner, k - 2, bias));
                            lemma_pair_shifted(rest, inner, s, out, k - 2, 2, bias);
                            lemma_pair_shifted(rest, inner, s, out, k - 3, 2, bias);
                        }
                    }
                } else {
                    let rest = s.skip(1);
                    let inner = join(rest, bias);
                    lemma_doubling_fits_part(s, 1, n);
                    law_merge_once(rest, bias);
                    lemma_join_len(rest, bias);
                    assert forall|k: int| 0 <= k < n implies #[trigger] cell_explained(
                        s,
                        out,
                        k,
                        bias,
                    ) by {
                        if k >= 1 {
                            assert(cell_explained(rest, inner, k - 1, bias));
                            lemma_pair_shifted(rest, inner, s, out, k - 1, 1, bias);
                            lemma_pair_shifted(rest, inner, s, out, k - 2, 1, bias);
                        }
                    }
                }
            },
            Bias::Right => {
                if pair_at(s, n - 2) {
                    let rest = s.take(n - 2);
                    let inner = join(rest, bias);
                    lemma_doubling_fits_part(s, 0, n - 2);
                    law_merge_once(rest, bias);
                    lemma_join_len(rest, bias);
                    assert(merged_pair(s, out, n - 2, bias));
                    assert forall|k: int| 0 <= k < n implies #[trigger] cell_explained(
                        s,
                        out,
                        k,
                        bias,
                    ) by {
                        if k < n - 2 {
                            assert(cell_explained(rest, inner, k, bias));
                            lemma_pair_shifted(rest, inner, s, out, k, 0, bias);
                            lemma_pair_shifted(rest, inner, s, out, k - 1, 0, bias);
                        }
                    }
                } else {
                    let rest = s.take(n - 1);
                    let inner = join(rest, bias);
                    lemma_doubling_fits_part(s, 0, n - 1);
                    law_merge_once(rest, bias);
                    lemma_join_len(rest, bias);
                    assert forall|k: int| 0 <= k < n implies #[trigger] cell_explained(
                        s,
                        out,
                        k,
                        bias,
                    ) by {
                        if k < n - 1 {
                            assert(cell_explained(rest, inner, k, bias));
                            lemma_pair_shifted(rest, inner, s, out, k, 0, bias);
                            lemma_pair_shifted(rest, inner, s, out, k - 1, 0, bias);
                        }
                    }
                }
            },
        }
    }
}

/// A move keeps the length of a row and the sum of its values, and lowers the
/// number of tiles by the number of merges, which is at most half of them.
pub proof fn law_move_row_accounts(s: Seq<i16>, bias: Bias)
    requires
        doubling_fits(tiles(s)),
    ensures
        move_row(s, bias).len() == s.len(),
        row_sum(move_row(s, bias)) == row_sum(s),
        tiles(move_row(s, bias)).len() + merge_count(compact(s, bias), bias) == tiles(s).len(),
        2 * merge_count(compact(s, bias), bias) <= tiles(s).len(),
{
    let c = compact(s, bias);
    let j = join(c, bias);
    lemma_compact_keeps_tiles(s, bias);
    lemma_compact_fits(s, bias);
    law_merge_keeps_sum(c, bias);
    lemma_join_len(c, bias);
    lemma_compact_keeps_tiles(j, bias);
    lemma_compact_keeps_sum(s, bias);
    lemma_compact_keeps_sum(j, bias);
    lemma_merges_use_two_tiles(c, bias);
}

/// Neighbouring equal tiles among the tiles of a row are neighbours in the
/// compacted row.
proof fn lemma_pairs_of_tiles(s: Seq<i16>, bias: Bias)
    requires
        forall|i: int| !#[trigger] pair_at(compact(s, bias), i),
    ensures
        forall|i: int| !#[trigger] pair_at(tiles(s), i),
{
    let c = compact(s, bias);
    let t = tiles(s);
    s.lemma_filter_len(occupied());
    let g = s.len() - t.len();
    assert forall|i: int| !#[trigger] pair_at(t, i) by {
        match bias {
            Bias::Left => {
                assert(!pair_at(c, i));
            },
            Bias::Right => {
                assert(!pair_at(c, i + g));
            },
        }
    }
}

/// A row that is settled toward the bias end and holds no two equal
/// neighbouring tiles is left as it is by a move, in which no merge is
/// performed, so every merge fits.
pub proof fn law_settled_row_stays(s: Seq<i16>, bias: Bias)
    requires
        settled(s, bias),
        forall|i: int| !#[trigger] pair_at(s, i),
    ensures
        doubling_fits(s),
        doubling_fits(tiles(s)),
        move_row(s, bias) == s,
{
    lemma_settled_is_compact(s, bias);
    lemma_pairs_of_tiles(s, bias);
    lemma_join_fixed(s, bias);
}

/// Only a row that is settled toward the bias end and holds no two equal
/// neighbouring tiles is left as it is by a move.
pub proof fn lemma_row_that_stays(s: Seq<i16>, bias: Bias)
    requires
        doubling_fits(tiles(s)),
        move_row(s, bias) == s,
    ensures
        settled(s, bias),
        forall|i: int| !#[trigger] pair_at(s, i),
{
    let c = compact(s, bias);
    lemma_compact_keeps_tiles(s, bias);
    lemma_settled_is_compact(s, bias);
    lemma_compact_fits(s, bias);
    lemma_join_fixed(c, bias);
    law_merge_keeps_sum(c, bias);
    lemma_compact_keeps_tiles(join(c, bias), bias);
    law_compact_idempotent(join(c, bias), bias);
    assert(compact(s, bias) == s);
    assert(tiles(move_row(s, bias)).len() == tiles(s).len());
    assert(merge_count(c, bias) == 0);
}

/// A move changes a row exactly when one of its three passes changes what
/// it is given.
pub proof fn lemma_move_changes(s: Seq<i16>, bias: Bias)
    requires
        doubling_fits(tiles(s)),
    ensures
        move_row(s, bias) != s <==> {
            let slid = compact(s, bias);
            let joined = join(slid, bias);
            slid != s || joined != slid || compact(joined, bias) != joined
        },
{
    if move_row(s, bias) == s {
        lemma_row_that_stays(s, bias);
        law_settled_row_stays(s, bias);
        lemma_settled_is_compact(s, bias);
        lemma_join_fixed(s, bias);
    }
}

/// A row without an empty cell in which a move merges nothing is left as it
/// is by the move.
proof fn lemma_full_move(s: Seq<i16>, bias: Bias)
    requires
        doubling_fits(tiles(s)),
        tiles(s).len() >= s.len(),
        merge_count(compact(s, bias), bias) == 0,
    ensures
        move_row(s, bias) == s,
{
    lemma_full_row(s);
    lemma_full_row_is_compact(s, bias);
    lemma_join_fixed(s, bias);
}

/// A move that changes a row leaves an empty cell in it.
pub proof fn lemma_moved_row_has_blank(s: Seq<i16>, bias: Bias)
    requires
        doubling_fits(tiles(s)),
        move_row(s, bias) != s,
    ensures
        tiles(move_row(s, bias)).len() < s.len(),
{
    law_move_row_accounts(s, bias);
    s.lemma_filter_len(occupied());
    if tiles(move_row(s, bias)).len() >= s.len() {
        lemma_full_move(s, bias);
    }
}

/// The double of a tile is a tile, if it is an `i16`.
pub proof fn lemma_double_is_legal(v: i16)
    requires
        legal(v),
        v != 0,
        2 * v <= i16::MAX,
    ensures
        legal((2 * v) as i16),
{
    reveal(is_pow2);
    assert((2 * v) / 2 == v);
}

/// The values 2 and 4, with which tiles come onto the grid, are tiles.
pub proof fn lemma_seeds_are_legal()
    ensures
        legal(2i16),
        legal(4i16),
{
    reveal_with_fuel(is_pow2, 4);
}

/// Compaction only moves values, so it keeps a row legal.
pub proof fn lemma_compact_legal(s: Seq<i16>, bias: Bias)
    requires
        legal_row(s),
    ensures
        legal_row(compact(s, bias)),
{
    let c = compact(s, bias);
    let t = tiles(s);
    s.lemma_filter_len(occupied());
    let g = s.len() - t.len();
    assert forall|k: int| 0 <= k < t.len() implies legal(#[trigger] t[k]) by {
        assert(t.contains(t[k]));
        s.lemma_filter_contains_rev(occupied(), t[k]);
        let i = choose|i: int| 0 <= i < s.len() && s[i] == t[k];
        assert(legal(s[i]));
    }
    assert forall|k: int| 0 <= k < c.len() implies legal(#[trigger] c[k]) by {
        match bias {
            Bias::Left => {
                if k < t.len() {
                    assert(c[k] == t[k]);
                }
            },
            Bias::Right => {
                if k >= g {
                    assert(c[k] == t[k - g]);
                }
            },
        }
    }
}

/// The merge pass doubles tiles or empties cells, so it keeps a row legal.
pub proof fn lemma_join_legal(s: Seq<i16>, bias: Bias)
    requires
        legal_row(s),
        doubling_fits(s),
    ensures
        legal_row(join(s, bias)),
{
    let out = join(s, bias);
    law_merge_once(s, bias);
    lemma_join_len(s, bias);
    assert forall|k: int| 0 <= k < out.len() implies legal(#[trigger] out[k]) by {
        assert(cell_explained(s, out, k, bias));
        assert(legal(s[k]));
        if merged_pair(s, out, k, bias) {
            assert(pair_at(s, k));
            lemma_double_is_legal(s[k]);
        }
        if merged_pair(s, out, k - 1, bias) {
            assert(pair_at(s, k - 1));
            assert(legal(s[k - 1]));
            lemma_double_is_legal(s[k - 1]);
        }
    }
}

/// A move keeps a row legal.
pub proof fn lemma_move_row_legal(s: Seq<i16>, bias: Bias)
    requires
        legal_row(s),
        doubling_fits(tiles(s)),
    ensures
        legal_row(move_row(s, bias)),
{
    lemma_compact_legal(s, bias);
    lemma_compact_fits(s, bias);
    lemma_join_legal(compact(s, bias), bias);
    lemma_compact_legal(join(compact(s, bias), bias), bias);
}

} // verus!
