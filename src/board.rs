//! The model of a grid: moves in the four directions as turns around a move
//! to the left, the spawn rule, the end of the game, and the laws of moves.
use vstd::prelude::*;

use crate::game::Direction;
use crate::row::{
    distinct_neighbours, empties, lemma_merge_distinct, lemma_no_merge_no_gain,
    lemma_reduce_changed_ends_empty, lemma_reduce_fixed, lemma_reduce_len, lemma_row_bounded,
    lemma_row_left_right, lemma_row_left_right_no_merge, lemma_tiles_fill, lemma_tiles_of_dense,
    reduce, reversed, row_fits, row_gain, tiles,
};
verus! {

/// A grid as rows of cells; `0` is an empty cell.
pub type Grid = Seq<Seq<u32>>;

/// The grid with rows and columns swapped.
pub open spec fn transpose(g: Grid) -> Grid {
    Seq::new(4, |i: int| Seq::new(4, |j: int| g[j][i]))
}

/// The grid with every row reversed.
pub open spec fn mirror(g: Grid) -> Grid {
    Seq::new(4, |i: int| Seq::new(4, |j: int| g[i][3 - j]))
}

/// Every row moved to the left.
pub open spec fn slide_left(g: Grid) -> Grid {
    Seq::new(4, |i: int| reduce(g[i]))
}

/// The points that a move to the left earns on the grid.
pub open spec fn gain_left(g: Grid) -> int {
    row_gain(g[0]) + row_gain(g[1]) + row_gain(g[2]) + row_gain(g[3])
}

/// A move to the left on the grid does not overflow a tile.
pub open spec fn fits_left(g: Grid) -> bool {
    forall|i: int| 0 <= i < 4 ==> #[trigger] row_fits(g[i])
}

/// The grid turned so that a move in direction `d` becomes a move to the left.
pub open spec fn oriented(g: Grid, d: Direction) -> Grid {
    match d {
        Direction::Left => g,
        Direction::Right => mirror(g),
        Direction::Up => transpose(g),
        Direction::Down => mirror(transpose(g)),
    }
}

/// Turns a grid that `oriented` produced back to its place.
pub open spec fn restored(g: Grid, d: Direction) -> Grid {
    match d {
        Direction::Left => g,
        Direction::Right => mirror(g),
        Direction::Up => transpose(g),
        Direction::Down => transpose(mirror(g)),
    }
}

/// The grid after a move in direction `d`, before a tile is spawned.
pub open spec fn slid(g: Grid, d: Direction) -> Grid {
    restored(slide_left(oriented(g, d)), d)
}

/// The points that a move in direction `d` earns.
pub open spec fn gain(g: Grid, d: Direction) -> int {
    gain_left(oriented(g, d))
}

/// A move in direction `d` does not overflow a tile.
pub open spec fn fits(g: Grid, d: Direction) -> bool {
    fits_left(oriented(g, d))
}

/// No cell is empty.
pub open spec fn full(g: Grid) -> bool {
    forall|i: int, j: int| 0 <= i < 4 && 0 <= j < 4 ==> #[trigger] g[i][j] != 0
}

/// No cell is empty and no two horizontally or vertically adjacent cells are equal.
pub open spec fn stuck(g: Grid) -> bool {
    &&& full(g)
    &&& forall|i: int, j: int| 0 <= i < 4 && 0 <= j < 3 ==> #[trigger] g[i][j] != g[i][j + 1]
    &&& forall|i: int, j: int| 0 <= i < 3 && 0 <= j < 4 ==> #[trigger] g[i][j] != g[i + 1][j]
}

/// `after` is `before` with the empty cell at row `i`, column `j` set to 2 or 4.
pub open spec fn placed(before: Grid, after: Grid, i: int, j: int) -> bool {
    &&& 0 <= i < 4
    &&& 0 <= j < 4
    &&& before[i][j] == 0
    &&& after[i][j] == 2 || after[i][j] == 4
    &&& after == before.update(i, before[i].update(j, after[i][j]))
}

/// `after` comes from `before` by the spawn rule: one empty cell receives a
/// new tile, and a grid without an empty cell stays as it is.
pub open spec fn spawned(before: Grid, after: Grid) -> bool {
    if full(before) {
        after == before
    } else {
        exists|i: int, j: int| placed(before, after, i, j)
    }
}

/// The number of tiles on the grid.
pub open spec fn count_tiles(g: Grid) -> nat {
    tiles(g[0]).len() + tiles(g[1]).len() + tiles(g[2]).len() + tiles(g[3]).len()
}

/// The grid has four rows of four cells each.
pub open spec fn is_grid(g: Grid) -> bool {
    g.len() == 4 && forall|i: int| 0 <= i < 4 ==> #[trigger] g[i].len() == 4
}

/// The sum of all cells of the grid.
pub open spec fn cell_sum(g: Grid) -> int {
    g[0][0] + g[0][1] + g[0][2] + g[0][3] + g[1][0] + g[1][1] + g[1][2] + g[1][3] + g[2][0] + g[2][1]
        + g[2][2] + g[2][3] + g[3][0] + g[3][1] + g[3][2] + g[3][3]
}

/// Every cell is below 2^31 and the score leaves room for the sum of the cells.
pub open spec fn headroom(g: Grid, score: u32) -> bool {
    &&& forall|i: int, j: int| 0 <= i < 4 && 0 <= j < 4 ==> #[trigger] g[i][j] < 0x8000_0000
    &&& score + cell_sum(g) <= u32::MAX
}

proof fn lemma_transpose_twice(g: Grid)
    requires
        is_grid(g),
    ensures
        transpose(transpose(g)) == g,
{
    assert(transpose(transpose(g)) =~~= g);
}

proof fn lemma_mirror_twice(g: Grid)
    requires
        is_grid(g),
    ensures
        mirror(mirror(g)) == g,
{
    assert(mirror(mirror(g)) =~~= g);
}

/// Turning a grid back and then forth again gives the grid.
proof fn lemma_orient_restored(h: Grid, d: Direction)
    requires
        is_grid(h),
    ensures
        oriented(restored(h, d), d) == h,
{
    lemma_transpose_twice(h);
    lemma_mirror_twice(h);
    lemma_transpose_twice(mirror(h));
}

/// A move to the left keeps the shape of a grid.
proof fn lemma_slide_left_grid(g: Grid)
    requires
        is_grid(g),
    ensures
        is_grid(slide_left(g)),
{
    assert forall|i: int| 0 <= i < 4 implies #[trigger] slide_left(g)[i].len() == 4 by {
        lemma_reduce_len(g[i]);
    }
}

proof fn lemma_right_rows(g: Grid)
    requires
        is_grid(g),
    ensures
        forall|i: int| 0 <= i < 4 ==> #[trigger] slid(g, Direction::Right)[i] == reversed(reduce(reversed(g[i]))),
{
    assert forall|i: int| 0 <= i < 4 implies #[trigger] slid(g, Direction::Right)[i] == reversed(
        reduce(reversed(g[i])),
    ) by {
        assert(mirror(g)[i] == reversed(g[i]));
        lemma_reduce_len(reversed(g[i]));
        assert(slid(g, Direction::Right)[i] == reversed(reduce(reversed(g[i]))));
    }
}

/// Turning a grid and then back gives the grid.
proof fn lemma_restore_oriented(g: Grid, d: Direction)
    requires
        is_grid(g),
    ensures
        restored(oriented(g, d), d) == g,
{
    lemma_transpose_twice(g);
    lemma_mirror_twice(g);
    lemma_mirror_twice(transpose(g));
}

/// A full row without equal neighbours stays as it is under a move to the left.
proof fn lemma_dense_distinct_row(row: Seq<u32>)
    requires
        forall|k: int| 0 <= k < row.len() ==> row[k] != 0,
        distinct_neighbours(row),
    ensures
        reduce(row) == row,
{
    lemma_tiles_of_dense(row);
    lemma_merge_distinct(row);
    assert(row + empties(0) == row);
}

/// On a stuck grid no move changes anything or earns a point: every row and
/// every column is full and has no equal neighbours.
pub proof fn lemma_stuck_no_move(g: Grid, d: Direction)
    requires
        is_grid(g),
        stuck(g),
    ensures
        slid(g, d) == g,
        gain(g, d) == 0,
{
    let o = oriented(g, d);
    assert forall|i: int| 0 <= i < 4 implies #[trigger] slide_left(o)[i] == o[i] by {
        assert forall|k: int| 0 <= k < o[i].len() implies o[i][k] != 0 by {
            assert(g[i][k] != 0 && g[k][i] != 0 && g[i][3 - k] != 0 && g[3 - k][i] != 0);
        }
        assert forall|k: int| 0 <= k < o[i].len() - 1 implies #[trigger] o[i][k] != o[i][k + 1] by {
            assert(g[i][k] != g[i][k + 1]);
            assert(g[k][i] != g[k + 1][i]);
            assert(g[i][2 - k] != g[i][2 - k + 1]);
            assert(g[2 - k][i] != g[2 - k + 1][i]);
        }
        lemma_dense_distinct_row(o[i]);
    }
    assert(slide_left(o) =~= o);
    lemma_restore_oriented(g, d);
    lemma_unchanged_no_gain(g, d);
}

/// Swapping rows and columns, or reversing every row, keeps a grid stuck.
pub proof fn lemma_stuck_turned(g: Grid)
    requires
        is_grid(g),
        stuck(g),
    ensures
        stuck(transpose(g)),
        stuck(mirror(g)),
{
    let t = transpose(g);
    let m = mirror(g);
    assert forall|i: int, j: int| 0 <= i < 4 && 0 <= j < 4 implies #[trigger] t[i][j] != 0 && m[i][j] != 0 by {
        assert(g[j][i] != 0 && g[i][3 - j] != 0);
    }
    assert forall|i: int, j: int| 0 <= i < 4 && 0 <= j < 3 implies #[trigger] t[i][j] != t[i][j + 1] && m[i][j] != m[i][j + 1] by {
        assert(g[j][i] != g[j + 1][i]);
        assert(g[i][2 - j] != g[i][2 - j + 1]);
    }
    assert forall|i: int, j: int| 0 <= i < 3 && 0 <= j < 4 implies #[trigger] t[i][j] != t[i + 1][j] && m[i][j] != m[i + 1][j] by {
        assert(g[j][i] != g[j][i + 1]);
        assert(g[i][3 - j] != g[i + 1][3 - j]);
    }
}

/// A move that changes the grid leaves at least one empty cell: a row or
/// column that changes ends in an empty cell.
pub proof fn lemma_changed_has_room(g: Grid, d: Direction)
    requires
        is_grid(g),
        slid(g, d) != g,
    ensures
        !full(slid(g, d)),
{
    let o = oriented(g, d);
    let sl = slide_left(o);
    lemma_restore_oriented(g, d);
    if forall|i: int| 0 <= i < 4 ==> #[trigger] reduce(o[i]) == o[i] {
        assert(sl =~= o);
    }
    let i = choose|i: int| 0 <= i < 4 && #[trigger] reduce(o[i]) != o[i];
    lemma_reduce_changed_ends_empty(o[i]);
    assert(sl[i][3] == 0);
    let moved = slid(g, d);
    match d {
        Direction::Left => assert(moved[i][3] == 0),
        Direction::Right => assert(moved[i][0] == 0),
        Direction::Up => assert(moved[3][i] == 0),
        Direction::Down => assert(moved[0][i] == 0),
    }
}

/// A move in direction `d` earns no point when no row, read in the direction
/// of the move, has two equal tiles next to each other once its empty cells
/// are dropped.
pub proof fn lemma_no_merge_no_gain_grid(g: Grid, d: Direction)
    requires
        forall|i: int| 0 <= i < 4 ==> #[trigger] distinct_neighbours(tiles(oriented(g, d)[i])),
    ensures
        gain(g, d) == 0,
{
    let o = oriented(g, d);
    assert forall|i: int| 0 <= i < 4 implies #[trigger] row_gain(o[i]) == 0 by {
        assert(distinct_neighbours(tiles(o[i])));
        lemma_merge_distinct(tiles(o[i]));
        lemma_no_merge_no_gain(o[i]);
    }
    assert(row_gain(o[0]) == 0 && row_gain(o[1]) == 0 && row_gain(o[2]) == 0 && row_gain(o[3]) == 0);
}

/// A move that leaves the grid as it is earns no points.
pub proof fn lemma_unchanged_no_gain(g: Grid, d: Direction)
    requires
        is_grid(g),
        slid(g, d) == g,
    ensures
        gain(g, d) == 0,
{
    let o = oriented(g, d);
    assert(is_grid(o));
    lemma_slide_left_grid(o);
    lemma_orient_restored(slide_left(o), d);
    assert(slide_left(o) == o);
    assert forall|i: int| 0 <= i < 4 implies #[trigger] row_gain(o[i]) == 0 by {
        assert(reduce(o[i]) == slide_left(o)[i]);
        lemma_reduce_fixed(o[i]);
    }
    assert(row_gain(o[0]) == 0 && row_gain(o[1]) == 0 && row_gain(o[2]) == 0 && row_gain(o[3]) == 0);
}

/// Placing a tile in an empty cell adds exactly one tile to the grid.
pub proof fn lemma_placed_count(before: Grid, after: Grid, i: int, j: int)
    requires
        is_grid(before),
        placed(before, after, i, j),
    ensures
        count_tiles(after) == count_tiles(before) + 1,
        is_grid(after),
{
    lemma_tiles_fill(before[i], j, after[i][j]);
    assert(after[i] == before[i].update(j, after[i][j]));
}

/// A grid without an empty cell holds sixteen tiles.
pub proof fn lemma_full_count(g: Grid)
    requires
        is_grid(g),
        full(g),
    ensures
        count_tiles(g) == 16,
{
    assert forall|i: int| 0 <= i < 4 implies #[trigger] tiles(g[i]).len() == 4 by {
        assert forall|k: int| 0 <= k < g[i].len() implies g[i][k] != 0 by {
            assert(g[i][k] != 0);
        }
        lemma_tiles_of_dense(g[i]);
    }
    assert(tiles(g[0]).len() == 4 && tiles(g[1]).len() == 4);
    assert(tiles(g[2]).len() == 4 && tiles(g[3]).len() == 4);
}

/// Left then right restores a grid that a move to the right leaves as it is:
/// such a grid has its tiles packed to the right, no two of them equal
/// neighbours, so neither move merges anything.
pub proof fn lemma_left_right_restores(g: Grid)
    requires
        is_grid(g),
        slid(g, Direction::Right) == g,
    ensures
        slid(slid(g, Direction::Left), Direction::Right) == g,
{
    let h = slid(g, Direction::Left);
    lemma_slide_left_grid(g);
    lemma_right_rows(g);
    lemma_right_rows(h);
    assert forall|i: int| 0 <= i < 4 implies #[trigger] slid(h, Direction::Right)[i] == g[i] by {
        assert(reversed(reduce(reversed(g[i]))) == g[i]);
        lemma_row_left_right(g[i]);
        assert(h[i] == reduce(g[i]));
    }
    assert(slid(h, Direction::Right) =~= g);
}

/// When no row has two equal tiles next to each other once its empty cells
/// are dropped, neither a move to the left nor a following move to the right
/// merges anything: the two moves end as a move to the right alone, and
/// neither earns a point.
pub proof fn lemma_left_right_no_merge(g: Grid)
    requires
        is_grid(g),
        forall|i: int| 0 <= i < 4 ==> #[trigger] distinct_neighbours(tiles(g[i])),
    ensures
        slid(slid(g, Direction::Left), Direction::Right) == slid(g, Direction::Right),
        gain(g, Direction::Left) == 0,
        gain(slid(g, Direction::Left), Direction::Right) == 0,
{
    let h = slid(g, Direction::Left);
    lemma_slide_left_grid(g);
    lemma_right_rows(g);
    lemma_right_rows(h);
    assert forall|i: int| 0 <= i < 4 implies #[trigger] slid(h, Direction::Right)[i] == slid(
        g,
        Direction::Right,
    )[i] && row_gain(g[i]) == 0 && row_gain(mirror(h)[i]) == 0 by {
        assert(distinct_neighbours(tiles(g[i])));
        lemma_row_left_right_no_merge(g[i]);
        assert(h[i] == reduce(g[i]));
        assert(mirror(h)[i] == reversed(h[i]));
    }
    assert(slid(h, Direction::Right) =~= slid(g, Direction::Right));
    let m = mirror(h);
    assert forall|i: int| 0 <= i < 4 implies #[trigger] row_gain(g[i]) == 0 && row_gain(m[i]) == 0 by {
        assert(slid(h, Direction::Right)[i] == slid(g, Direction::Right)[i]);
    }
    assert(row_gain(g[0]) == 0 && row_gain(g[1]) == 0 && row_gain(g[2]) == 0 && row_gain(g[3]) == 0);
    assert(row_gain(m[0]) == 0 && row_gain(m[1]) == 0 && row_gain(m[2]) == 0 && row_gain(m[3]) == 0);
}

/// When no column has two equal tiles next to each other once its empty
/// cells are dropped, neither a move up nor a following move down merges
/// anything: the two moves end as a move down alone, and neither earns a point.
pub proof fn lemma_up_down_no_merge(g: Grid)
    requires
        is_grid(g),
        forall|i: int| 0 <= i < 4 ==> #[trigger] distinct_neighbours(tiles(transpose(g)[i])),
    ensures
        slid(slid(g, Direction::Up), Direction::Down) == slid(g, Direction::Down),
        gain(g, Direction::Up) == 0,
        gain(slid(g, Direction::Up), Direction::Down) == 0,
{
    let h = transpose(g);
    assert forall|i: int| 0 <= i < 4 implies #[trigger] distinct_neighbours(tiles(h[i])) by {
        assert(distinct_neighbours(tiles(transpose(g)[i])));
    }
    lemma_left_right_no_merge(h);
    let l = slid(h, Direction::Left);
    lemma_slide_left_grid(h);
    assert(slid(g, Direction::Up) == transpose(l));
    lemma_transpose_twice(l);
    assert(slid(slid(g, Direction::Up), Direction::Down) == transpose(slid(l, Direction::Right)));
    assert(gain(slid(g, Direction::Up), Direction::Down) == gain(l, Direction::Right));
}

/// Up then down restores a grid that a move down leaves as it is: such a grid
/// has its tiles packed to the bottom, no two of them equal neighbours, so
/// neither move merges anything.
pub proof fn lemma_up_down_restores(g: Grid)
    requires
        is_grid(g),
        slid(g, Direction::Down) == g,
    ensures
        slid(slid(g, Direction::Up), Direction::Down) == g,
{
    let h = transpose(g);
    let r = slid(h, Direction::Right);
    assert(slid(g, Direction::Down) == transpose(r));
    lemma_transpose_twice(g);
    lemma_transpose_twice(r);
    assert(r == h);
    lemma_left_right_restores(h);
    let l = slid(h, Direction::Left);
    lemma_slide_left_grid(h);
    assert(slid(g, Direction::Up) == transpose(l));
    lemma_transpose_twice(l);
    assert(slid(slid(g, Direction::Up), Direction::Down) == transpose(slid(l, Direction::Right)));
}

/// On a grid with headroom no move overflows a tile or the score.
pub proof fn lemma_headroom_fits(g: Grid, score: u32, d: Direction)
    requires
        is_grid(g),
        headroom(g, score),
    ensures
        fits(g, d),
        score + gain(g, d) <= u32::MAX,
{
    let o = oriented(g, d);
    assert(is_grid(o));
    assert forall|i: int| 0 <= i < 4 implies #[trigger] row_fits(o[i]) && 0 <= row_gain(o[i]) <= o[i][0] + o[i][1] + o[i][2] + o[i][3] by {
        assert forall|k: int| 0 <= k < 4 implies #[trigger] o[i][k] < 0x8000_0000 by {
            assert(g[i][k] < 0x8000_0000);
            assert(g[k][i] < 0x8000_0000);
            assert(g[i][3 - k] < 0x8000_0000);
            assert(g[3 - k][i] < 0x8000_0000);
        }
        lemma_row_bounded(o[i]);
    }
    assert(row_fits(o[0]));
    assert(row_gain(o[0]) <= o[0][0] + o[0][1] + o[0][2] + o[0][3]);
    assert(row_fits(o[1]));
    assert(row_gain(o[1]) <= o[1][0] + o[1][1] + o[1][2] + o[1][3]);
    assert(row_fits(o[2]));
    assert(row_gain(o[2]) <= o[2][0] + o[2][1] + o[2][2] + o[2][3]);
    assert(row_fits(o[3]));
    assert(row_gain(o[3]) <= o[3][0] + o[3][1] + o[3][2] + o[3][3]);
    assert(cell_sum(o) == cell_sum(g));
    assert(gain(g, d) == gain_left(o));
}

} // verus!
