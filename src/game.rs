//! The board engine: grid, score and terminal flag, and the move operation.
use vstd::prelude::*;

use crate::board::{
    cell_sum, count_tiles, fits, fits_left, full, gain, gain_left, headroom, is_grid,
    lemma_changed_has_room, lemma_full_count, lemma_headroom_fits, lemma_placed_count,
    lemma_stuck_no_move, lemma_stuck_turned, lemma_unchanged_no_gain, mirror, placed,
    slid, slide_left, spawned, stuck, transpose, Grid,
};
use crate::row::{lemma_row_gain_nonneg, row_check, row_fits, row_gain, slide_row, tiles};
use crate::random::{chance, choose_cell};

verus! {

/// The four directions of a move.
#[derive(Clone, Copy, Debug, PartialEq, Eq, Structural)]
pub enum Direction {
    Up,
    Down,
    Left,
    Right,
}

/// The cells of a board as a grid.
pub open spec fn grid_of(b: [[u32; 4]; 4]) -> Grid {
    Seq::new(4, |i: int| b[i]@)
}

/// What a game is: its grid, its score and whether it is over.
pub struct GameView {
    pub grid: Grid,
    pub score: u32,
    pub over: bool,
}

impl GameView {
    /// A move in direction `d` keeps every tile and the score within `u32`.
    pub open spec fn fits(self, d: Direction) -> bool {
        fits(self.grid, d) && self.score + gain(self.grid, d) <= u32::MAX
    }
}

/// What a move in direction `d` makes of the game `before`: `changed` tells
/// whether the grid moved. A move that changes nothing leaves
/// the game as it is. One that does always leaves an empty cell; it adds the
/// merged tiles to the score, spawns exactly one tile in an empty cell of the
/// moved grid, and sets the terminal flag exactly when the resulting grid is
/// stuck.
pub open spec fn move_outcome(before: GameView, d: Direction, changed: bool, after: GameView) -> bool {
    let moved = slid(before.grid, d);
    &&& changed == (moved != before.grid)
    &&& !changed ==> after == before
    &&& changed ==> after.score == before.score + gain(before.grid, d)
    &&& changed ==> !full(moved)
    &&& changed ==> spawned(moved, after.grid)
    &&& changed ==> count_tiles(after.grid) == count_tiles(moved) + 1
    &&& changed ==> after.over == stuck(after.grid)
}

/// Whether two boards hold the same cells.
fn same_board(a: &[[u32; 4]; 4], b: &[[u32; 4]; 4]) -> (r: bool)
    ensures
        r == (grid_of(*a) == grid_of(*b)),
{
    let mut i: usize = 0;
    while i < 4
        invariant
            i <= 4,
            forall|x: int, y: int| 0 <= x < i && 0 <= y < 4 ==> a[x][y] == b[x][y],
        decreases 4 - i,
    {
        let mut j: usize = 0;
        while j < 4
            invariant
                i < 4,
                j <= 4,
                forall|x: int, y: int| 0 <= x < i && 0 <= y < 4 ==> a[x][y] == b[x][y],
                forall|y: int| 0 <= y < j ==> a[i as int][y] == b[i as int][y],
            decreases 4 - j,
        {
            if a[i][j] != b[i][j] {
                assert(grid_of(*a)[i as int][j as int] != grid_of(*b)[i as int][j as int]);
                return false;
            }
            j += 1;
        }
        i += 1;
    }
    assert(grid_of(*a) =~~= grid_of(*b));
    true
}

/// A board engine: a 4×4 grid of tiles, the score and the terminal flag.
#[derive(Clone, Copy, Debug)]
pub struct Game {
    board: [[u32; 4]; 4],
    score: u32,
    game_over: bool,
}

impl View for Game {
    type V = GameView;

    closed spec fn view(&self) -> GameView {
        GameView { grid: grid_of(self.board), score: self.score, over: self.game_over }
    }
}

impl Game {
    /// The terminal flag is set only on a stuck grid.
    #[verifier::type_invariant]
    spec fn terminal_means_stuck(self) -> bool {
        self.game_over ==> stuck(grid_of(self.board))
    }

    /// A game on the given grid, with score 0 and not over; no tile is spawned.
    pub fn new_with_board(board: [[u32; 4]; 4]) -> (r: Self)
        ensures
            r@.grid == grid_of(board),
            r@.score == 0,
            !r@.over,
    {
        Game { board, score: 0, game_over: false }
    }

    /// A new game: an empty grid on which two tiles are spawned, score 0.
    pub fn new() -> (r: Self)
        ensures
            count_tiles(r@.grid) == 2,
            forall|i: int, j: int|
                0 <= i < 4 && 0 <= j < 4 ==> #[trigger] r@.grid[i][j] == 0 || r@.grid[i][j] == 2
                    || r@.grid[i][j] == 4,
            r@.score == 0,
            !r@.over,
    {
        let mut game = Game { board: [[0; 4]; 4], score: 0, game_over: false };
        let ghost g0 = game@.grid;
        proof {
            assert(g0[0] =~= seq![0u32, 0, 0, 0]);
            reveal_with_fuel(tiles, 5);
            assert(tiles(g0[0]).len() == 0);
            assert(count_tiles(g0) == 0);
            assert(!full(g0) && g0[0][0] == 0);
        }
        game.add_random_tile();
        let ghost g1 = game@.grid;
        proof {
            if full(g1) {
                lemma_full_count(g1);
            }
        }
        game.add_random_tile();
        proof {
            let g2 = game@.grid;
            assert forall|i: int, j: int| 0 <= i < 4 && 0 <= j < 4 implies #[trigger] g2[i][j] == 0
                || g2[i][j] == 2 || g2[i][j] == 4 by {
                assert(g1[i][j] == 0 || g1[i][j] == 2 || g1[i][j] == 4);
            }
        }
        game
    }

    /// Swaps rows and columns.
    fn transpose(&mut self)
        ensures
            final(self)@.grid == transpose(old(self)@.grid),
            final(self)@.score == old(self)@.score,
            final(self)@.over == old(self)@.over,
    {
        let mut new_board: [[u32; 4]; 4] = [[0; 4]; 4];
        let mut i: usize = 0;
        while i < 4
            invariant
                i <= 4,
                forall|a: int, b: int| 0 <= a < i && 0 <= b < 4 ==> new_board[a][b] == self.board[b][a],
            decreases 4 - i,
        {
            let mut j: usize = 0;
            while j < 4
                invariant
                    i < 4,
                    j <= 4,
                    forall|a: int, b: int| 0 <= a < i && 0 <= b < 4 ==> new_board[a][b] == self.board[b][a],
                    forall|b: int| 0 <= b < j ==> new_board[i as int][b] == self.board[b][i as int],
                decreases 4 - j,
            {
                new_board[i][j] = self.board[j][i];
                j += 1;
            }
            i += 1;
        }
        proof {
            use_type_invariant(&*self);
            assert(grid_of(new_board) =~~= transpose(grid_of(self.board)));
            if self.game_over {
                lemma_stuck_turned(grid_of(self.board));
            }
        }
        self.board = new_board;
    }

    /// Reverses every row.
    fn reverse_rows(&mut self)
        ensures
            final(self)@.grid == mirror(old(self)@.grid),
            final(self)@.score == old(self)@.score,
            final(self)@.over == old(self)@.over,
    {
        let mut board = self.board;
        let mut row: usize = 0;
        while row < 4
            invariant
                row <= 4,
                forall|a: int, b: int| 0 <= a < row && 0 <= b < 4 ==> board[a][b] == self.board[a][3 - b],
                forall|a: int| row <= a < 4 ==> board[a] == self.board[a],
            decreases 4 - row,
        {
            let r = board[row];
            board[row] = [r[3], r[2], r[1], r[0]];
            row += 1;
        }
        proof {
            use_type_invariant(&*self);
            assert(grid_of(board) =~~= mirror(grid_of(self.board)));
            if self.game_over {
                lemma_stuck_turned(grid_of(self.board));
            }
        }
        self.board = board;
    }

    /// Moves every row to the left, adding the merged tiles to the score.
    pub fn move_left(&mut self)
        requires
            fits_left(old(self)@.grid),
            old(self)@.score + gain_left(old(self)@.grid) <= u32::MAX,
        ensures
            final(self)@.grid == slide_left(old(self)@.grid),
            final(self)@.score == old(self)@.score + gain_left(old(self)@.grid),
            final(self)@.over == old(self)@.over,
    {
        let ghost g = old(self)@.grid;
        proof {
            assert(row_fits(g[0]) && row_fits(g[1]) && row_fits(g[2]) && row_fits(g[3]));
        }
        let mut board = self.board;
        let mut score = self.score;
        let mut row: usize = 0;
        while row < 4
            invariant
                row <= 4,
                g == grid_of(self.board),
                fits_left(g),
                self.score + gain_left(g) <= u32::MAX,
                forall|a: int| 0 <= a < row ==> board[a]@ == slide_left(g)[a],
                forall|a: int| row <= a < 4 ==> board[a] == self.board[a],
                score == self.score + row_gains(g, row as int),
            decreases 4 - row,
        {
            proof {
                assert(row_fits(g[row as int]));
                lemma_row_gains_bound(g, row as int);
            }
            let (r, gained) = slide_row(board[row]);
            board[row] = r;
            score = score + gained;
            row += 1;
        }
        proof {
            lemma_row_gains_bound(g, 0);
            assert(grid_of(board) =~~= slide_left(g));
            use_type_invariant(&*self);
            if self.game_over {
                lemma_stuck_no_move(g, Direction::Left);
            }
        }
        self.board = board;
        self.score = score;
    }

    /// Moves every row to the right.
    pub fn move_right(&mut self)
        requires
            old(self)@.fits(Direction::Right),
        ensures
            final(self)@.grid == slid(old(self)@.grid, Direction::Right),
            final(self)@.score == old(self)@.score + gain(old(self)@.grid, Direction::Right),
            final(self)@.over == old(self)@.over,
    {
        self.reverse_rows();
        self.move_left();
        self.reverse_rows();
    }

    /// Moves every column up.
    pub fn move_up(&mut self)
        requires
            old(self)@.fits(Direction::Up),
        ensures
            final(self)@.grid == slid(old(self)@.grid, Direction::Up),
            final(self)@.score == old(self)@.score + gain(old(self)@.grid, Direction::Up),
            final(self)@.over == old(self)@.over,
    {
        self.transpose();
        self.move_left();
        self.transpose();
    }

    /// Moves every column down.
    pub fn move_down(&mut self)
        requires
            old(self)@.fits(Direction::Down),
        ensures
            final(self)@.grid == slid(old(self)@.grid, Direction::Down),
            final(self)@.score == old(self)@.score + gain(old(self)@.grid, Direction::Down),
            final(self)@.over == old(self)@.over,
    {
        self.transpose();
        self.move_right();
        self.transpose();
    }

    /// Puts a new tile in the empty cell `cell` (row, column): a 2 when `two`
    /// holds, a 4 otherwise.
    pub fn place_tile(&mut self, cell: (usize, usize), two: bool)
        requires
            cell.0 < 4,
            cell.1 < 4,
            old(self)@.grid[cell.0 as int][cell.1 as int] == 0,
        ensures
            final(self)@.grid == old(self)@.grid.update(
                cell.0 as int,
                old(self)@.grid[cell.0 as int].update(cell.1 as int, if two { 2u32 } else { 4u32 }),
            ),
            final(self)@.score == old(self)@.score,
            final(self)@.over == old(self)@.over,
    {
        proof {
            use_type_invariant(&*self);
        }
        let (i, j) = cell;
        let v: u32 = if two {
            2
        } else {
            4
        };
        self.board[i][j] = v;
        assert(self@.grid =~~= old(self)@.grid.update(i as int, old(self)@.grid[i as int].update(j as int, v)));
    }

    /// Sets one empty cell, chosen uniformly, to 2 (nine times in ten) or 4.
    /// A grid without an empty cell stays as it is.
    fn add_random_tile(&mut self)
        ensures
            spawned(old(self)@.grid, final(self)@.grid),
            !full(old(self)@.grid) ==> count_tiles(final(self)@.grid) == count_tiles(old(self)@.grid) + 1,
            final(self)@.score == old(self)@.score,
            final(self)@.over == old(self)@.over,
    {
        let mut empty_cells: Vec<(usize, usize)> = Vec::new();
        let mut i: usize = 0;
        while i < 4
            invariant
                i <= 4,
                forall|k: int| 0 <= k < empty_cells@.len() ==> {
                    let (a, b) = #[trigger] empty_cells@[k];
                    a < 4 && b < 4 && self.board[a as int][b as int] == 0
                },
                empty_cells@.len() == 0 ==> forall|a: int, b: int|
                    0 <= a < i && 0 <= b < 4 ==> self.board[a][b] != 0,
            decreases 4 - i,
        {
            let mut j: usize = 0;
            while j < 4
                invariant
                    i < 4,
                    j <= 4,
                    forall|k: int| 0 <= k < empty_cells@.len() ==> {
                        let (a, b) = #[trigger] empty_cells@[k];
                        a < 4 && b < 4 && self.board[a as int][b as int] == 0
                    },
                    empty_cells@.len() == 0 ==> forall|a: int, b: int|
                        0 <= a < i && 0 <= b < 4 ==> self.board[a][b] != 0,
                    empty_cells@.len() == 0 ==> forall|b: int|
                        0 <= b < j ==> self.board[i as int][b] != 0,
                decreases 4 - j,
            {
                if self.board[i][j] == 0 {
                    empty_cells.push((i, j));
                }
                j += 1;
            }
            i += 1;
        }
        let ghost before = self@.grid;
        match choose_cell(&empty_cells) {
            Some((i, j)) => {
                proof {
                    let k = choose|k: int| 0 <= k < empty_cells@.len() && empty_cells@[k] == (i, j);
                    assert(empty_cells@[k] == (i, j));
                }
                let two = chance(9, 10);
                self.place_tile((i, j), two);
                proof {
                    assert(placed(before, self@.grid, i as int, j as int));
                    lemma_placed_count(before, self@.grid, i as int, j as int);
                    if full(before) {
                        assert(before[i as int][j as int] != 0);
                    }
                }
            },
            None => {
                assert(full(before));
            },
        }
    }

    /// Sets the terminal flag when no cell is empty and no two adjacent cells
    /// are equal; checking the right and the lower neighbour of every cell
    /// covers every adjacent pair.
    fn check_game_over(&mut self)
        ensures
            final(self)@.grid == old(self)@.grid,
            final(self)@.score == old(self)@.score,
            final(self)@.over == (old(self)@.over || stuck(old(self)@.grid)),
    {
        let ghost g = self@.grid;
        let mut row: usize = 0;
        while row < 4
            invariant
                row <= 4,
                g == self@.grid,
                *self == *old(self),
                forall|a: int, b: int| 0 <= a < row && 0 <= b < 4 ==> g[a][b] != 0,
            decreases 4 - row,
        {
            let mut col: usize = 0;
            while col < 4
                invariant
                    row < 4,
                    col <= 4,
                    g == self@.grid,
                    *self == *old(self),
                    forall|a: int, b: int| 0 <= a < row && 0 <= b < 4 ==> g[a][b] != 0,
                    forall|b: int| 0 <= b < col ==> g[row as int][b] != 0,
                decreases 4 - col,
            {
                if self.board[row][col] == 0 {
                    assert(g[row as int][col as int] == 0);
                    return;
                }
                col += 1;
            }
            row += 1;
        }
        assert(full(g));
        let mut row: usize = 0;
        while row < 4
            invariant
                row <= 4,
                g == self@.grid,
                *self == *old(self),
                forall|a: int, b: int| 0 <= a < row && 0 <= b < 3 ==> #[trigger] g[a][b] != g[a][b + 1],
                forall|a: int, b: int| 0 <= a < row && a < 3 && 0 <= b < 4 ==> #[trigger] g[a][b] != g[a + 1][b],
            decreases 4 - row,
        {
            let mut col: usize = 0;
            while col < 4
                invariant
                    row < 4,
                    col <= 4,
                    g == self@.grid,
                    *self == *old(self),
                    forall|a: int, b: int| 0 <= a < row && 0 <= b < 3 ==> #[trigger] g[a][b] != g[a][b + 1],
                    forall|a: int, b: int| 0 <= a < row && a < 3 && 0 <= b < 4 ==> #[trigger] g[a][b] != g[a + 1][b],
                    forall|b: int| 0 <= b < col && b < 3 ==> #[trigger] g[row as int][b] != g[row as int][b + 1],
                    forall|b: int| 0 <= b < col && row < 3 ==> #[trigger] g[row as int][b] != g[row + 1][b],
                decreases 4 - col,
            {
                let current = self.board[row][col];
                if col < 3 && current == self.board[row][col + 1] {
                    assert(g[row as int][col as int] == g[row as int][col + 1]);
                    return;
                }
                if row < 3 && current == self.board[row + 1][col] {
                    assert(g[row as int][col as int] == g[row + 1][col as int]);
                    return;
                }
                col += 1;
            }
            row += 1;
        }
        self.game_over = true;
    }

    /// Applies a move. A game that is over is left as it is. Otherwise the
    /// grid is moved in `direction`; when that changes it, the merged tiles
    /// are added to the score, a tile is spawned and the terminal flag is
    /// evaluated. Returns whether the grid changed.
    pub fn make_move(&mut self, direction: Direction) -> (changed: bool)
        requires
            old(self)@.over || old(self)@.fits(direction),
        ensures
            move_outcome(old(self)@, direction, changed, final(self)@),
            old(self)@.over ==> !changed && final(self)@ == old(self)@,
            final(self)@.score >= old(self)@.score,
            final(self)@.over ==> stuck(final(self)@.grid),
    {
        proof {
            use_type_invariant(&*self);
        }
        if self.game_over {
            proof {
                lemma_stuck_no_move(self@.grid, direction);
            }
            return false;
        }
        let old_board = self.board;
        let ghost g = self@.grid;
        proof {
            lemma_gain_nonneg(g, direction);
        }
        match direction {
            Direction::Up => self.move_up(),
            Direction::Down => self.move_down(),
            Direction::Left => self.move_left(),
            Direction::Right => self.move_right(),
        }
        if !same_board(&old_board, &self.board) {
            proof {
                lemma_changed_has_room(g, direction);
            }
            self.add_random_tile();
            self.check_game_over();
            true
        } else {
            proof {
                lemma_unchanged_no_gain(g, direction);
            }
            false
        }
    }

    /// Whether a move in direction `d` keeps every merged tile and the score
    /// within `u32`.
    pub fn move_fits(&self, d: Direction) -> (r: bool)
        ensures
            r == self@.fits(d),
    {
        let mut g = *self;
        match d {
            Direction::Left => {},
            Direction::Right => g.reverse_rows(),
            Direction::Up => g.transpose(),
            Direction::Down => {
                g.transpose();
                g.reverse_rows();
            },
        }
        let ghost o = crate::board::oriented(self@.grid, d);
        assert(g@.grid == o);
        let (f0, g0) = row_check(g.board[0]);
        let (f1, g1) = row_check(g.board[1]);
        let (f2, g2) = row_check(g.board[2]);
        let (f3, g3) = row_check(g.board[3]);
        assert(o[0] == g.board[0]@ && o[1] == g.board[1]@ && o[2] == g.board[2]@ && o[3] == g.board[3]@);
        if !(f0 && f1 && f2 && f3) {
            return false;
        }
        assert(fits_left(o));
        self.score as u64 + g0 + g1 + g2 + g3 <= u32::MAX as u64
    }

    /// Whether every tile is below 2^31 and the score leaves room for the sum
    /// of the tiles; when it holds, no move in any direction overflows.
    pub fn has_headroom(&self) -> (r: bool)
        ensures
            r == headroom(self@.grid, self@.score),
            r ==> self@.fits(Direction::Up) && self@.fits(Direction::Down) && self@.fits(Direction::Left)
                && self@.fits(Direction::Right),
    {
        let b = self.board;
        let mut i: usize = 0;
        while i < 4
            invariant
                i <= 4,
                b == self.board,
                forall|x: int, y: int| 0 <= x < i && 0 <= y < 4 ==> b[x][y] < 0x8000_0000,
            decreases 4 - i,
        {
            let mut j: usize = 0;
            while j < 4
                invariant
                    i < 4,
                    j <= 4,
                    b == self.board,
                    forall|x: int, y: int| 0 <= x < i && 0 <= y < 4 ==> b[x][y] < 0x8000_0000,
                    forall|y: int| 0 <= y < j ==> b[i as int][y] < 0x8000_0000,
                decreases 4 - j,
            {
                if b[i][j] >= 0x8000_0000 {
                    assert(self@.grid[i as int][j as int] >= 0x8000_0000);
                    return false;
                }
                j += 1;
            }
            i += 1;
        }
        let sum: u64 = b[0][0] as u64 + b[0][1] as u64 + b[0][2] as u64 + b[0][3] as u64
            + b[1][0] as u64 + b[1][1] as u64 + b[1][2] as u64 + b[1][3] as u64
            + b[2][0] as u64 + b[2][1] as u64 + b[2][2] as u64 + b[2][3] as u64
            + b[3][0] as u64 + b[3][1] as u64 + b[3][2] as u64 + b[3][3] as u64;
        assert(sum == cell_sum(self@.grid));
        let r = self.score as u64 + sum <= u32::MAX as u64;
        proof {
            if r {
                lemma_headroom_fits(self@.grid, self@.score, Direction::Up);
                lemma_headroom_fits(self@.grid, self@.score, Direction::Down);
                lemma_headroom_fits(self@.grid, self@.score, Direction::Left);
                lemma_headroom_fits(self@.grid, self@.score, Direction::Right);
            }
        }
        r
    }

    /// The grid of a game has four rows of four cells.
    pub proof fn lemma_grid_shape(&self)
        ensures
            is_grid(self@.grid),
    {
    }

    /// The cells of the grid.
    pub fn get_board(&self) -> (r: [[u32; 4]; 4])
        ensures
            grid_of(r) == self@.grid,
            is_grid(self@.grid),
    {
        self.board
    }

    /// The score.
    pub fn get_score(&self) -> (r: u32)
        ensures
            r == self@.score,
    {
        self.score
    }

    /// Whether the game is over.
    pub fn is_game_over(&self) -> (r: bool)
        ensures
            r == self@.over,
            r ==> stuck(self@.grid),
    {
        proof {
            use_type_invariant(self);
        }
        self.game_over
    }
}

proof fn lemma_gain_nonneg(g: Grid, d: Direction)
    ensures
        gain(g, d) >= 0,
{
    let o = crate::board::oriented(g, d);
    lemma_row_gain_nonneg(o[0]);
    lemma_row_gain_nonneg(o[1]);
    lemma_row_gain_nonneg(o[2]);
    lemma_row_gain_nonneg(o[3]);
}

/// The points that a move to the left earns on the first `n` rows.
spec fn row_gains(g: Grid, n: int) -> int
    decreases n,
{
    if n <= 0 {
        0
    } else {
        row_gains(g, n - 1) + row_gain(g[n - 1])
    }
}

proof fn lemma_row_gains_bound(g: Grid, n: int)
    requires
        0 <= n < 4,
    ensures
        row_gains(g, n) + row_gain(g[n]) <= gain_left(g),
        row_gains(g, 4) == gain_left(g),
{
    lemma_row_gain_nonneg(g[0]);
    lemma_row_gain_nonneg(g[1]);
    lemma_row_gain_nonneg(g[2]);
    lemma_row_gain_nonneg(g[3]);
    reveal_with_fuel(row_gains, 5);
}

} // verus!
