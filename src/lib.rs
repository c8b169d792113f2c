//! Rule engine for the 4×4 sliding-tile merge puzzle: a board engine that
//! moves, merges and spawns tiles and detects the end of the game, and a
//! session that refuses moves once the game is over.
use vstd::prelude::*;

pub mod board;
pub mod game;
mod random;
pub mod row;
pub mod token;

pub use game::{Direction, Game};

use board::{count_tiles, headroom, is_grid, stuck};
use game::{move_outcome, GameView};

verus! {

/// Why a session refused a move.
#[derive(Clone, Copy, Debug, PartialEq, Eq, Structural)]
pub enum GameError {
    /// The move is not allowed.
    InvalidMove,
    /// The game is already over.
    GameOver,
}

/// A session: one game, on which no move is accepted once it is over.
pub struct GameManager {
    game: Game,
}

impl View for GameManager {
    type V = GameView;

    closed spec fn view(&self) -> GameView {
        self.game@
    }
}

impl GameManager {
    /// A session on a new game: two tiles of 2 or 4, score 0.
    pub fn new() -> (r: Self)
        ensures
            count_tiles(r@.grid) == 2,
            forall|i: int, j: int|
                0 <= i < 4 && 0 <= j < 4 ==> #[trigger] r@.grid[i][j] == 0 || r@.grid[i][j] == 2
                    || r@.grid[i][j] == 4,
            r@.score == 0,
            !r@.over,
    {
        Self { game: Game::new() }
    }

    /// Applies a move. Fails with `GameOver`, leaving the game as it is, when
    /// the game is already over; otherwise returns whether the grid changed.
    pub fn make_move(&mut self, direction: Direction) -> (r: Result<bool, GameError>)
        requires
            old(self)@.over || old(self)@.fits(direction),
        ensures
            old(self)@.over ==> r == Err::<bool, GameError>(GameError::GameOver) && final(self)@ == old(self)@,
            !old(self)@.over ==> (r matches Ok(changed) && move_outcome(old(self)@, direction, changed, final(self)@)),
            final(self)@.score >= old(self)@.score,
            old(self)@.over ==> final(self)@.over,
            final(self)@.over ==> stuck(final(self)@.grid),
    {
        if self.game.is_game_over() {
            return Err(GameError::GameOver);
        }
        Ok(self.game.make_move(direction))
    }

    /// Whether every tile is below 2^31 and the score leaves room for the sum
    /// of the tiles; when it holds, no move in any direction overflows.
    pub fn has_headroom(&self) -> (r: bool)
        ensures
            r == headroom(self@.grid, self@.score),
            r ==> self@.fits(Direction::Up) && self@.fits(Direction::Down) && self@.fits(Direction::Left)
                && self@.fits(Direction::Right),
    {
        self.game.has_headroom()
    }

    /// Whether a move in direction `d` keeps every merged tile and the score
    /// within `u32`.
    pub fn move_fits(&self, d: Direction) -> (r: bool)
        ensures
            r == self@.fits(d),
    {
        self.game.move_fits(d)
    }

    /// The grid of a session has four rows of four cells.
    pub proof fn lemma_grid_shape(&self)
        ensures
            is_grid(self@.grid),
    {
        self.game.lemma_grid_shape();
    }

    /// The cells of the grid.
    pub fn get_board(&self) -> (r: [[u32; 4]; 4])
        ensures
            game::grid_of(r) == self@.grid,
            is_grid(self@.grid),
    {
        self.game.get_board()
    }

    /// The score.
    pub fn get_score(&self) -> (r: u32)
        ensures
            r == self@.score,
    {
        self.game.get_score()
    }

    /// Whether the game is over.
    pub fn is_game_over(&self) -> (r: bool)
        ensures
            r == self@.over,
            r ==> stuck(self@.grid),
    {
        self.game.is_game_over()
    }
}

} // verus!
