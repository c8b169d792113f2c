use game2048::row::{row_check, slide_row};
use game2048::token::{direction_of_upper, parse_direction};
use game2048::{Direction, Game, GameError, GameManager};

fn tile_count(board: &[[u32; 4]; 4]) -> usize {
    board.iter().flatten().filter(|&&c| c != 0).count()
}

const SAMPLE: [[u32; 4]; 4] = [[2, 2, 0, 0], [2, 0, 2, 0], [4, 4, 4, 4], [0, 0, 0, 2]];

#[test]
fn test_new_game() {
    let game = Game::new();
    let board = game.get_board();
    let mut tile_count = 0;
    for row in board.iter() {
        for &cell in row.iter() {
            if cell != 0 {
                tile_count += 1;
            }
        }
    }
    assert_eq!(tile_count, 2);
}

#[test]
fn test_move_left() {
    let mut game = Game::new_with_board(SAMPLE);
    game.move_left();
    let expected_board = [[4, 0, 0, 0], [4, 0, 0, 0], [8, 8, 0, 0], [2, 0, 0, 0]];
    assert_eq!(game.get_board(), expected_board);
    assert_eq!(game.get_score(), 24);
}

#[test]
fn test_move_right() {
    let mut game = Game::new_with_board(SAMPLE);
    game.move_right();
    let expected_board = [[0, 0, 0, 4], [0, 0, 0, 4], [0, 0, 8, 8], [0, 0, 0, 2]];
    assert_eq!(game.get_board(), expected_board);
}

#[test]
fn test_game_manager() {
    let manager = GameManager::new();
    assert!(!manager.is_game_over());
    assert_eq!(manager.get_score(), 0);
}

#[test]
fn test_invalid_operations() {
    let mut manager = GameManager::new();
    while !manager.is_game_over() {
        let _ = manager.make_move(Direction::Left);
        let _ = manager.make_move(Direction::Right);
        let _ = manager.make_move(Direction::Up);
        let _ = manager.make_move(Direction::Down);
    }
    assert!(matches!(manager.make_move(Direction::Left), Err(GameError::GameOver)));
}

#[test]
fn row_pair_merges_once() {
    assert_eq!(slide_row([2, 2, 0, 0]), ([4, 0, 0, 0], 4));
}

#[test]
fn row_gap_is_closed_before_merging() {
    assert_eq!(slide_row([2, 0, 2, 0]), ([4, 0, 0, 0], 4));
}

#[test]
fn row_of_four_equal_merges_pairwise() {
    assert_eq!(slide_row([4, 4, 4, 4]), ([8, 8, 0, 0], 16));
}

#[test]
fn row_triple_merges_leftmost_pair() {
    assert_eq!(slide_row([2, 2, 2, 0]), ([4, 2, 0, 0], 4));
    assert_eq!(slide_row([0, 0, 0, 0]), ([0, 0, 0, 0], 0));
    assert_eq!(slide_row([2, 4, 8, 16]), ([2, 4, 8, 16], 0));
    assert_eq!(slide_row([8, 0, 4, 4]), ([8, 8, 0, 0], 8));
}

#[test]
fn merged_tile_is_not_merged_again() {
    assert_eq!(slide_row([4, 4, 8, 0]), ([8, 8, 0, 0], 8));
}

#[test]
fn move_up_and_down_are_exact() {
    let mut game = Game::new_with_board(SAMPLE);
    game.move_up();
    assert_eq!(game.get_board(), [[4, 2, 2, 4], [4, 4, 4, 2], [0, 0, 0, 0], [0, 0, 0, 0]]);
    assert_eq!(game.get_score(), 4);
    let mut game = Game::new_with_board(SAMPLE);
    game.move_down();
    assert_eq!(game.get_board(), [[0, 0, 0, 0], [0, 0, 0, 0], [4, 2, 2, 4], [4, 4, 4, 2]]);
    assert_eq!(game.get_score(), 4);
}

#[test]
fn changing_move_spawns_one_tile_and_scores_merges() {
    let mut game = Game::new_with_board(SAMPLE);
    assert!(game.make_move(Direction::Right));
    assert_eq!(game.get_score(), 24);
    let board = game.get_board();
    assert_eq!(tile_count(&board), 6);
    let moved = [[0, 0, 0, 4], [0, 0, 0, 4], [0, 0, 8, 8], [0, 0, 0, 2]];
    let mut differing = 0;
    for i in 0..4 {
        for j in 0..4 {
            if board[i][j] != moved[i][j] {
                differing += 1;
                assert_eq!(moved[i][j], 0);
                assert!(board[i][j] == 2 || board[i][j] == 4);
            }
        }
    }
    assert_eq!(differing, 1);
    assert!(!game.is_game_over());
}

#[test]
fn move_without_effect_changes_nothing() {
    let start = [[2, 4, 0, 0], [8, 0, 0, 0], [0, 0, 0, 0], [16, 2, 4, 0]];
    let mut game = Game::new_with_board(start);
    assert!(!game.make_move(Direction::Left));
    assert_eq!(game.get_board(), start);
    assert_eq!(game.get_score(), 0);
    assert!(!game.make_move(Direction::Up) || game.get_board() != start);
}

#[test]
fn score_never_decreases() {
    let mut game = Game::new();
    let mut last = game.get_score();
    for k in 0..200 {
        let d = [Direction::Left, Direction::Up, Direction::Right, Direction::Down][k % 4];
        game.make_move(d);
        assert!(game.get_score() >= last);
        last = game.get_score();
    }
}

#[test]
fn stuck_board_after_changing_move_is_terminal() {
    let start = [[2, 4, 2, 4], [4, 2, 4, 2], [64, 4, 2, 4], [8, 16, 32, 0]];
    let mut game = Game::new_with_board(start);
    assert!(!game.is_game_over());
    assert!(game.make_move(Direction::Right));
    assert!(game.is_game_over());
    assert_eq!(game.get_score(), 0);
    let board = game.get_board();
    assert!(board[3][0] == 2 || board[3][0] == 4);
    assert_eq!(board[3][1..], [8, 16, 32]);
    assert!(!game.make_move(Direction::Left));
    assert_eq!(game.get_board(), board);
}

#[test]
fn full_board_with_merge_is_not_terminal() {
    let start = [[2, 4, 2, 4], [4, 2, 4, 2], [2, 4, 2, 4], [4, 4, 8, 16]];
    let mut game = Game::new_with_board(start);
    assert!(game.make_move(Direction::Left));
    assert_eq!(game.get_score(), 8);
    assert_eq!(game.get_board()[3][..3], [8, 8, 16]);
    assert!(!game.is_game_over());
}

#[test]
fn left_then_right_restores_right_packed_board() {
    let start = [[0, 0, 2, 4], [0, 8, 2, 4], [0, 0, 0, 0], [2, 4, 8, 16]];
    let mut game = Game::new_with_board(start);
    game.move_left();
    game.move_right();
    assert_eq!(game.get_board(), start);
    assert_eq!(game.get_score(), 0);
}

#[test]
fn up_then_down_restores_bottom_packed_board() {
    let start = [[0, 0, 0, 2], [0, 0, 4, 4], [2, 0, 8, 8], [4, 0, 2, 16]];
    let mut game = Game::new_with_board(start);
    game.move_up();
    game.move_down();
    assert_eq!(game.get_board(), start);
    assert_eq!(game.get_score(), 0);
}

#[test]
fn new_session_holds_two_small_tiles() {
    let manager = GameManager::new();
    let board = manager.get_board();
    assert_eq!(tile_count(&board), 2);
    assert!(board.iter().flatten().all(|&c| c == 0 || c == 2 || c == 4));
    assert_eq!(manager.get_score(), 0);
}

#[test]
fn session_refuses_moves_after_game_over() {
    let mut manager = GameManager::new();
    while !manager.is_game_over() {
        for d in [Direction::Left, Direction::Down, Direction::Right, Direction::Up] {
            if !manager.is_game_over() {
                assert!(manager.make_move(d).is_ok());
            }
        }
    }
    let board = manager.get_board();
    let score = manager.get_score();
    for d in [Direction::Left, Direction::Down, Direction::Right, Direction::Up] {
        assert_eq!(manager.make_move(d), Err(GameError::GameOver));
        assert_eq!(manager.get_board(), board);
        assert_eq!(manager.get_score(), score);
        assert!(manager.is_game_over());
    }
}

#[test]
fn tokens_are_read_in_any_case() {
    assert_eq!(parse_direction("up"), Some(Direction::Up));
    assert_eq!(parse_direction("Down"), Some(Direction::Down));
    assert_eq!(parse_direction("LEFT"), Some(Direction::Left));
    assert_eq!(parse_direction("rIgHt"), Some(Direction::Right));
}

#[test]
fn unknown_tokens_are_rejected() {
    assert_eq!(parse_direction("invalid"), None);
    assert_eq!(parse_direction(""), None);
    assert_eq!(parse_direction("UPP"), None);
    assert_eq!(parse_direction(" left"), None);
}

#[test]
fn upper_case_tokens_only_after_folding() {
    assert_eq!(direction_of_upper(&"UP".to_string()), Some(Direction::Up));
    assert_eq!(direction_of_upper(&"RIGHT".to_string()), Some(Direction::Right));
    assert_eq!(direction_of_upper(&"up".to_string()), None);
    assert_eq!(direction_of_upper(&"Left".to_string()), None);
}

#[test]
fn headroom_bounds_tiles_and_score() {
    assert!(Game::new_with_board(SAMPLE).has_headroom());
    assert!(Game::new().has_headroom());
    let mut big = SAMPLE;
    big[1][1] = 0x8000_0000;
    assert!(!Game::new_with_board(big).has_headroom());
    let mut near = [[0u32; 4]; 4];
    near[0][0] = 0x7fff_ffff;
    near[0][1] = 0x7fff_ffff;
    assert!(Game::new_with_board(near).has_headroom());
    near[0][2] = 2;
    assert!(!Game::new_with_board(near).has_headroom());
    assert!(GameManager::new().has_headroom());
}

#[test]
fn largest_mergeable_tiles_fit() {
    assert_eq!(
        slide_row([0x4000_0000, 0x4000_0000, 0, 0]),
        ([0x8000_0000, 0, 0, 0], 0x8000_0000)
    );
}

#[test]
fn row_reduction_conserves_tile_values() {
    let rows: [[u32; 4]; 6] = [
        [2, 2, 2, 2],
        [2, 2, 4, 0],
        [0, 4, 4, 8],
        [16, 0, 16, 16],
        [2, 4, 2, 4],
        [0, 0, 8, 0],
    ];
    for row in rows {
        let (out, gained) = slide_row(row);
        let before: u32 = row.iter().sum();
        let after: u32 = out.iter().sum();
        assert_eq!(before, after);
        let tiles_before = row.iter().filter(|&&c| c != 0).count();
        let tiles_after = out.iter().filter(|&&c| c != 0).count();
        assert!(tiles_after <= tiles_before);
        let merges = tiles_before - tiles_after;
        assert_eq!(merges == 0, gained == 0);
        for v in out.iter().filter(|&&c| c != 0) {
            let original = row.contains(v);
            let doubled = v % 2 == 0 && row.iter().filter(|&&c| c == v / 2).count() >= 2;
            assert!(original || doubled);
        }
    }
}

#[test]
fn placed_tile_follows_the_coin() {
    let mut game = Game::new_with_board(SAMPLE);
    game.place_tile((0, 3), true);
    assert_eq!(game.get_board()[0], [2, 2, 0, 2]);
    game.place_tile((3, 0), false);
    assert_eq!(game.get_board()[3], [4, 0, 0, 2]);
    assert_eq!(game.get_board()[1], SAMPLE[1]);
    assert_eq!(game.get_score(), 0);
    assert!(!game.is_game_over());
}

#[test]
fn move_fits_is_exact() {
    let mut board = [[0u32; 4]; 4];
    board[0][0] = 0x8000_0000;
    board[0][1] = 0x8000_0000;
    let game = Game::new_with_board(board);
    assert!(!game.move_fits(Direction::Left));
    assert!(!game.move_fits(Direction::Right));
    assert!(game.move_fits(Direction::Up));
    assert!(game.move_fits(Direction::Down));
    assert!(!game.has_headroom());
    let mut board = [[0u32; 4]; 4];
    board[0][0] = 0x4000_0000;
    board[1][0] = 0x4000_0000;
    board[2][0] = 0x4000_0000;
    board[3][0] = 0x4000_0000;
    let game = Game::new_with_board(board);
    assert!(!game.move_fits(Direction::Up));
    assert!(game.move_fits(Direction::Left));
    board[2][0] = 0;
    board[3][0] = 0;
    let game = Game::new_with_board(board);
    assert!(game.move_fits(Direction::Up));
    let manager = GameManager::new();
    for d in [Direction::Left, Direction::Down, Direction::Right, Direction::Up] {
        assert!(manager.move_fits(d));
    }
}

#[test]
fn row_check_reports_overflow_and_points() {
    assert_eq!(row_check([2, 2, 4, 4]), (true, 12));
    assert_eq!(row_check([2, 4, 8, 16]), (true, 0));
    assert_eq!(row_check([0x8000_0000, 0, 0x8000_0000, 0]).0, false);
    assert_eq!(row_check([0x8000_0000, 2, 0x8000_0000, 0]), (true, 0));
}

#[test]
fn left_then_right_without_merges_ends_as_right() {
    let start = [[0, 2, 0, 4], [2, 0, 0, 0], [8, 4, 0, 2], [0, 0, 0, 0]];
    let mut game = Game::new_with_board(start);
    game.move_left();
    game.move_right();
    let mut direct = Game::new_with_board(start);
    direct.move_right();
    assert_eq!(game.get_board(), direct.get_board());
    assert_eq!(game.get_board(), [[0, 0, 2, 4], [0, 0, 0, 2], [0, 8, 4, 2], [0, 0, 0, 0]]);
    assert_eq!(game.get_score(), 0);
}

#[test]
fn up_then_down_without_merges_ends_as_down() {
    let start = [[2, 0, 8, 0], [0, 0, 0, 0], [4, 2, 4, 0], [0, 0, 0, 16]];
    let mut game = Game::new_with_board(start);
    game.move_up();
    game.move_down();
    let mut direct = Game::new_with_board(start);
    direct.move_down();
    assert_eq!(game.get_board(), direct.get_board());
    assert_eq!(game.get_score(), 0);
}
