use reversi::board::{Board, Move, Player};
use reversi::game::{Game, GameState};
use reversi::search::{find_best_move, negamax};

/// All cells of a board as a vector of rows, for whole-board comparisons.
fn cells_of(board: &Board) -> Vec<Vec<Option<Player>>> {
    let n = board.size();
    let mut rows = Vec::new();
    for r in 0..n {
        let mut row = Vec::new();
        for c in 0..n {
            row.push(board.get_cell(r, c));
        }
        rows.push(row);
    }
    rows
}

/// Plays one full game where each side picks the legal move whose index is
/// drawn from a tiny deterministic generator. Whenever a move leaves the
/// opponent without a legal move (so the turn skips back to the mover),
/// rebuilds that position with the stuck side to move and collects it.
fn forced_pass_positions(seed: u64) -> Vec<Game> {
    let mut state = seed;
    let mut game = Game::new(4);
    let mut stuck = Vec::new();
    let mut plies = 0;
    while !game.is_over() && plies < 64 {
        let mover = game.current_player;
        let moves = game.board.get_legal_moves(mover);
        if moves.is_empty() {
            game = game.pass_turn();
        } else {
            state = state.wrapping_mul(6364136223846793005).wrapping_add(1442695040888963407);
            let idx = (state >> 33) as usize % moves.len();
            let next = game.play_move(moves[idx]);
            if !next.is_over() && next.current_player == mover {
                stuck.push(Game {
                    board: next.board.clone(),
                    current_player: mover.opponent(),
                    state: GameState::InProgress,
                });
            }
            game = next;
        }
        plies += 1;
    }
    stuck
}

#[test]
fn opponent_swaps_sides() {
    assert_eq!(Player::Black.opponent(), Player::White);
    assert_eq!(Player::White.opponent(), Player::Black);
}

#[test]
fn new_board_starts_with_two_discs_each() {
    for request in [2usize, 4, 6, 8] {
        let board = Board::new(request);
        assert_eq!(board.count_pieces(), (2, 2));
    }
}

#[test]
fn new_board_center_pattern() {
    let board = Board::new(4);
    assert_eq!(board.get_cell(1, 1), Some(Player::White));
    assert_eq!(board.get_cell(1, 2), Some(Player::Black));
    assert_eq!(board.get_cell(2, 1), Some(Player::Black));
    assert_eq!(board.get_cell(2, 2), Some(Player::White));
    for r in 0..4 {
        for c in 0..4 {
            if (r == 1 || r == 2) && (c == 1 || c == 2) {
                continue;
            }
            assert_eq!(board.get_cell(r, c), None);
        }
    }
}

#[test]
fn board_size_is_clamped_and_rounded() {
    assert_eq!(Board::new(0).size(), 2);
    assert_eq!(Board::new(1).size(), 2);
    assert_eq!(Board::new(2).size(), 2);
    assert_eq!(Board::new(3).size(), 4);
    assert_eq!(Board::new(5).size(), 6);
    assert_eq!(Board::new(7).size(), 8);
    assert_eq!(Board::new(8).size(), 8);
    assert_eq!(Board::new(9).size(), 8);
    assert_eq!(Board::new(100).size(), 8);
}

#[test]
fn initial_legal_moves_on_4x4() {
    let board = Board::new(4);
    let moves: Vec<Move> = board.get_legal_moves(Player::Black);
    assert_eq!(moves, vec![(0, 1), (1, 0), (2, 3), (3, 2)]);
    let again = board.get_legal_moves(Player::Black);
    assert_eq!(moves, again);
}

#[test]
fn legal_move_placement_flips_and_counts() {
    let mut board = Board::new(4);
    let moves = board.get_legal_moves(Player::Black);
    for mv in moves {
        let mut fresh = Board::new(4);
        let placed = fresh.place_piece(Player::Black, mv);
        let placed = placed.expect("a reported legal move must succeed");
        let (black, white) = placed.count_pieces();
        // One placed disc plus at least one flip, taken from White.
        assert!(black >= 2 + 1 + 1);
        assert_eq!(black + white, 5);
        assert_eq!(white, 2 - (black - 3));
    }
    // The concrete move (0, 1) flips exactly the disc at (1, 1).
    let placed = board.place_piece(Player::Black, (0, 1)).unwrap();
    assert_eq!(placed.count_pieces(), (4, 1));
    assert_eq!(placed.get_cell(0, 1), Some(Player::Black));
    assert_eq!(placed.get_cell(1, 1), Some(Player::Black));
    assert_eq!(placed.get_cell(2, 2), Some(Player::White));
}

#[test]
fn illegal_move_changes_nothing() {
    let mut board = Board::new(4);
    let before = cells_of(&board);
    assert!(board.place_piece(Player::Black, (0, 0)).is_none());
    assert!(board.place_piece(Player::Black, (1, 1)).is_none());
    assert!(board.place_piece(Player::Black, (9, 9)).is_none());
    assert_eq!(cells_of(&board), before);

    let game = Game::new(4);
    let after = game.play_move((0, 0));
    assert_eq!(cells_of(&after.board), cells_of(&game.board));
    assert_eq!(after.current_player, game.current_player);
    assert!(after.state == game.state);
    assert_eq!(after.state, GameState::InProgress);
}

#[test]
fn is_legal_move_matches_enumeration() {
    let board = Board::new(4);
    let moves = board.get_legal_moves(Player::Black);
    for r in 0..4 {
        for c in 0..4 {
            assert_eq!(board.is_legal_move(Player::Black, (r, c)), moves.contains(&(r, c)));
        }
    }
    assert!(!board.is_legal_move(Player::Black, (4, 4)));
}

#[test]
fn two_by_two_game_is_an_immediate_draw() {
    let game = Game::new(2);
    assert!(game.is_over());
    assert_eq!(game.state, GameState::Draw);
    assert_eq!(game.board.count_pieces(), (2, 2));
    assert_eq!(game.evaluate(Player::Black), 0);
    assert_eq!(game.evaluate(Player::White), 0);
}

#[test]
fn evaluate_reports_disc_differential() {
    let game = Game::new(4);
    assert_eq!(game.evaluate(Player::Black), 0);
    assert_eq!(game.evaluate(Player::White), 0);
    let next = game.play_move((0, 1));
    assert_eq!(next.current_player, Player::White);
    assert_eq!(next.evaluate(Player::Black), 3);
    assert_eq!(next.evaluate(Player::White), -3);
}

#[test]
fn search_at_depth_zero_is_evaluation() {
    let game = Game::new(4);
    for p in [Player::Black, Player::White] {
        assert_eq!(negamax(game.clone(), 0, p), game.evaluate(p));
    }
    let next = game.play_move((1, 0));
    for p in [Player::Black, Player::White] {
        assert_eq!(negamax(next.clone(), 0, p), next.evaluate(p));
    }
}

#[test]
fn negamax_step_is_max_of_negated_children() {
    for depth in [1, 2, 3] {
        let game = Game::new(4);
        let mp = game.current_player;
        let moves = game.board.get_legal_moves(mp);
        assert!(!moves.is_empty());
        let best = moves
            .iter()
            .map(|&mv| -negamax(game.play_move(mv), depth - 1, mp))
            .max()
            .unwrap();
        assert_eq!(negamax(game.clone(), depth, mp), best);
    }
}

#[test]
fn best_move_is_first_argmax() {
    let game = Game::new(4);
    let mp = game.current_player;
    let moves = game.board.get_legal_moves(mp);
    let values: Vec<i32> =
        moves.iter().map(|&mv| -negamax(game.play_move(mv), 1, mp)).collect();
    let best = *values.iter().max().unwrap();
    let expected = moves[values.iter().position(|&v| v == best).unwrap()];
    assert_eq!(find_best_move(&game, 2), Some(expected));
}

#[test]
fn forced_pass_switches_mover_and_negates_search() {
    let mut found = false;
    for seed in 0..64u64 {
        for game in forced_pass_positions(seed) {
            found = true;
            assert!(!game.is_over());
            assert!(game.board.get_legal_moves(game.current_player).is_empty());
            assert!(!game
                .board
                .get_legal_moves(game.current_player.opponent())
                .is_empty());
            assert_eq!(find_best_move(&game, 3), None);
            let passed = game.pass_turn();
            assert_eq!(cells_of(&passed.board), cells_of(&game.board));
            assert_eq!(passed.current_player, game.current_player.opponent());
            assert_eq!(passed.state, GameState::InProgress);
            let mp = game.current_player;
            for depth in [1, 2, 3] {
                assert_eq!(negamax(game.clone(), depth, mp), -negamax(passed.clone(), depth - 1, mp));
            }
        }
        if found {
            break;
        }
    }
    assert!(found, "no forced-pass position reached from the initial 4x4 game");
}

#[test]
fn self_play_terminates_with_consistent_verdict() {
    for size in [4usize, 6] {
        let mut game = Game::new(size);
        let cell_count = size * size;
        let mut plies = 0;
        while !game.is_over() {
            assert!(plies <= 2 * cell_count, "game ran past the ply bound");
            match find_best_move(&game, 1) {
                Some(mv) => game = game.play_move(mv),
                None => game = game.pass_turn(),
            }
            plies += 1;
        }
        let (black, white) = game.board.count_pieces();
        assert!(game.board.get_legal_moves(Player::Black).is_empty());
        assert!(game.board.get_legal_moves(Player::White).is_empty());
        match game.state {
            GameState::Winner(Player::Black) => {
                assert!(black > white);
                assert_eq!(game.evaluate(Player::Black), 1000);
                assert_eq!(game.evaluate(Player::White), -1000);
            }
            GameState::Winner(Player::White) => {
                assert!(white > black);
                assert_eq!(game.evaluate(Player::White), 1000);
                assert_eq!(game.evaluate(Player::Black), -1000);
            }
            GameState::Draw => {
                assert_eq!(black, white);
                assert_eq!(game.evaluate(Player::Black), 0);
            }
            GameState::InProgress => unreachable!("the loop only exits on a terminal state"),
        }
    }
}

#[test]
fn skipped_side_is_passed_over_after_a_move() {
    // Whenever play_move hands the turn back to the mover, the opponent must
    // really be out of moves; whenever it hands it on, the opponent can move.
    let mut state = 7u64;
    let mut game = Game::new(4);
    let mut plies = 0;
    while !game.is_over() && plies < 64 {
        let mover = game.current_player;
        let moves = game.board.get_legal_moves(mover);
        if moves.is_empty() {
            game = game.pass_turn();
        } else {
            state = state.wrapping_mul(6364136223846793005).wrapping_add(1442695040888963407);
            let mv = moves[(state >> 33) as usize % moves.len()];
            let next = game.play_move(mv);
            if !next.is_over() {
                if next.current_player == mover {
                    assert!(next.board.get_legal_moves(mover.opponent()).is_empty());
                } else {
                    assert!(!next.board.get_legal_moves(mover.opponent()).is_empty());
                }
            }
            game = next;
        }
        plies += 1;
    }
}

#[test]
fn unchecked_placement_matches_checked() {
    let mut a = Board::new(4);
    let mut b = Board::new(4);
    let checked = a.place_piece(Player::Black, (1, 0)).unwrap();
    let unchecked = b.place_piece_unchecked(Player::Black, (1, 0));
    assert_eq!(cells_of(&checked), cells_of(&unchecked));
    assert_eq!(cells_of(&a), cells_of(&b));
    assert_eq!(checked.count_pieces(), (4, 1));
}
