//! The game layer: a board plus whose turn it is and a status value. The
//! status is terminal exactly when neither side has a legal move, and a side
//! left without a legal move after its opponent's move is skipped.

use vstd::prelude::*;

use crate::board::{
    lemma_count_bounds, lemma_has_move_iff, lemma_occupied_below_full, lemma_place_counts,
    lemma_place_wf, init_board, occupied, Board, BoardModel, Move, Player,
};

verus! {

/// Whether the game is still running, won by one side, or drawn.
#[derive(Clone, Copy, Debug, PartialEq, Eq, Structural)]
pub enum GameState {
    InProgress,
    Winner(Player),
    Draw,
}

/// The verdict of a finished position: the side with strictly more discs
/// wins; equal counts draw.
pub open spec fn verdict(b: BoardModel) -> GameState {
    if b.count(Player::Black) > b.count(Player::White) {
        GameState::Winner(Player::Black)
    } else if b.count(Player::White) > b.count(Player::Black) {
        GameState::Winner(Player::White)
    } else {
        GameState::Draw
    }
}

/// The status a board dictates: terminal with its verdict when neither side
/// has a legal move, in progress otherwise.
pub open spec fn status_of(b: BoardModel) -> GameState {
    if !b.has_move(Player::Black) && !b.has_move(Player::White) {
        verdict(b)
    } else {
        GameState::InProgress
    }
}

/// The mathematical model of a game: a board model, the side to move, and
/// the status.
#[verifier::ext_equal]
pub ghost struct GameModel {
    pub board: BoardModel,
    pub player: Player,
    pub state: GameState,
}

impl GameModel {
    /// Well-formed: the board is well-formed and the status is exactly what
    /// the board dictates.
    pub open spec fn wf(self) -> bool {
        self.board.wf() && self.state == status_of(self.board)
    }

    pub open spec fn is_terminal(self) -> bool {
        self.state is Winner || self.state is Draw
    }

    /// The heuristic value of the position for `perspective`: a thousand for
    /// a win, minus a thousand for a loss, zero for a draw, and the disc
    /// differential while the game runs.
    pub open spec fn eval(self, perspective: Player) -> int {
        match self.state {
            GameState::Winner(p) => if p == perspective {
                1000int
            } else {
                -1000int
            },
            GameState::Draw => 0int,
            GameState::InProgress => self.board.count(perspective) - self.board.count(
                perspective.opponent_spec(),
            ),
        }
    }

    /// The game after the side to move plays the legal move (mr, mc): the
    /// board flips, the turn passes to the opponent unless only the mover
    /// can still move, and the status is recomputed.
    pub open spec fn step(self, mr: int, mc: int) -> GameModel {
        let b2 = self.board.place(self.player, mr, mc);
        let q = self.player.opponent_spec();
        let next = if !b2.has_move(Player::Black) && !b2.has_move(Player::White) {
            q
        } else if b2.has_move(q) {
            q
        } else {
            self.player
        };
        GameModel { board: b2, player: next, state: status_of(b2) }
    }

    /// The game after a forced pass: the board is untouched, the turn
    /// switches, and the status is recomputed.
    pub open spec fn pass(self) -> GameModel {
        GameModel {
            board: self.board,
            player: self.player.opponent_spec(),
            state: status_of(self.board),
        }
    }

    /// The game after an attempted move: a legal move steps the game, an
    /// illegal one leaves it exactly as it was.
    pub open spec fn play(self, mr: int, mc: int) -> GameModel {
        if self.board.is_legal(self.player, mr, mc) {
            self.step(mr, mc)
        } else {
            self
        }
    }
}

/// A running game: the current position, the side to move, and the status.
pub struct Game {
    pub board: Board,
    pub current_player: Player,
    pub state: GameState,
}

impl View for Game {
    type V = GameModel;

    open spec fn view(&self) -> GameModel {
        GameModel { board: self.board@, player: self.current_player, state: self.state }
    }
}

/// The status that `board` dictates, computed from both sides' legal moves
/// and, at the end, the disc counts.
fn compute_status(board: &Board) -> (s: GameState)
    requires
        board@.wf(),
    ensures
        s == status_of(board@),
{
    let black_moves = board.get_legal_moves(Player::Black);
    let white_moves = board.get_legal_moves(Player::White);
    proof {
        lemma_has_move_iff(board@, Player::Black);
        lemma_has_move_iff(board@, Player::White);
    }
    if black_moves.len() == 0 && white_moves.len() == 0 {
        let counts = board.count_pieces();
        if counts.0 > counts.1 {
            GameState::Winner(Player::Black)
        } else if counts.1 > counts.0 {
            GameState::Winner(Player::White)
        } else {
            GameState::Draw
        }
    } else {
        GameState::InProgress
    }
}

impl Game {
    /// A fresh game on a board of the requested size, with Black to move.
    pub fn new(board_size: usize) -> (g: Game)
        ensures
            g@.wf(),
            g@.board == init_board(board_size as int),
            g@.player == Player::Black,
            g@.state == status_of(g@.board),
    {
        let board = Board::new(board_size);
        let state = compute_status(&board);
        Game { board, current_player: Player::Black, state }
    }

    /// The game after the current side attempts `mv`: a legal move flips the
    /// board, hands the turn on and recomputes the status; an illegal move
    /// returns the game unchanged.
    pub fn play_move(&self, mv: Move) -> (g: Game)
        requires
            self@.wf(),
        ensures
            g@ == self@.play(mv.0 as int, mv.1 as int),
            g@.wf(),
    {
        let mut board = self.board.clone();
        let res = board.place_piece(self.current_player, mv);
        match res {
            Some(new_board) => {
                let q = self.current_player.opponent();
                proof {
                    lemma_has_move_iff(new_board@, Player::Black);
                    lemma_has_move_iff(new_board@, Player::White);
                }
                let q_moves = new_board.get_legal_moves(q);
                let next_player = if q_moves.len() > 0 {
                    q
                } else {
                    let p_moves = new_board.get_legal_moves(self.current_player);
                    if p_moves.len() > 0 {
                        self.current_player
                    } else {
                        q
                    }
                };
                let state = compute_status(&new_board);
                let g = Game { board: new_board, current_player: next_player, state };
                proof {
                    assert(g@ =~~= self@.step(mv.0 as int, mv.1 as int));
                }
                g
            },
            None => {
                let g = Game {
                    board,
                    current_player: self.current_player,
                    state: self.state,
                };
                proof {
                    assert(g@ =~~= self@);
                }
                g
            },
        }
    }

    /// The game after a forced pass: the board is untouched, the turn
    /// switches, and the status is recomputed. Meant for a side with no
    /// legal move.
    pub fn pass_turn(&self) -> (g: Game)
        requires
            self@.wf(),
        ensures
            g@ == self@.pass(),
            g@.wf(),
    {
        let board = self.board.clone();
        let next = self.current_player.opponent();
        let state = compute_status(&board);
        let g = Game { board, current_player: next, state };
        proof {
            assert(g@ =~~= self@.pass());
        }
        g
    }

    /// Whether the game has ended in a win or a draw.
    pub fn is_over(&self) -> (r: bool)
        ensures
            r == self@.is_terminal(),
    {
        matches!(self.state, GameState::Winner(_) | GameState::Draw)
    }

    /// The heuristic value of the position for `maximizing_player`.
    pub fn evaluate(&self, maximizing_player: Player) -> (r: i32)
        requires
            self@.wf(),
        ensures
            r as int == self@.eval(maximizing_player),
    {
        match self.state {
            GameState::Winner(p) => if p == maximizing_player {
                1000
            } else {
                -1000
            },
            GameState::Draw => 0,
            GameState::InProgress => {
                let counts = self.board.count_pieces();
                proof {
                    lemma_count_bounds(self.board@, Player::Black);
                    lemma_count_bounds(self.board@, Player::White);
                }
                match maximizing_player {
                    Player::Black => counts.0 - counts.1,
                    Player::White => counts.1 - counts.0,
                }
            },
        }
    }
}

impl Clone for Game {
    /// An equal game as a fresh, independently owned value.
    fn clone(&self) -> (r: Game)
        ensures
            r@ == self@,
    {
        Game {
            board: self.board.clone(),
            current_player: self.current_player,
            state: self.state,
        }
    }
}

/// On every well-formed game the status is terminal exactly when neither
/// side has a legal move; a terminal status names the side with strictly
/// more discs, or a draw when the counts tie.
pub proof fn lemma_status_matches_counts(gm: GameModel)
    requires
        gm.wf(),
    ensures
        gm.is_terminal() <==> (!gm.board.has_move(Player::Black) && !gm.board.has_move(
            Player::White,
        )),
        gm.state matches GameState::Winner(p) ==> gm.board.count(p) > gm.board.count(
            p.opponent_spec(),
        ),
        gm.state is Draw ==> gm.board.count(Player::Black) == gm.board.count(Player::White),
{
}

/// Every legal move fills exactly one previously empty cell, and a legal
/// move exists only while some cell is empty: a game can therefore see at
/// most one move for every cell of the board, and repeated play must end.
pub proof fn lemma_play_fills_one_cell(gm: GameModel, mr: int, mc: int)
    requires
        gm.wf(),
        gm.board.is_legal(gm.player, mr, mc),
    ensures
        occupied(gm.play(mr, mc).board) == occupied(gm.board) + 1,
        occupied(gm.board) <= gm.board.size * gm.board.size - 1,
{
    lemma_place_counts(gm.board, gm.player, mr, mc);
    lemma_occupied_below_full(gm.board, mr, mc);
}

/// Stepping or passing keeps a game well-formed; placing keeps the board
/// well-formed.
pub proof fn lemma_play_wf(gm: GameModel, mr: int, mc: int)
    requires
        gm.wf(),
    ensures
        gm.play(mr, mc).wf(),
        gm.pass().wf(),
{
    lemma_place_wf(gm.board, gm.player, mr, mc);
}

} // verus!
