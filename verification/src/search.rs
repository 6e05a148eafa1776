//! Negamax search over immutable game snapshots: a recursive evaluation to a
//! fixed depth that treats a side without moves as a forced, value-negating
//! pass, and a top-level argmax that picks the move with the best negated
//! child value.

use vstd::prelude::*;

use crate::board::{
    lemma_count_bounds, lemma_has_move_iff, lemma_legal_seq_contains, Move, Player,
};
use crate::game::{lemma_play_wf, Game, GameModel};

verus! {

/// The negamax value of `gm` searched `depth` plies deep, scored by
/// `GameModel::eval` for `mp` at the leaves: at depth zero or a finished game
/// the evaluation itself; with no legal move the negated value of the passed
/// game one level shallower; otherwise the best negated child value.
pub open spec fn negamax_model(gm: GameModel, depth: nat, mp: Player) -> int
    decreases depth, 1nat, 0nat,
{
    if depth == 0 || gm.is_terminal() {
        gm.eval(mp)
    } else {
        let moves = gm.board.legal_seq(gm.player);
        if moves.len() == 0 {
            -negamax_model(gm.pass(), (depth - 1) as nat, mp)
        } else {
            best_val_model(gm, moves, depth, mp)
        }
    }
}

/// The maximum over `moves` of the negated negamax value of the successor
/// position, searched one level shallower.
pub open spec fn best_val_model(
    gm: GameModel,
    moves: Seq<(usize, usize)>,
    depth: nat,
    mp: Player,
) -> int
    decreases depth, 0nat, moves.len(),
{
    if moves.len() == 0 || depth == 0 {
        0
    } else {
        let last = moves[moves.len() - 1];
        let v = -negamax_model(gm.play(last.0 as int, last.1 as int), (depth - 1) as nat, mp);
        if moves.len() == 1 {
            v
        } else {
            let rest = best_val_model(gm, moves.drop_last(), depth, mp);
            if v > rest {
                v
            } else {
                rest
            }
        }
    }
}

/// The negated value of the position reached by playing `m`, searched to
/// `depth`.
pub open spec fn move_val(gm: GameModel, m: (usize, usize), depth: nat, mp: Player) -> int {
    -negamax_model(gm.play(m.0 as int, m.1 as int), depth, mp)
}

/// The best value over the first `i` of `moves` and the first move attaining
/// it, ties resolved towards the earlier move.
pub open spec fn best_pair(
    gm: GameModel,
    moves: Seq<(usize, usize)>,
    depth: nat,
    mp: Player,
    i: int,
) -> (int, (usize, usize))
    decreases i,
{
    if i <= 1 {
        (move_val(gm, moves[0], depth, mp), moves[0])
    } else {
        let prev = best_pair(gm, moves, depth, mp, i - 1);
        let v = move_val(gm, moves[i - 1], depth, mp);
        if v > prev.0 {
            (v, moves[i - 1])
        } else {
            prev
        }
    }
}

/// The move the search recommends: the first legal move whose negated child
/// value is maximal, or nothing when the side to move has no legal move.
pub open spec fn best_move_model(gm: GameModel, depth: nat) -> Option<(usize, usize)> {
    let moves = gm.board.legal_seq(gm.player);
    if moves.len() == 0 {
        None
    } else {
        Some(best_pair(gm, moves, (depth - 1) as nat, gm.player, moves.len() as int).1)
    }
}

/// The heuristic evaluation stays within one win's worth of score.
proof fn lemma_eval_bounds(gm: GameModel, mp: Player)
    requires
        gm.board.wf(),
    ensures
        -1000 <= gm.eval(mp) <= 1000,
{
    lemma_count_bounds(gm.board, mp);
    lemma_count_bounds(gm.board, mp.opponent_spec());
}

/// The search value stays within one win's worth of score.
proof fn lemma_negamax_bounds(gm: GameModel, depth: nat, mp: Player)
    requires
        gm.wf(),
    ensures
        -1000 <= negamax_model(gm, depth, mp) <= 1000,
    decreases depth, 1nat, 0nat,
{
    if depth == 0 || gm.is_terminal() {
        lemma_eval_bounds(gm, mp);
    } else {
        let moves = gm.board.legal_seq(gm.player);
        if moves.len() == 0 {
            lemma_play_wf(gm, 0, 0);
            lemma_negamax_bounds(gm.pass(), (depth - 1) as nat, mp);
        } else {
            lemma_best_val_bounds(gm, moves, depth, mp);
        }
    }
}

/// The folded maximum of negated child values stays within bounds.
proof fn lemma_best_val_bounds(gm: GameModel, moves: Seq<(usize, usize)>, depth: nat, mp: Player)
    requires
        gm.wf(),
        moves.len() >= 1,
        depth >= 1,
    ensures
        -1000 <= best_val_model(gm, moves, depth, mp) <= 1000,
    decreases depth, 0nat, moves.len(),
{
    let last = moves[moves.len() - 1];
    lemma_play_wf(gm, last.0 as int, last.1 as int);
    lemma_negamax_bounds(gm.play(last.0 as int, last.1 as int), (depth - 1) as nat, mp);
    if moves.len() > 1 {
        lemma_best_val_bounds(gm, moves.drop_last(), depth, mp);
    }
}

/// Searching to depth zero is exactly the heuristic evaluation, on any
/// position.
pub proof fn lemma_search_depth_zero(gm: GameModel, mp: Player)
    ensures
        negamax_model(gm, 0, mp) == gm.eval(mp),
{
}

/// The folded maximum really is the maximum: no move beats it, and some move
/// attains it.
proof fn lemma_best_val_is_max(gm: GameModel, moves: Seq<(usize, usize)>, depth: nat, mp: Player)
    requires
        depth >= 1,
        moves.len() >= 1,
    ensures
        forall|i: int|
            0 <= i < moves.len() ==> best_val_model(gm, moves, depth, mp) >= move_val(
                gm,
                moves[i],
                (depth - 1) as nat,
                mp,
            ),
        exists|i: int|
            0 <= i < moves.len() && best_val_model(gm, moves, depth, mp) == move_val(
                gm,
                moves[i],
                (depth - 1) as nat,
                mp,
            ),
    decreases moves.len(),
{
    let last = moves[moves.len() - 1];
    let v = move_val(gm, last, (depth - 1) as nat, mp);
    if moves.len() == 1 {
        assert(best_val_model(gm, moves, depth, mp) == move_val(
            gm,
            moves[0],
            (depth - 1) as nat,
            mp,
        ));
    } else {
        lemma_best_val_is_max(gm, moves.drop_last(), depth, mp);
        let rest = best_val_model(gm, moves.drop_last(), depth, mp);
        assert forall|i: int|
            0 <= i < moves.len() implies best_val_model(gm, moves, depth, mp) >= move_val(
            gm,
            moves[i],
            (depth - 1) as nat,
            mp,
        ) by {
            if i < moves.len() - 1 {
                assert(moves.drop_last()[i] == moves[i]);
            }
        }
        if v > rest {
        } else {
            let wi = choose|i: int|
                0 <= i < moves.drop_last().len() && rest == move_val(
                    gm,
                    moves.drop_last()[i],
                    (depth - 1) as nat,
                    mp,
                );
            assert(moves.drop_last()[wi] == moves[wi]);
            assert(best_val_model(gm, moves, depth, mp) == move_val(
                gm,
                moves[wi],
                (depth - 1) as nat,
                mp,
            ));
        }
    }
}

/// The argmax always picks one of the moves it was given.
proof fn lemma_best_pair_member(
    gm: GameModel,
    moves: Seq<(usize, usize)>,
    depth: nat,
    mp: Player,
    i: int,
)
    requires
        1 <= i <= moves.len(),
    ensures
        moves.contains(best_pair(gm, moves, depth, mp, i).1),
    decreases i,
{
    if i <= 1 {
        assert(moves.contains(moves[0]));
    } else {
        lemma_best_pair_member(gm, moves, depth, mp, i - 1);
        assert(moves.contains(moves[i - 1]));
    }
}

/// Negamax symmetry: on a game with at least one legal move, the search
/// value at positive depth is the maximum over the legal moves of the
/// negated search value of the successor position, one level shallower.
pub proof fn lemma_negamax_step(gm: GameModel, depth: nat, mp: Player)
    requires
        gm.wf(),
        depth >= 1,
        gm.board.legal_seq(gm.player).len() > 0,
    ensures
        forall|i: int|
            0 <= i < gm.board.legal_seq(gm.player).len() ==> negamax_model(gm, depth, mp)
                >= move_val(gm, gm.board.legal_seq(gm.player)[i], (depth - 1) as nat, mp),
        exists|i: int|
            0 <= i < gm.board.legal_seq(gm.player).len() && negamax_model(gm, depth, mp)
                == move_val(gm, gm.board.legal_seq(gm.player)[i], (depth - 1) as nat, mp),
{
    lemma_has_move_iff(gm.board, gm.player);
    assert(!gm.is_terminal());
    lemma_best_val_is_max(gm, gm.board.legal_seq(gm.player), depth, mp);
}

/// The negamax value of `game` searched `depth` plies deep, with leaves
/// evaluated for `maximizing_player`.
pub fn negamax(game: Game, depth: i32, maximizing_player: Player) -> (r: i32)
    requires
        game@.wf(),
        depth >= 0,
    ensures
        r as int == negamax_model(game@, depth as nat, maximizing_player),
    decreases depth,
{
    if depth == 0 || game.is_over() {
        return game.evaluate(maximizing_player);
    }
    let legal_moves = game.board.get_legal_moves(game.current_player);
    if legal_moves.len() == 0 {
        let passed = game.pass_turn();
        let v = negamax(passed, depth - 1, maximizing_player);
        proof {
            lemma_negamax_bounds(passed@, (depth - 1) as nat, maximizing_player);
        }
        return -v;
    }
    let mut best_eval: i32 = i32::MIN;
    let mut i: usize = 0;
    while i < legal_moves.len()
        invariant
            game@.wf(),
            1 <= depth,
            !game@.is_terminal(),
            legal_moves@ == game@.board.legal_seq(game@.player),
            legal_moves@.len() >= 1,
            i <= legal_moves@.len(),
            i == 0 ==> best_eval == i32::MIN,
            i >= 1 ==> best_eval as int == best_val_model(
                game@,
                legal_moves@.take(i as int),
                depth as nat,
                maximizing_player,
            ),
            i >= 1 ==> -1000 <= best_eval <= 1000,
        decreases legal_moves@.len() - i,
    {
        let mv = legal_moves[i];
        let new_game = game.play_move(mv);
        let v = negamax(new_game, depth - 1, maximizing_player);
        proof {
            lemma_negamax_bounds(new_game@, (depth - 1) as nat, maximizing_player);
        }
        let e = -v;
        proof {
            let pre = legal_moves@.take(i as int);
            let cur = legal_moves@.take(i as int + 1);
            assert(cur.drop_last() =~= pre);
            assert(cur[cur.len() - 1] == legal_moves@[i as int]);
            assert(e as int == -negamax_model(
                game@.play(mv.0 as int, mv.1 as int),
                (depth - 1) as nat,
                maximizing_player,
            ));
        }
        if e > best_eval {
            best_eval = e;
        }
        i = i + 1;
    }
    proof {
        assert(legal_moves@.take(legal_moves@.len() as int) =~= legal_moves@);
    }
    best_eval
}

/// The move recommended for the current side: the first legal move whose
/// negated search value at `depth - 1` is maximal, or `None` when the side
/// to move has no legal move and must pass.
pub fn find_best_move(game: &Game, depth: i32) -> (r: Option<Move>)
    requires
        game@.wf(),
        depth >= 1,
    ensures
        r == best_move_model(game@, depth as nat),
        r is Some <==> game@.board.legal_seq(game@.player).len() > 0,
        r matches Some(m) ==> game@.board.is_legal(game@.player, m.0 as int, m.1 as int),
{
    let maximizing_player = game.current_player;
    let legal_moves = game.board.get_legal_moves(game.current_player);
    if legal_moves.len() == 0 {
        return None;
    }
    let mut best_eval: i32 = i32::MIN;
    let mut best_move: Option<Move> = None;
    let mut i: usize = 0;
    while i < legal_moves.len()
        invariant
            game@.wf(),
            1 <= depth,
            maximizing_player == game@.player,
            legal_moves@ == game@.board.legal_seq(game@.player),
            legal_moves@.len() >= 1,
            i <= legal_moves@.len(),
            i == 0 ==> best_eval == i32::MIN && best_move is None,
            i >= 1 ==> {
                let pair = best_pair(
                    game@,
                    legal_moves@,
                    (depth - 1) as nat,
                    maximizing_player,
                    i as int,
                );
                best_eval as int == pair.0 && best_move == Some(pair.1) && -1000 <= best_eval
                    <= 1000
            },
        decreases legal_moves@.len() - i,
    {
        let mv = legal_moves[i];
        let new_game = game.play_move(mv);
        let eval = negamax(new_game, depth - 1, maximizing_player);
        proof {
            lemma_negamax_bounds(new_game@, (depth - 1) as nat, maximizing_player);
        }
        let e = -eval;
        proof {
            assert(e as int == move_val(
                game@,
                legal_moves@[i as int],
                (depth - 1) as nat,
                maximizing_player,
            ));
        }
        if e > best_eval {
            best_eval = e;
            best_move = Some(mv);
        }
        i = i + 1;
    }
    proof {
        lemma_best_pair_member(
            game@,
            legal_moves@,
            (depth - 1) as nat,
            maximizing_player,
            legal_moves@.len() as int,
        );
        let chosen = best_pair(
            game@,
            legal_moves@,
            (depth - 1) as nat,
            maximizing_player,
            legal_moves@.len() as int,
        ).1;
        lemma_legal_seq_contains(game@.board, game@.player, chosen);
    }
    best_move
}

} // verus!
