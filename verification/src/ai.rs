use vstd::prelude::*;

use crate::grid::board_full;
use crate::moves::{applied_board, legal_moves, lemma_index_bijection, lemma_moves_nonempty_not_full, tile_pos_of};
use crate::piece::Piece;
use crate::reversi::{lemma_count_upto_bounds, piece_count, Reversi};
use crate::tile_pos::TilePos;

pub mod game_tree;

verus! {

/// Score bonus for holding a corner tile.
pub const CORNER_BONUS: i32 = 4;

/// Score bonus for holding a non-corner border tile.
pub const SIDE_BONUS: i32 = 2;

/// The search depth at which the negamax recursion evaluates the board
/// instead of exploring further moves.
pub const MAX_DEPTH: usize = 4;

/// Every score the search or the evaluator returns lies within
/// [-SCORE_BOUND, SCORE_BOUND]: the tile-count difference contributes at
/// most 64, the positional bonuses at most 4 per tile, and the noise term
/// at most 100.
pub const SCORE_BOUND: i32 = 500;

/// Which policy the automated player uses to choose a move.
#[derive(Debug, Clone, Copy, PartialEq, Eq, Structural)]
pub enum AiStrategy {
    /// Choose uniformly at random among the legal moves.
    Random,
    /// Run the depth-bounded negamax search.
    Negamax,
}

/// Relies on rand::random_range: a value drawn from the non-empty range
/// `0..n` lies in that range.
#[verifier::external_body]
fn rand_index(n: usize) -> (i: usize)
    requires
        n > 0,
    ensures
        i < n,
{
    rand::random_range(0..n)
}

/// Relies on rand::random_range: a value drawn from `-100..100` lies in
/// that range.
#[verifier::external_body]
fn sample_noise() -> (noise: i32)
    ensures
        -100 <= noise < 100,
{
    rand::random_range(-100i32..100i32)
}

/// The positional weight of the tile at (r, c): corners are worth more than
/// other border tiles, interior tiles nothing.
pub open spec fn tile_bonus(r: int, c: int) -> int {
    if (r == 0 || r == 7) && (c == 0 || c == 7) {
        CORNER_BONUS as int
    } else if r == 0 || r == 7 || c == 0 || c == 7 {
        SIDE_BONUS as int
    } else {
        0
    }
}

/// The positional weight of tile `i`, signed by its owner: positive for
/// `player`, negative for the opponent, zero for an empty tile.
pub open spec fn signed_bonus_at(b: Seq<Option<Piece>>, player: Piece, i: int) -> int {
    let p = tile_pos_of(i);
    let v = tile_bonus(p.row as int, p.col as int);
    if b[i] == Some(player) {
        v
    } else if b[i] is Some {
        -v
    } else {
        0
    }
}

/// The sum of the signed positional weights of the first `k` tiles.
pub open spec fn bonus_upto(b: Seq<Option<Piece>>, player: Piece, k: int) -> int
    decreases k,
{
    if k <= 0 {
        0
    } else {
        bonus_upto(b, player, k - 1) + signed_bonus_at(b, player, k - 1)
    }
}

/// The total positional bonus of the board from `player`'s perspective.
pub open spec fn position_bonus(b: Seq<Option<Piece>>, player: Piece) -> int {
    bonus_upto(b, player, 64)
}

/// The heuristic value of a board for `player`: the tile-count difference
/// plus the positional bonuses; higher is better for `player`.
pub open spec fn eval_score(b: Seq<Option<Piece>>, player: Piece) -> int {
    piece_count(b, player) - piece_count(b, player.opposite()) + position_bonus(b, player)
}

/// The game is over when the board is full, or when the previous ply was a
/// pass and the player to move has no legal move either.
pub open spec fn game_over(b: Seq<Option<Piece>>, player: Piece, prev_pass: bool) -> bool {
    board_full(b) || (prev_pass && legal_moves(b, player).len() == 0)
}

/// A fully occupied board is terminal regardless of whose turn it is and of
/// the pass history.
pub proof fn lemma_full_board_terminal(b: Seq<Option<Piece>>, player: Piece, prev_pass: bool)
    requires
        board_full(b),
    ensures
        game_over(b, player, prev_pass),
{
}

/// Two consecutive passes end the game even when empty tiles remain: if the
/// previous ply was a pass and the player to move has no legal move, the
/// position is terminal whatever the board holds.
pub proof fn lemma_double_pass_terminal(b: Seq<Option<Piece>>, player: Piece)
    requires
        legal_moves(b, player).len() == 0,
    ensures
        game_over(b, player, true),
{
}

/// The value of the negamax search from a position: the chosen move (none
/// at a leaf) and the score from the perspective of `player`, the side to
/// move. Cutoffs evaluate the board heuristically; a forced pass defers to
/// the opponent's subtree and returns its result without negation; a move
/// branch maximizes the negated scores of the children, keeping the
/// earliest-found move on ties.
pub open spec fn negamax_spec(b: Seq<Option<Piece>>, player: Piece, skipped: bool, depth: int) -> (
    Option<TilePos>,
    int,
)
    decreases MAX_DEPTH - depth, 1int, 0int,
{
    let moves = legal_moves(b, player);
    if depth >= MAX_DEPTH || game_over(b, player, skipped) {
        (None, eval_score(b, player))
    } else if moves.len() == 0 {
        negamax_spec(b, player.opposite(), true, depth + 1)
    } else {
        negamax_best(b, player, moves, depth, 0, None, i32::MIN as int)
    }
}

/// Folds the move branch of the search over `moves[i..]`, carrying the best
/// move and score seen so far. A later move replaces the current best only
/// if its negated child score is strictly greater.
pub open spec fn negamax_best(
    b: Seq<Option<Piece>>,
    player: Piece,
    moves: Seq<TilePos>,
    depth: int,
    i: int,
    best: Option<TilePos>,
    best_score: int,
) -> (Option<TilePos>, int)
    decreases MAX_DEPTH - depth, 0int, moves.len() - i,
{
    if i < 0 || i >= moves.len() || depth >= MAX_DEPTH {
        (best, best_score)
    } else {
        let child_board = applied_board(b, player, moves[i]);
        let child = negamax_spec(child_board, player.opposite(), false, depth + 1);
        let score = -child.1;
        if score > best_score {
            negamax_best(b, player, moves, depth, i + 1, Some(moves[i]), score)
        } else {
            negamax_best(b, player, moves, depth, i + 1, best, best_score)
        }
    }
}

/// Computes the heuristic score of the position for the given player, plus
/// the supplied noise term. A higher score means the current state of the
/// board is better for that player.
pub fn negamax_score(game: &Reversi, player: Piece, noise: i32) -> (score: i32)
    requires
        -100 <= noise <= 100,
    ensures
        score == eval_score(game.board(), player) + noise,
        -SCORE_BOUND < score < SCORE_BOUND,
{
    let ghost b = game.board();
    let (x_score, o_score) = game.scores();
    proof {
        lemma_count_upto_bounds(b, Piece::X, 64);
        lemma_count_upto_bounds(b, Piece::O, 64);
    }
    let base: i32 = if matches!(player, Piece::X) {
        x_score as i32 - o_score as i32
    } else {
        o_score as i32 - x_score as i32
    };
    proof {
        assert(base == piece_count(b, player) - piece_count(b, player.opposite()));
    }
    let mut score: i32 = base;
    let mut row: usize = 0;
    while row < 8
        invariant
            b == game.board(),
            row <= 8,
            -64 <= base <= 64,
            score == base + bonus_upto(b, player, (row * 8) as int),
            base - 4 * (row * 8) <= score <= base + 4 * (row * 8),
        decreases 8 - row,
    {
        let mut col: usize = 0;
        while col < 8
            invariant
                b == game.board(),
                row < 8,
                col <= 8,
                -64 <= base <= 64,
                score == base + bonus_upto(b, player, (row * 8 + col) as int),
                base - 4 * (row * 8 + col) <= score <= base + 4 * (row * 8 + col),
            decreases 8 - col,
        {
            let p = TilePos { row, col };
            let ghost k = (row * 8 + col) as int;
            proof {
                lemma_index_bijection(p, 0);
                assert(tile_pos_of(k) == p);
            }
            let bonus: i32 = if (row == 0 || row == 7) && (col == 0 || col == 7) {
                CORNER_BONUS
            } else if row == 0 || row == 7 || col == 0 || col == 7 {
                SIDE_BONUS
            } else {
                0
            };
            match game.grid().tile(p) {
                Some(piece) => {
                    if piece == player {
                        score = score + bonus;
                    } else {
                        score = score - bonus;
                    }
                },
                None => {},
            }
            proof {
                assert(score == base + bonus_upto(b, player, k + 1));
            }
            col = col + 1;
        }
        row = row + 1;
    }
    score + noise
}

/// One level of the negamax search over a game position.
///
/// `valid_moves` must be the legal moves of the position, `skipped` says
/// whether the previous ply was a pass, and `depth` is the current
/// recursion depth. When `noisy` is false the evaluator's random term is
/// fixed to 0 and the result is exactly `negamax_spec` of the position:
/// searching twice returns the same move and score. When `noisy` is true a
/// fresh noise term is drawn at every leaf, and all that holds of the
/// result is that a chosen move is one of the legal moves.
pub fn negamax(
    game: &Reversi,
    valid_moves: &Vec<TilePos>,
    skipped: bool,
    depth: usize,
    noisy: bool,
) -> (r: (Option<TilePos>, i32))
    requires
        game.wf(),
        valid_moves@ == legal_moves(game.board(), game.player()),
    ensures
        -SCORE_BOUND <= r.1 <= SCORE_BOUND,
        !noisy ==> r.0 == negamax_spec(game.board(), game.player(), skipped, depth as int).0,
        !noisy ==> r.1 as int == negamax_spec(game.board(), game.player(), skipped, depth as int).1,
        depth < MAX_DEPTH && !game_over(game.board(), game.player(), skipped)
            && valid_moves@.len() > 0 ==> r.0 is Some && valid_moves@.contains(r.0->0),
        depth >= MAX_DEPTH || game_over(game.board(), game.player(), skipped) ==> r.0 is None,
    decreases MAX_DEPTH - depth,
{
    let ghost b = game.board();
    let ghost player0 = game.player();
    if depth >= MAX_DEPTH || game.grid().is_full() || (skipped && valid_moves.len() == 0) {
        let noise = if noisy {
            sample_noise()
        } else {
            0
        };
        let score = negamax_score(game, game.current_player(), noise);
        return (None, score);
    }
    // No valid moves, so skip the turn
    if valid_moves.len() == 0 {
        let mut mgame = game.clone();
        mgame.advance_turn();
        let r = negamax(&mgame, mgame.valid_moves(), true, depth + 1, noisy);
        return r;
    }
    let mut max_move: Option<TilePos> = None;
    let mut max_score: i32 = i32::MIN;
    let mut idx: usize = 0;
    let ghost target = negamax_spec(b, player0, skipped, depth as int);
    proof {
        assert(!noisy ==> negamax_best(
            b,
            player0,
            valid_moves@,
            depth as int,
            0,
            None,
            i32::MIN as int,
        ) == target);
    }
    while idx < valid_moves.len()
        invariant
            game.wf(),
            b == game.board(),
            player0 == game.player(),
            valid_moves@ == legal_moves(b, player0),
            depth < MAX_DEPTH,
            idx <= valid_moves@.len(),
            valid_moves@.len() > 0,
            target == negamax_spec(b, player0, skipped, depth as int),
            !noisy ==> negamax_best(
                b,
                player0,
                valid_moves@,
                depth as int,
                idx as int,
                max_move,
                max_score as int,
            ) == target,
            idx == 0 ==> max_move is None && max_score == i32::MIN,
            idx > 0 ==> max_move is Some && valid_moves@.contains(max_move->0),
            idx > 0 ==> -SCORE_BOUND <= max_score <= SCORE_BOUND,
        decreases valid_moves@.len() - idx,
    {
        let pmove = valid_moves[idx];
        let mut mgame = game.clone();
        proof {
            assert(valid_moves@.contains(valid_moves@[idx as int]));
        }
        mgame.make_move(pmove);
        let child = negamax(&mgame, mgame.valid_moves(), false, depth + 1, noisy);
        // Negate: the child's score is from the opponent's perspective.
        let score = -child.1;
        if score > max_score {
            max_move = Some(pmove);
            max_score = score;
        }
        idx = idx + 1;
    }
    (max_move, max_score)
}

/// Chooses a move for the current player with the negamax search, using the
/// noisy evaluator. The chosen move is one of the supplied legal moves,
/// which must be the current player's legal moves and non-empty.
pub fn negamax_ai(game: &Reversi, valid_moves: &Vec<TilePos>) -> (m: TilePos)
    requires
        game.wf(),
        valid_moves@ == legal_moves(game.board(), game.player()),
        valid_moves@.len() > 0,
    ensures
        valid_moves@.contains(m),
{
    proof {
        lemma_moves_nonempty_not_full(game.board(), game.player());
    }
    let (pmove, _score) = negamax(game, valid_moves, false, 0, true);
    pmove.unwrap()
}

/// Chooses uniformly at random one of the supplied legal moves.
pub fn random_ai(_game: &Reversi, valid_moves: &Vec<TilePos>) -> (m: TilePos)
    requires
        valid_moves@.len() > 0,
    ensures
        valid_moves@.contains(m),
{
    let i = rand_index(valid_moves.len());
    let m = valid_moves[i];
    proof {
        assert(valid_moves@.contains(valid_moves@[i as int]));
    }
    m
}

/// Returns a move for the current player computed automatically, following
/// the configured strategy. The supplied list must be the current player's
/// legal moves and non-empty; the chosen move is always one of them.
pub fn compute_ai_move(game: &Reversi, valid_moves: &Vec<TilePos>, strategy: AiStrategy) -> (m:
    TilePos)
    requires
        game.wf(),
        valid_moves@ == legal_moves(game.board(), game.player()),
        valid_moves@.len() > 0,
    ensures
        valid_moves@.contains(m),
{
    match strategy {
        AiStrategy::Random => random_ai(game, valid_moves),
        AiStrategy::Negamax => negamax_ai(game, valid_moves),
    }
}

} // verus!
