use vstd::prelude::*;

use crate::grid::{board_tile, Grid};
use crate::moves::{
    applied_board, compute_flips, compute_valid_moves, is_flipped, is_valid_move, legal_moves,
    lemma_flipped_holds_opponent, lemma_flipped_in_bounds, lemma_index_bijection,
    lemma_legal_moves_characterization, move_flips, tile_pos_of,
};
use crate::piece::Piece;
use crate::tile_pos::TilePos;

verus! {

/// The number of tiles among the first `k` (in row-major order) that hold
/// the given piece.
pub open spec fn count_upto(b: Seq<Option<Piece>>, piece: Piece, k: int) -> int
    decreases k,
{
    if k <= 0 {
        0
    } else {
        count_upto(b, piece, k - 1) + if b[k - 1] == Some(piece) {
            1int
        } else {
            0int
        }
    }
}

/// The number of tiles of the board that hold the given piece.
pub open spec fn piece_count(b: Seq<Option<Piece>>, piece: Piece) -> int {
    count_upto(b, piece, 64)
}

/// A count over `k` tiles lies between 0 and `k`.
pub proof fn lemma_count_upto_bounds(b: Seq<Option<Piece>>, piece: Piece, k: int)
    requires
        k >= 0,
    ensures
        0 <= count_upto(b, piece, k) <= k,
    decreases k,
{
    if k > 0 {
        lemma_count_upto_bounds(b, piece, k - 1);
    }
}

/// The number of tile indexes among the first `k` whose position is an
/// element of `s`.
pub open spec fn occupied_index_count(s: Seq<TilePos>, k: int) -> int
    decreases k,
{
    if k <= 0 {
        0
    } else {
        occupied_index_count(s, k - 1) + if s.contains(tile_pos_of(k - 1)) {
            1int
        } else {
            0int
        }
    }
}

/// An empty sequence occupies no index.
proof fn lemma_occupied_index_count_none(s: Seq<TilePos>, k: int)
    requires
        s.len() == 0,
        k >= 0,
    ensures
        occupied_index_count(s, k) == 0,
    decreases k,
{
    if k > 0 {
        lemma_occupied_index_count_none(s, k - 1);
    }
}

/// Appending a fresh on-board position to a sequence raises its occupied
/// index count by exactly one, once `k` passes the position's index.
proof fn lemma_occupied_index_count_push(s: Seq<TilePos>, x: TilePos, k: int)
    requires
        0 <= k <= 64,
        !s.contains(x),
        x.in_bounds(),
    ensures
        occupied_index_count(s.push(x), k) == occupied_index_count(s, k) + if x.index() < k {
            1int
        } else {
            0int
        },
    decreases k,
{
    if k > 0 {
        lemma_occupied_index_count_push(s, x, k - 1);
        let q = tile_pos_of(k - 1);
        lemma_index_bijection(x, k - 1);
        assert(s.push(x).contains(q) <==> s.contains(q) || q == x) by {
            if s.contains(q) {
                let i = choose|i: int| 0 <= i < s.len() && s[i] == q;
                assert(s.push(x)[i] == q);
            }
            if q == x {
                assert(s.push(x)[s.len() as int] == q);
            }
            if s.push(x).contains(q) {
                let i = choose|i: int| 0 <= i < s.push(x).len() && s.push(x)[i] == q;
                if i < s.len() {
                    assert(s[i] == q);
                }
            }
        }
        if q == x {
            assert(x.index() == k - 1);
        } else {
            assert(x.index() != k - 1);
        }
    }
}

/// A duplicate-free sequence of on-board positions occupies exactly as many
/// of the 64 tile indexes as it has elements.
proof fn lemma_occupied_index_count_total(s: Seq<TilePos>)
    requires
        s.no_duplicates(),
        forall|j: int| 0 <= j < s.len() ==> (#[trigger] s[j]).in_bounds(),
    ensures
        occupied_index_count(s, 64) == s.len(),
    decreases s.len(),
{
    if s.len() == 0 {
        lemma_occupied_index_count_none(s, 64);
    } else {
        let s1 = s.drop_last();
        let x = s.last();
        assert(s =~= s1.push(x));
        assert(!s1.contains(x)) by {
            if s1.contains(x) {
                let i = choose|i: int| 0 <= i < s1.len() && s1[i] == x;
                assert(s[i] == s[s.len() - 1]);
            }
        }
        assert(x.in_bounds());
        lemma_occupied_index_count_total(s1);
        lemma_occupied_index_count_push(s1, x, 64);
    }
}

/// Placing a piece and flipping the captured tiles changes the counts by
/// exactly the placed tile plus the captures: index by index, the new board
/// gives the mover one extra tile at the placed index and one at each
/// captured index, and takes each captured index from the opponent.
proof fn lemma_board_update_counts(
    b: Seq<Option<Piece>>,
    a: Seq<Option<Piece>>,
    s: Seq<TilePos>,
    player: Piece,
    p: TilePos,
    k: int,
)
    requires
        b.len() == 64,
        a.len() == 64,
        p.in_bounds(),
        board_tile(b, p.row as int, p.col as int) is None,
        forall|q: TilePos| #[trigger] s.contains(q) <==> is_flipped(b, player, p, q),
        forall|i: int|
            0 <= i < 64 ==> #[trigger] a[i] == (if i == p.index() || is_flipped(
                b,
                player,
                p,
                tile_pos_of(i),
            ) {
                Some(player)
            } else {
                b[i]
            }),
        0 <= k <= 64,
    ensures
        count_upto(a, player, k) == count_upto(b, player, k) + (if p.index() < k {
            1int
        } else {
            0int
        }) + occupied_index_count(s, k),
        count_upto(a, player.opposite(), k) == count_upto(b, player.opposite(), k)
            - occupied_index_count(s, k),
    decreases k,
{
    if k > 0 {
        lemma_board_update_counts(b, a, s, player, p, k - 1);
        let q = tile_pos_of(k - 1);
        lemma_index_bijection(p, k - 1);
        if k - 1 == p.index() {
            assert(q == p);
            if is_flipped(b, player, p, p) {
                lemma_flipped_holds_opponent(b, player, p, p);
            }
            assert(!s.contains(q));
        } else if is_flipped(b, player, p, q) {
            lemma_flipped_holds_opponent(b, player, p, q);
            assert(b[k - 1] == Some(player.opposite()));
            assert(s.contains(q));
        } else {
            assert(!s.contains(q));
        }
    }
}

/// The canonical opening layout: X at (3,3) and (4,4), O at (3,4) and
/// (4,3), every other tile empty.
pub open spec fn initial_board() -> Seq<Option<Piece>> {
    Seq::new(
        64,
        |i: int|
            if i == 27 || i == 36 {
                Some(Piece::X)
            } else if i == 28 || i == 35 {
                Some(Piece::O)
            } else {
                None
            },
    )
}

/// A game of reversi: the board, the player whose turn it is, and the cached
/// list of that player's legal moves.
#[derive(Debug, PartialEq, Eq)]
pub struct Reversi {
    grid: Grid,
    /// The player whose turn it is currently.
    current_player: Piece,
    /// The valid moves for the current player.
    valid_moves: Vec<TilePos>,
}

impl Default for Reversi {
    /// Creates a new reversi game with the default pieces placed.
    fn default() -> (game: Self)
        ensures
            game.wf(),
            game.board() == initial_board(),
            game.player() == Piece::X,
    {
        Reversi::new()
    }
}

impl Clone for Reversi {
    /// Clones the game; the copy carries the same board, player to move and
    /// legal-move cache.
    fn clone(&self) -> (r: Self)
        ensures
            r.board() == self.board(),
            r.player() == self.player(),
            r.moves_cache() == self.moves_cache(),
    {
        let mut moves: Vec<TilePos> = Vec::new();
        let mut i: usize = 0;
        while i < self.valid_moves.len()
            invariant
                i <= self.valid_moves.len(),
                moves@ == self.valid_moves@.subrange(0, i as int),
            decreases self.valid_moves.len() - i,
        {
            moves.push(self.valid_moves[i]);
            proof {
                assert(moves@ =~= self.valid_moves@.subrange(0, i + 1));
            }
            i = i + 1;
        }
        proof {
            assert(moves@ =~= self.valid_moves@);
        }
        Reversi { grid: self.grid, current_player: self.current_player, valid_moves: moves }
    }
}

impl Reversi {
    /// The board model: the 64 tiles in row-major order.
    pub closed spec fn board(self) -> Seq<Option<Piece>> {
        self.grid@
    }

    /// The player whose turn it is.
    pub closed spec fn player(self) -> Piece {
        self.current_player
    }

    /// The cached legal moves of the current player.
    pub closed spec fn moves_cache(self) -> Seq<TilePos> {
        self.valid_moves@
    }

    /// Well-formedness: the cached legal-move list always equals the legal
    /// moves of the current player on the current board.
    pub open spec fn wf(self) -> bool {
        self.moves_cache() == legal_moves(self.board(), self.player())
    }

    /// Creates a new reversi game with the default pieces placed: a 2x2
    /// block of alternating colors in the middle of the board, X to move.
    pub fn new() -> (game: Reversi)
        ensures
            game.wf(),
            game.board() == initial_board(),
            game.player() == Piece::X,
    {
        let mut grid = Grid::default();
        grid.place(TilePos { row: 3, col: 3 }, Piece::X);
        grid.place(TilePos { row: 3, col: 4 }, Piece::O);
        grid.place(TilePos { row: 4, col: 3 }, Piece::O);
        grid.place(TilePos { row: 4, col: 4 }, Piece::X);
        proof {
            assert(grid@ =~= initial_board());
        }
        // X always goes first
        let current_player = Piece::X;
        let valid_moves = compute_valid_moves(&grid, current_player);
        Reversi { grid, current_player, valid_moves }
    }

    /// Returns the grid.
    pub fn grid(&self) -> (g: &Grid)
        ensures
            g@ == self.board(),
    {
        &self.grid
    }

    /// Returns the current player.
    pub fn current_player(&self) -> (p: Piece)
        ensures
            p == self.player(),
    {
        self.current_player
    }

    /// Returns the current scores for each player as a tuple:
    /// (x score, o score).
    pub fn scores(&self) -> (s: (u32, u32))
        ensures
            s.0 == piece_count(self.board(), Piece::X),
            s.1 == piece_count(self.board(), Piece::O),
    {
        let ghost b = self.board();
        let mut x_score: u32 = 0;
        let mut o_score: u32 = 0;
        let mut row: usize = 0;
        while row < 8
            invariant
                b == self.board(),
                row <= 8,
                x_score == count_upto(b, Piece::X, row * 8),
                o_score == count_upto(b, Piece::O, row * 8),
                x_score <= row * 8,
                o_score <= row * 8,
            decreases 8 - row,
        {
            let mut col: usize = 0;
            while col < 8
                invariant
                    b == self.board(),
                    row < 8,
                    col <= 8,
                    x_score == count_upto(b, Piece::X, row * 8 + col),
                    o_score == count_upto(b, Piece::O, row * 8 + col),
                    x_score <= row * 8 + col,
                    o_score <= row * 8 + col,
                decreases 8 - col,
            {
                match self.grid.tile(TilePos { row, col }) {
                    Some(Piece::X) => {
                        x_score = x_score + 1;
                    },
                    Some(Piece::O) => {
                        o_score = o_score + 1;
                    },
                    None => {},
                }
                col = col + 1;
            }
            row = row + 1;
        }
        (x_score, o_score)
    }

    /// Returns all valid moves for the current player, in row-major order.
    pub fn valid_moves(&self) -> (moves: &Vec<TilePos>)
        ensures
            moves@ == self.moves_cache(),
    {
        &self.valid_moves
    }

    /// Advances the turn by changing the current player and recomputing the
    /// legal-move cache; the board is left unmodified.
    pub fn advance_turn(&mut self)
        ensures
            final(self).wf(),
            final(self).board() == old(self).board(),
            final(self).player() == old(self).player().opposite(),
    {
        self.current_player = self.current_player.opposite();
        self.valid_moves = compute_valid_moves(&self.grid, self.current_player);
    }

    /// Places a tile for the current player at the given position, flips
    /// every tile captured by the move, then advances the turn. The position
    /// must be one of the current player's legal moves. The mover gains the
    /// placed tile plus the captured tiles; the opponent loses exactly the
    /// captured tiles.
    pub fn make_move(&mut self, pos: TilePos)
        requires
            old(self).wf(),
            old(self).moves_cache().contains(pos),
        ensures
            final(self).wf(),
            final(self).board() == applied_board(old(self).board(), old(self).player(), pos),
            final(self).player() == old(self).player().opposite(),
            piece_count(final(self).board(), old(self).player()) == piece_count(
                old(self).board(),
                old(self).player(),
            ) + 1 + move_flips(old(self).board(), old(self).player(), pos).len(),
            piece_count(final(self).board(), old(self).player().opposite()) == piece_count(
                old(self).board(),
                old(self).player().opposite(),
            ) - move_flips(old(self).board(), old(self).player(), pos).len(),
    {
        let ghost b0 = self.board();
        let ghost player0 = self.player();
        proof {
            crate::grid::lemma_grid_len(self.grid);
            lemma_legal_moves_characterization(b0, player0);
            assert(is_valid_move(b0, player0, pos));
        }
        let flips = compute_flips(&self.grid, self.current_player, pos);
        assert(flips.len() > 0);
        let player = self.current_player();
        let mut i: usize = 0;
        while i < flips.len()
            invariant
                player == player0,
                pos.in_bounds(),
                b0.len() == 64,
                forall|q: TilePos|
                    #[trigger] flips@.contains(q) <==> crate::moves::is_flipped(
                        b0,
                        player0,
                        pos,
                        q,
                    ),
                i <= flips.len(),
                self.player() == player0,
                self.board().len() == 64,
                forall|t: int|
                    0 <= t < 64 ==> #[trigger] self.board()[t] == if (exists|j: int|
                        0 <= j < i && (#[trigger] flips@[j]).index() == t) {
                        Some(player0)
                    } else {
                        b0[t]
                    },
            decreases flips.len() - i,
        {
            let flip_pos = flips[i];
            proof {
                assert(flips@.contains(flips@[i as int]));
                lemma_flipped_in_bounds(b0, player0, pos, flip_pos);
            }
            self.grid.place(flip_pos, player);
            proof {
                assert forall|t: int|
                    0 <= t < 64 implies #[trigger] self.board()[t] == if (exists|j: int|
                    0 <= j < i + 1 && (#[trigger] flips@[j]).index() == t) {
                    Some(player0)
                } else {
                    b0[t]
                } by {
                    if t == flip_pos.index() {
                        assert(0 <= i < i + 1 && flips@[i as int].index() == t);
                    } else {
                        if exists|j: int| 0 <= j < i + 1 && (#[trigger] flips@[j]).index() == t {
                            let j = choose|j: int|
                                0 <= j < i + 1 && (#[trigger] flips@[j]).index() == t;
                            assert(j < i);
                            assert(exists|j2: int|
                                0 <= j2 < i && (#[trigger] flips@[j2]).index() == t);
                        }
                    }
                }
            }
            i = i + 1;
        }
        self.grid.place(pos, player);
        proof {
            assert forall|t: int|
                0 <= t < 64 implies self.board()[t] == applied_board(b0, player0, pos)[t] by {
                lemma_index_bijection(pos, t);
                if t == pos.index() {
                } else {
                    if crate::moves::is_flipped(b0, player0, pos, tile_pos_of(t)) {
                        let q = tile_pos_of(t);
                        assert(flips@.contains(q));
                        let j = choose|j: int| 0 <= j < flips@.len() && flips@[j] == q;
                        assert(flips@[j].index() == t);
                        assert(exists|j2: int|
                            0 <= j2 < flips@.len() && (#[trigger] flips@[j2]).index() == t);
                    } else {
                        if exists|j2: int|
                            0 <= j2 < flips@.len() && (#[trigger] flips@[j2]).index() == t {
                            let j = choose|j2: int|
                                0 <= j2 < flips@.len() && (#[trigger] flips@[j2]).index() == t;
                            let q = flips@[j];
                            assert(flips@.contains(q));
                            lemma_flipped_in_bounds(b0, player0, pos, q);
                            lemma_index_bijection(q, t);
                            assert(tile_pos_of(t) == q);
                            assert(false);
                        }
                    }
                }
            }
            assert(self.board() =~= applied_board(b0, player0, pos));
        }
        proof {
            let a = applied_board(b0, player0, pos);
            assert(a.len() == 64);
            assert forall|t: int|
                0 <= t < 64 implies #[trigger] a[t] == (if t == pos.index() || is_flipped(
                b0,
                player0,
                pos,
                tile_pos_of(t),
            ) {
                Some(player0)
            } else {
                b0[t]
            }) by {}
            lemma_board_update_counts(b0, a, flips@, player0, pos, 64);
            assert forall|j: int|
                0 <= j < flips@.len() implies (#[trigger] flips@[j]).in_bounds() by {
                assert(flips@.contains(flips@[j]));
                lemma_flipped_in_bounds(b0, player0, pos, flips@[j]);
            }
            lemma_occupied_index_count_total(flips@);
        }
        self.advance_turn();
    }
}

} // verus!
