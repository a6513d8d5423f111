use vstd::prelude::*;

use crate::grid::{board_full, board_tile, Grid};
use crate::piece::Piece;
use crate::tile_pos::TilePos;

verus! {

/// True for one of the eight compass/diagonal step directions.
pub open spec fn is_direction(dr: int, dc: int) -> bool {
    -1 <= dr <= 1 && -1 <= dc <= 1 && !(dr == 0 && dc == 0)
}

/// The coordinate reached after `i` steps of size `d` starting from `x`.
pub open spec fn walk(x: int, d: int, i: int) -> int
    decreases i,
{
    if i <= 0 {
        x
    } else {
        walk(x, d, i - 1) + d
    }
}

/// Walking a positive direction moves at least one tile per step, a negative
/// one at most minus one, and a zero direction stays put.
pub proof fn lemma_walk_bounds(x: int, d: int, i: int)
    requires
        i >= 0,
    ensures
        d >= 1 ==> walk(x, d, i) >= x + i,
        d <= -1 ==> walk(x, d, i) <= x - i,
        d == 0 ==> walk(x, d, i) == x,
    decreases i,
{
    if i > 0 {
        lemma_walk_bounds(x, d, i - 1);
    }
}

/// A walk in a unit direction moves exactly one tile per step.
pub proof fn lemma_walk_exact(x: int, d: int, i: int)
    requires
        i >= 0,
    ensures
        d == 1 ==> walk(x, d, i) == x + i,
        d == -1 ==> walk(x, d, i) == x - i,
        d == 0 ==> walk(x, d, i) == x,
    decreases i,
{
    if i > 0 {
        lemma_walk_exact(x, d, i - 1);
    }
}

/// Two walks from the same starting tile reach the same tile only at the
/// same step of the same direction: no tile is captured twice.
pub proof fn lemma_walk_injective(
    pr: int,
    pc: int,
    d1r: int,
    d1c: int,
    d2r: int,
    d2c: int,
    i1: int,
    i2: int,
)
    requires
        is_direction(d1r, d1c),
        is_direction(d2r, d2c),
        i1 >= 1,
        i2 >= 1,
        walk(pr, d1r, i1) == walk(pr, d2r, i2),
        walk(pc, d1c, i1) == walk(pc, d2c, i2),
    ensures
        d1r == d2r,
        d1c == d2c,
        i1 == i2,
{
    lemma_walk_exact(pr, d1r, i1);
    lemma_walk_exact(pr, d2r, i2);
    lemma_walk_exact(pc, d1c, i1);
    lemma_walk_exact(pc, d2c, i2);
}

/// Steps 1..=n away from (pr, pc) in direction (dr, dc) all lie on the board
/// and hold the opponent of `player`.
pub open spec fn opp_run(
    b: Seq<Option<Piece>>,
    player: Piece,
    pr: int,
    pc: int,
    dr: int,
    dc: int,
    n: int,
) -> bool {
    forall|i: int|
        1 <= i <= n ==> {
            let r = #[trigger] walk(pr, dr, i);
            let c = walk(pc, dc, i);
            0 <= r < 8 && 0 <= c < 8 && board_tile(b, r, c) == Some(player.opposite())
        }
}

/// Placing `player` at (pr, pc) would capture exactly the opponent tiles at
/// steps 1..=n in direction (dr, dc): those tiles hold the opponent, and the
/// tile one step further holds the player.
pub open spec fn captures_run(
    b: Seq<Option<Piece>>,
    player: Piece,
    pr: int,
    pc: int,
    dr: int,
    dc: int,
    n: int,
) -> bool {
    &&& n >= 1
    &&& opp_run(b, player, pr, pc, dr, dc, n)
    &&& {
        let r = walk(pr, dr, n + 1);
        let c = walk(pc, dc, n + 1);
        0 <= r < 8 && 0 <= c < 8 && board_tile(b, r, c) == Some(player)
    }
}

/// At most one capture length fits a given direction: the run of opponent
/// tiles ends at the first tile of the player's own color.
pub proof fn lemma_captures_run_unique(
    b: Seq<Option<Piece>>,
    player: Piece,
    pr: int,
    pc: int,
    dr: int,
    dc: int,
    n1: int,
    n2: int,
)
    requires
        captures_run(b, player, pr, pc, dr, dc, n1),
        captures_run(b, player, pr, pc, dr, dc, n2),
    ensures
        n1 == n2,
{
    if n1 < n2 {
        assert(board_tile(b, walk(pr, dr, n1 + 1), walk(pc, dc, n1 + 1)) == Some(
            player.opposite(),
        ));
    }
    if n2 < n1 {
        assert(board_tile(b, walk(pr, dr, n2 + 1), walk(pc, dc, n2 + 1)) == Some(
            player.opposite(),
        ));
    }
}

/// Tile `q` is one of the tiles captured in direction (dr, dc) when `player`
/// plays at (pr, pc).
pub open spec fn flipped_in_dir(
    b: Seq<Option<Piece>>,
    player: Piece,
    pr: int,
    pc: int,
    dr: int,
    dc: int,
    q: TilePos,
) -> bool {
    exists|i: int, n: int|
        #![trigger captures_run(b, player, pr, pc, dr, dc, n), walk(pr, dr, i)]
        1 <= i <= n && captures_run(b, player, pr, pc, dr, dc, n) && q.row == walk(pr, dr, i)
            && q.col == walk(pc, dc, i)
}

/// Tile `q` changes ownership when `player` places a piece at `p`.
pub open spec fn is_flipped(b: Seq<Option<Piece>>, player: Piece, p: TilePos, q: TilePos) -> bool {
    exists|dr: int, dc: int|
        is_direction(dr, dc) && #[trigger] flipped_in_dir(
            b,
            player,
            p.row as int,
            p.col as int,
            dr,
            dc,
            q,
        )
}

/// Placing `player` at `p` captures at least one tile.
pub open spec fn has_flip(b: Seq<Option<Piece>>, player: Piece, p: TilePos) -> bool {
    exists|q: TilePos| is_flipped(b, player, p, q)
}

/// A position is a legal move iff its tile is empty and the placement
/// captures at least one opponent tile.
pub open spec fn is_valid_move(b: Seq<Option<Piece>>, player: Piece, p: TilePos) -> bool {
    &&& p.in_bounds()
    &&& board_tile(b, p.row as int, p.col as int) is None
    &&& has_flip(b, player, p)
}

/// Every flipped tile lies on the board.
pub proof fn lemma_flipped_in_bounds(b: Seq<Option<Piece>>, player: Piece, p: TilePos, q: TilePos)
    requires
        is_flipped(b, player, p, q),
    ensures
        q.in_bounds(),
{
}

/// Every flipped tile holds the opponent of the player making the move.
pub proof fn lemma_flipped_holds_opponent(
    b: Seq<Option<Piece>>,
    player: Piece,
    p: TilePos,
    q: TilePos,
)
    requires
        is_flipped(b, player, p, q),
    ensures
        board_tile(b, q.row as int, q.col as int) == Some(player.opposite()),
{
    let pr = p.row as int;
    let pc = p.col as int;
    let (dr, dc) = choose|dr: int, dc: int|
        is_direction(dr, dc) && #[trigger] flipped_in_dir(b, player, pr, pc, dr, dc, q);
    let (i, n) = choose|i: int, n: int|
        #![trigger captures_run(b, player, pr, pc, dr, dc, n), walk(pr, dr, i)]
        1 <= i <= n && captures_run(b, player, pr, pc, dr, dc, n) && q.row == walk(pr, dr, i)
            && q.col == walk(pc, dc, i);
    assert(board_tile(b, walk(pr, dr, i), walk(pc, dc, i)) == Some(player.opposite()));
}

/// Walks outward from `pos` in direction (dr, dc) and returns the number of
/// opponent tiles that placing `player` at `pos` would capture there: the
/// length of the run of opponent tiles that ends at a tile of the player's
/// own color. Returns 0 when the walk reaches the edge of the board, an
/// empty tile, or the player's own tile without crossing an opponent tile.
fn scan_direction(grid: &Grid, player: Piece, pos: TilePos, dr: i32, dc: i32) -> (n: usize)
    requires
        pos.in_bounds(),
        is_direction(dr as int, dc as int),
    ensures
        n >= 1 ==> captures_run(
            grid@,
            player,
            pos.row as int,
            pos.col as int,
            dr as int,
            dc as int,
            n as int,
        ),
        forall|m: int|
            #[trigger] captures_run(
                grid@,
                player,
                pos.row as int,
                pos.col as int,
                dr as int,
                dc as int,
                m,
            ) ==> m == n,
{
    let ghost b = grid@;
    let ghost pr = pos.row as int;
    let ghost pc = pos.col as int;
    let opponent = player.opposite();
    let mut n: usize = 0;
    let mut s: usize = 1;
    let mut r: i32 = pos.row as i32;
    let mut c: i32 = pos.col as i32;
    loop
        invariant_except_break
            n == 0,
        invariant
            b == grid@,
            pr == pos.row as int,
            pc == pos.col as int,
            pos.in_bounds(),
            is_direction(dr as int, dc as int),
            opponent == player.opposite(),
            1 <= s <= 9,
            r == walk(pr, dr as int, s - 1),
            c == walk(pc, dc as int, s - 1),
            0 <= r < 8,
            0 <= c < 8,
            opp_run(b, player, pr, pc, dr as int, dc as int, s - 1),
        ensures
            n >= 1 ==> captures_run(b, player, pr, pc, dr as int, dc as int, n as int),
            forall|m: int|
                #[trigger] captures_run(b, player, pr, pc, dr as int, dc as int, m) ==> m
                    == n as int,
        decreases 9 - s,
    {
        let nr = r + dr;
        let nc = c + dc;
        proof {
            assert(nr == walk(pr, dr as int, s as int));
            assert(nc == walk(pc, dc as int, s as int));
        }
        if nr < 0 || nr >= 8 || nc < 0 || nc >= 8 {
            // The walk left the board before meeting the player's own tile:
            // no capture in this direction.
            proof {
                assert forall|m: int|
                    #[trigger] captures_run(b, player, pr, pc, dr as int, dc as int, m) implies m
                    == n as int by {
                    if m <= s - 2 {
                        assert(board_tile(b, walk(pr, dr as int, m + 1), walk(pc, dc as int, m + 1))
                            == Some(player.opposite()));
                    } else if m >= s {
                        assert(board_tile(b, walk(pr, dr as int, s as int), walk(pc, dc as int, s as int))
                            == Some(player.opposite()));
                    } else {
                        assert(0 <= walk(pr, dr as int, s as int) < 8);
                    }
                    assert(false);
                }
            }
            break ;
        }
        let probe = TilePos { row: nr as usize, col: nc as usize };
        proof {
            assert(probe.row as int == walk(pr, dr as int, s as int));
            assert(probe.col as int == walk(pc, dc as int, s as int));
        }
        match grid.tile(probe) {
            None => {
                // An empty tile interrupts the run: nothing is captured here.
                proof {
                    assert forall|m: int|
                        #[trigger] captures_run(b, player, pr, pc, dr as int, dc as int, m) implies
                        m == n as int by {
                        if m <= s - 2 {
                            assert(board_tile(b, walk(pr, dr as int, m + 1), walk(pc, dc as int, m + 1))
                                == Some(player.opposite()));
                        } else if m >= s {
                            assert(board_tile(b, walk(pr, dr as int, s as int), walk(pc, dc as int, s as int))
                                == Some(player.opposite()));
                        } else {
                            assert(board_tile(b, walk(pr, dr as int, s as int), walk(pc, dc as int, s as int))
                                == Some(player));
                        }
                        assert(false);
                    }
                }
                break ;
            },
            Some(piece) => {
                if piece == player {
                    // The run of opponent tiles (possibly empty) ends at the
                    // player's own tile: commit it.
                    n = s - 1;
                    proof {
                        if n >= 1 {
                            assert(captures_run(b, player, pr, pc, dr as int, dc as int, n as int));
                        }
                        assert forall|m: int|
                            #[trigger] captures_run(b, player, pr, pc, dr as int, dc as int, m) implies
                            m == n as int by {
                            if m <= s - 2 {
                                assert(board_tile(b, walk(pr, dr as int, m + 1), walk(pc, dc as int, m + 1))
                                    == Some(player.opposite()));
                                assert(false);
                            } else if m >= s {
                                assert(board_tile(b, walk(pr, dr as int, s as int), walk(pc, dc as int, s as int))
                                    == Some(player.opposite()));
                                assert(false);
                            }
                        }
                    }
                    break ;
                } else {
                    // Two-valued pieces: anything other than the player is
                    // the opponent, so the provisional run grows by one.
                    proof {
                        assert(piece == opponent);
                        assert(opp_run(b, player, pr, pc, dr as int, dc as int, s as int));
                        lemma_walk_bounds(pr, dr as int, 8);
                        lemma_walk_bounds(pc, dc as int, 8);
                        if s == 9 {
                            assert(0 <= walk(pr, dr as int, 8) < 8 && 0 <= walk(pc, dc as int, 8)
                                < 8);
                            assert(false);
                        }
                    }
                    s = s + 1;
                    r = nr;
                    c = nc;
                }
            },
        }
    }
    n
}

/// An element is in the concatenation of two sequences exactly when it is in
/// one of them.
proof fn lemma_concat_contains<T>(a: Seq<T>, b: Seq<T>, x: T)
    ensures
        (a + b).contains(x) <==> a.contains(x) || b.contains(x),
{
    if a.contains(x) {
        let i = choose|i: int| 0 <= i < a.len() && a[i] == x;
        assert((a + b)[i] == x);
    }
    if b.contains(x) {
        let i = choose|i: int| 0 <= i < b.len() && b[i] == x;
        assert((a + b)[a.len() + i] == x);
    }
    if (a + b).contains(x) {
        let i = choose|i: int| 0 <= i < (a + b).len() && (a + b)[i] == x;
        if i < a.len() {
            assert(a[i] == x);
        } else {
            assert(b[i - a.len()] == x);
        }
    }
}

/// A concatenation of two duplicate-free, disjoint sequences is
/// duplicate-free.
proof fn lemma_concat_no_duplicates<T>(a: Seq<T>, b: Seq<T>)
    requires
        a.no_duplicates(),
        b.no_duplicates(),
        a.disjoint(b),
    ensures
        (a + b).no_duplicates(),
{
    assert forall|i: int, j: int|
        0 <= i < (a + b).len() && 0 <= j < (a + b).len() && i != j implies (a + b)[i] != (a
        + b)[j] by {
        if i < a.len() && j >= a.len() {
            assert(a[i] != b[j - a.len()]);
        } else if i >= a.len() && j < a.len() {
            assert(a[j] != b[i - a.len()]);
        }
    }
}

/// The row delta of the k-th of the eight scan directions.
pub open spec fn dir_dr(k: int) -> int {
    if k == 0 {
        -1
    } else if k == 1 {
        -1
    } else if k == 2 {
        -1
    } else if k == 3 {
        0
    } else if k == 4 {
        0
    } else if k == 5 {
        1
    } else if k == 6 {
        1
    } else {
        1
    }
}

/// The column delta of the k-th of the eight scan directions.
pub open spec fn dir_dc(k: int) -> int {
    if k == 0 {
        -1
    } else if k == 1 {
        0
    } else if k == 2 {
        1
    } else if k == 3 {
        -1
    } else if k == 4 {
        1
    } else if k == 5 {
        -1
    } else if k == 6 {
        0
    } else {
        1
    }
}

/// The eight indexed directions are exactly the directions.
proof fn lemma_directions_complete(dr: int, dc: int)
    requires
        is_direction(dr, dc),
    ensures
        exists|k: int| 0 <= k < 8 && dr == #[trigger] dir_dr(k) && dc == dir_dc(k),
{
    if dr == -1 && dc == -1 {
        assert(dr == dir_dr(0) && dc == dir_dc(0));
    } else if dr == -1 && dc == 0 {
        assert(dr == dir_dr(1) && dc == dir_dc(1));
    } else if dr == -1 && dc == 1 {
        assert(dr == dir_dr(2) && dc == dir_dc(2));
    } else if dr == 0 && dc == -1 {
        assert(dr == dir_dr(3) && dc == dir_dc(3));
    } else if dr == 0 && dc == 1 {
        assert(dr == dir_dr(4) && dc == dir_dc(4));
    } else if dr == 1 && dc == -1 {
        assert(dr == dir_dr(5) && dc == dir_dc(5));
    } else if dr == 1 && dc == 0 {
        assert(dr == dir_dr(6) && dc == dir_dc(6));
    } else {
        assert(dr == dir_dr(7) && dc == dir_dc(7));
    }
}

/// The eight indexed directions are pairwise distinct.
proof fn lemma_directions_distinct(k1: int, k2: int)
    requires
        0 <= k1 < 8,
        0 <= k2 < 8,
        k1 != k2,
    ensures
        dir_dr(k1) != dir_dr(k2) || dir_dc(k1) != dir_dc(k2),
{
}

/// Each indexed direction is a direction.
proof fn lemma_directions_valid(k: int)
    requires
        0 <= k < 8,
    ensures
        is_direction(dir_dr(k), dir_dc(k)),
{
}

/// The tiles captured in the single direction (dr, dc) when `player` plays
/// at (pr, pc), ordered by distance from the placed tile: the unique
/// captured run, or empty when nothing is captured in that direction.
pub open spec fn dir_flips(
    b: Seq<Option<Piece>>,
    player: Piece,
    pr: int,
    pc: int,
    dr: int,
    dc: int,
) -> Seq<TilePos> {
    if exists|n: int| captures_run(b, player, pr, pc, dr, dc, n) {
        let n = choose|n: int| captures_run(b, player, pr, pc, dr, dc, n);
        Seq::new(
            n as nat,
            |j: int|
                TilePos {
                    row: walk(pr, dr, j + 1) as usize,
                    col: walk(pc, dc, j + 1) as usize,
                },
        )
    } else {
        Seq::empty()
    }
}

/// The tiles captured in the first `k` of the eight directions,
/// concatenated in direction order.
pub open spec fn flips_upto(
    b: Seq<Option<Piece>>,
    player: Piece,
    pr: int,
    pc: int,
    k: int,
) -> Seq<TilePos>
    decreases k,
{
    if k <= 0 {
        Seq::empty()
    } else {
        flips_upto(b, player, pr, pc, k - 1) + dir_flips(
            b,
            player,
            pr,
            pc,
            dir_dr(k - 1),
            dir_dc(k - 1),
        )
    }
}

/// Every tile captured when `player` places at `p`: the concatenation, over
/// the eight directions in their fixed order, of the captured runs, each
/// ordered by distance from `p`.
pub open spec fn move_flips(b: Seq<Option<Piece>>, player: Piece, p: TilePos) -> Seq<TilePos> {
    flips_upto(b, player, p.row as int, p.col as int, 8)
}

/// The k-th scan direction, as executable deltas.
fn direction_of(k: usize) -> (d: (i32, i32))
    requires
        k < 8,
    ensures
        d.0 as int == dir_dr(k as int),
        d.1 as int == dir_dc(k as int),
        is_direction(d.0 as int, d.1 as int),
{
    if k == 0 {
        (-1, -1)
    } else if k == 1 {
        (-1, 0)
    } else if k == 2 {
        (-1, 1)
    } else if k == 3 {
        (0, -1)
    } else if k == 4 {
        (0, 1)
    } else if k == 5 {
        (1, -1)
    } else if k == 6 {
        (1, 0)
    } else {
        (1, 1)
    }
}

/// The positions at steps 1..=n away from `pos` in direction (dr, dc).
fn captured_tiles(pos: TilePos, dr: i32, dc: i32, n: usize) -> (v: Vec<TilePos>)
    requires
        pos.in_bounds(),
        is_direction(dr as int, dc as int),
        forall|i: int|
            1 <= i <= n ==> 0 <= #[trigger] walk(pos.row as int, dr as int, i) < 8 && 0 <= walk(
                pos.col as int,
                dc as int,
                i,
            ) < 8,
    ensures
        v@.len() == n,
        forall|j: int|
            0 <= j < n ==> (#[trigger] v@[j]).row == walk(pos.row as int, dr as int, j + 1)
                && v@[j].col == walk(pos.col as int, dc as int, j + 1),
{
    let ghost pr = pos.row as int;
    let ghost pc = pos.col as int;
    let mut v: Vec<TilePos> = Vec::new();
    let mut r: i32 = pos.row as i32;
    let mut c: i32 = pos.col as i32;
    let mut j: usize = 0;
    while j < n
        invariant
            pos.in_bounds(),
            pr == pos.row as int,
            pc == pos.col as int,
            is_direction(dr as int, dc as int),
            forall|i: int|
                1 <= i <= n ==> 0 <= #[trigger] walk(pr, dr as int, i) < 8 && 0 <= walk(
                    pc,
                    dc as int,
                    i,
                ) < 8,
            j <= n,
            r == walk(pr, dr as int, j as int),
            c == walk(pc, dc as int, j as int),
            -1 <= r <= 8,
            -1 <= c <= 8,
            v@.len() == j,
            forall|j2: int|
                0 <= j2 < j ==> (#[trigger] v@[j2]).row == walk(pr, dr as int, j2 + 1)
                    && v@[j2].col == walk(pc, dc as int, j2 + 1),
        decreases n - j,
    {
        let nr = r + dr;
        let nc = c + dc;
        proof {
            assert(nr == walk(pr, dr as int, j + 1));
            assert(nc == walk(pc, dc as int, j + 1));
            assert(0 <= nr < 8 && 0 <= nc < 8);
        }
        v.push(TilePos { row: nr as usize, col: nc as usize });
        r = nr;
        c = nc;
        j = j + 1;
    }
    v
}

/// The tiles captured in the single direction (dr, dc) when `player` plays
/// at `pos`, ordered by distance from `pos`.
fn flips_in_direction(grid: &Grid, player: Piece, pos: TilePos, dr: i32, dc: i32) -> (v: Vec<
    TilePos,
>)
    requires
        pos.in_bounds(),
        is_direction(dr as int, dc as int),
    ensures
        forall|q: TilePos|
            #[trigger] v@.contains(q) <==> flipped_in_dir(
                grid@,
                player,
                pos.row as int,
                pos.col as int,
                dr as int,
                dc as int,
                q,
            ),
        v@ == dir_flips(grid@, player, pos.row as int, pos.col as int, dr as int, dc as int),
        v@.no_duplicates(),
{
    let ghost b = grid@;
    let ghost pr = pos.row as int;
    let ghost pc = pos.col as int;
    let n = scan_direction(grid, player, pos, dr, dc);
    if n == 0 {
        let v: Vec<TilePos> = Vec::new();
        proof {
            if exists|m: int| captures_run(b, player, pr, pc, dr as int, dc as int, m) {
                let m = choose|m: int| captures_run(b, player, pr, pc, dr as int, dc as int, m);
                assert(m == 0);
                assert(false);
            }
            assert(v@ =~= dir_flips(b, player, pr, pc, dr as int, dc as int));
            assert forall|q: TilePos|
                #[trigger] v@.contains(q) <==> flipped_in_dir(
                    b,
                    player,
                    pr,
                    pc,
                    dr as int,
                    dc as int,
                    q,
                ) by {
                assert(!v@.contains(q));
                if flipped_in_dir(b, player, pr, pc, dr as int, dc as int, q) {
                    let (i, m) = choose|i: int, m: int|
                        #![trigger captures_run(b, player, pr, pc, dr as int, dc as int, m), walk(pr, dr as int, i)]
                        1 <= i <= m && captures_run(b, player, pr, pc, dr as int, dc as int, m)
                            && q.row == walk(pr, dr as int, i) && q.col == walk(pc, dc as int, i);
                    assert(m == 0);
                }
            }
        }
        v
    } else {
        proof {
            assert(captures_run(b, player, pr, pc, dr as int, dc as int, n as int));
        }
        let v = captured_tiles(pos, dr, dc, n);
        proof {
            assert forall|q: TilePos|
                #[trigger] v@.contains(q) <==> flipped_in_dir(
                    b,
                    player,
                    pr,
                    pc,
                    dr as int,
                    dc as int,
                    q,
                ) by {
                if v@.contains(q) {
                    let j = choose|j: int| 0 <= j < v@.len() && v@[j] == q;
                    assert(q.row == walk(pr, dr as int, j + 1) && q.col == walk(
                        pc,
                        dc as int,
                        j + 1,
                    ));
                    assert(flipped_in_dir(b, player, pr, pc, dr as int, dc as int, q));
                }
                if flipped_in_dir(b, player, pr, pc, dr as int, dc as int, q) {
                    let (i, m) = choose|i: int, m: int|
                        #![trigger captures_run(b, player, pr, pc, dr as int, dc as int, m), walk(pr, dr as int, i)]
                        1 <= i <= m && captures_run(b, player, pr, pc, dr as int, dc as int, m)
                            && q.row == walk(pr, dr as int, i) && q.col == walk(pc, dc as int, i);
                    lemma_captures_run_unique(b, player, pr, pc, dr as int, dc as int, m, n as int);
                    assert(v@[i - 1] == q);
                }
            }
            let m = choose|m: int| captures_run(b, player, pr, pc, dr as int, dc as int, m);
            lemma_captures_run_unique(b, player, pr, pc, dr as int, dc as int, m, n as int);
            assert forall|j: int|
                0 <= j < n implies v@[j] == dir_flips(b, player, pr, pc, dr as int, dc as int)[j]
                by {
                assert(v@[j].row == walk(pr, dr as int, j + 1));
                assert(v@[j].col == walk(pc, dc as int, j + 1));
                assert(0 <= walk(pr, dr as int, j + 1) < 8 && 0 <= walk(pc, dc as int, j + 1) < 8);
            }
            assert(v@ =~= dir_flips(b, player, pr, pc, dr as int, dc as int));
            assert forall|j1: int, j2: int|
                0 <= j1 < v@.len() && 0 <= j2 < v@.len() && j1 != j2 implies v@[j1] != v@[j2] by {
                if v@[j1] == v@[j2] {
                    lemma_walk_injective(
                        pr,
                        pc,
                        dr as int,
                        dc as int,
                        dr as int,
                        dc as int,
                        j1 + 1,
                        j2 + 1,
                    );
                }
            }
        }
        v
    }
}

/// Computes the tiles that would have to flip if a piece of the given player
/// was placed at the given position: exactly `move_flips`, the
/// concatenation, over the eight directions in their fixed scan order, of
/// the captured runs of opponent tiles, each ordered by distance from the
/// placed tile. No tile appears twice. The position must refer to an empty
/// tile.
pub fn compute_flips(grid: &Grid, player: Piece, pos: TilePos) -> (flips: Vec<TilePos>)
    requires
        pos.in_bounds(),
        board_tile(grid@, pos.row as int, pos.col as int) is None,
    ensures
        flips@ == move_flips(grid@, player, pos),
        flips@.no_duplicates(),
        forall|q: TilePos| #[trigger] flips@.contains(q) <==> is_flipped(grid@, player, pos, q),
        flips@.len() > 0 <==> has_flip(grid@, player, pos),
{
    let ghost b = grid@;
    let ghost pr = pos.row as int;
    let ghost pc = pos.col as int;
    let mut flips: Vec<TilePos> = Vec::new();
    let mut k: usize = 0;
    while k < 8
        invariant
            b == grid@,
            pr == pos.row as int,
            pc == pos.col as int,
            pos.in_bounds(),
            k <= 8,
            flips@ == flips_upto(b, player, pr, pc, k as int),
            flips@.no_duplicates(),
            forall|q: TilePos|
                #[trigger] flips@.contains(q) <==> exists|k2: int|
                    0 <= k2 < k && #[trigger] flipped_in_dir(
                        b,
                        player,
                        pr,
                        pc,
                        dir_dr(k2),
                        dir_dc(k2),
                        q,
                    ),
        decreases 8 - k,
    {
        let (dr, dc) = direction_of(k);
        let mut seg = flips_in_direction(grid, player, pos, dr, dc);
        let ghost prev = flips@;
        let ghost segv = seg@;
        flips.append(&mut seg);
        proof {
            assert forall|q: TilePos|
                #[trigger] flips@.contains(q) <==> exists|k2: int|
                    0 <= k2 < k + 1 && #[trigger] flipped_in_dir(
                        b,
                        player,
                        pr,
                        pc,
                        dir_dr(k2),
                        dir_dc(k2),
                        q,
                    ) by {
                lemma_concat_contains(prev, segv, q);
                if segv.contains(q) {
                    assert(flipped_in_dir(b, player, pr, pc, dir_dr(k as int), dir_dc(k as int), q));
                }
                if flips@.contains(q) {
                } else {
                    if exists|k2: int|
                        0 <= k2 < k + 1 && #[trigger] flipped_in_dir(
                            b,
                            player,
                            pr,
                            pc,
                            dir_dr(k2),
                            dir_dc(k2),
                            q,
                        ) {
                        let k2 = choose|k2: int|
                            0 <= k2 < k + 1 && #[trigger] flipped_in_dir(
                                b,
                                player,
                                pr,
                                pc,
                                dir_dr(k2),
                                dir_dc(k2),
                                q,
                            );
                        if k2 == k {
                            assert(segv.contains(q));
                        }
                        assert(false);
                    }
                }
            }
            assert forall|i1: int, j1: int|
                0 <= i1 < prev.len() && 0 <= j1 < segv.len() implies prev[i1] != segv[j1] by {
                if prev[i1] == segv[j1] {
                    let q = prev[i1];
                    assert(prev.contains(q));
                    assert(segv.contains(q));
                    let k2 = choose|k2: int|
                        0 <= k2 < k && #[trigger] flipped_in_dir(
                            b,
                            player,
                            pr,
                            pc,
                            dir_dr(k2),
                            dir_dc(k2),
                            q,
                        );
                    let (i_a, m_a) = choose|i: int, m: int|
                        #![trigger captures_run(b, player, pr, pc, dir_dr(k2), dir_dc(k2), m), walk(pr, dir_dr(k2), i)]
                        1 <= i <= m && captures_run(b, player, pr, pc, dir_dr(k2), dir_dc(k2), m)
                            && q.row == walk(pr, dir_dr(k2), i) && q.col == walk(
                            pc,
                            dir_dc(k2),
                            i,
                        );
                    let (i_b, m_b) = choose|i: int, m: int|
                        #![trigger captures_run(b, player, pr, pc, dir_dr(k as int), dir_dc(k as int), m), walk(pr, dir_dr(k as int), i)]
                        1 <= i <= m && captures_run(
                            b,
                            player,
                            pr,
                            pc,
                            dir_dr(k as int),
                            dir_dc(k as int),
                            m,
                        ) && q.row == walk(pr, dir_dr(k as int), i) && q.col == walk(
                            pc,
                            dir_dc(k as int),
                            i,
                        );
                    lemma_directions_valid(k2);
                    lemma_directions_valid(k as int);
                    lemma_walk_injective(
                        pr,
                        pc,
                        dir_dr(k2),
                        dir_dc(k2),
                        dir_dr(k as int),
                        dir_dc(k as int),
                        i_a,
                        i_b,
                    );
                    lemma_directions_distinct(k2, k as int);
                }
            }
            lemma_concat_no_duplicates(prev, segv);
            assert(flips@.no_duplicates());
            assert(flips@ == flips_upto(b, player, pr, pc, k + 1));
        }
        k = k + 1;
    }
    proof {
        assert forall|q: TilePos|
            #[trigger] flips@.contains(q) <==> is_flipped(b, player, pos, q) by {
            if flips@.contains(q) {
                let k2 = choose|k2: int|
                    0 <= k2 < 8 && #[trigger] flipped_in_dir(
                        b,
                        player,
                        pr,
                        pc,
                        dir_dr(k2),
                        dir_dc(k2),
                        q,
                    );
                assert(is_direction(dir_dr(k2), dir_dc(k2)));
                assert(is_flipped(b, player, pos, q));
            }
            if is_flipped(b, player, pos, q) {
                let (dr, dc) = choose|dr: int, dc: int|
                    is_direction(dr, dc) && #[trigger] flipped_in_dir(b, player, pr, pc, dr, dc, q);
                lemma_directions_complete(dr, dc);
                assert(flips@.contains(q));
            }
        }
        if flips@.len() > 0 {
            assert(flips@.contains(flips@[0]));
            assert(has_flip(b, player, pos));
        }
        if has_flip(b, player, pos) {
            let q = choose|q: TilePos| is_flipped(b, player, pos, q);
            assert(flips@.contains(q));
        }
    }
    flips
}

/// The position with the given row-major index.
pub open spec fn tile_pos_of(i: int) -> TilePos {
    TilePos { row: (i / 8) as usize, col: (i % 8) as usize }
}

/// Positions on the board are in bijection with row-major indexes.
pub proof fn lemma_index_bijection(p: TilePos, i: int)
    requires
        p.in_bounds(),
        0 <= i < 64,
    ensures
        tile_pos_of(p.index()) == p,
        tile_pos_of(i).in_bounds(),
        tile_pos_of(i).index() == i,
{
    assert(p.index() / 8 == p.row && p.index() % 8 == p.col) by {
        assert(0 <= p.row * 8 + p.col < 64);
    };
}

/// The board after `player` places a piece at `p`: the placed tile and every
/// captured tile hold the player's piece, all other tiles are unchanged.
pub open spec fn applied_board(b: Seq<Option<Piece>>, player: Piece, p: TilePos) -> Seq<
    Option<Piece>,
> {
    Seq::new(
        b.len(),
        |i: int|
            if i == p.index() || is_flipped(b, player, p, tile_pos_of(i)) {
                Some(player)
            } else {
                b[i]
            },
    )
}

/// The legal moves for `player` among the first `k` tiles in row-major
/// order.
pub open spec fn legal_moves_upto(b: Seq<Option<Piece>>, player: Piece, k: int) -> Seq<TilePos>
    decreases k,
{
    if k <= 0 {
        Seq::empty()
    } else {
        legal_moves_upto(b, player, k - 1) + if is_valid_move(b, player, tile_pos_of(k - 1)) {
            seq![tile_pos_of(k - 1)]
        } else {
            Seq::empty()
        }
    }
}

/// All legal moves for `player`, in row-major order (row ascending, then
/// column ascending).
pub open spec fn legal_moves(b: Seq<Option<Piece>>, player: Piece) -> Seq<TilePos> {
    legal_moves_upto(b, player, 64)
}

proof fn lemma_legal_moves_upto_characterization(b: Seq<Option<Piece>>, player: Piece, k: int)
    requires
        0 <= k <= 64,
    ensures
        forall|p: TilePos|
            #[trigger] legal_moves_upto(b, player, k).contains(p) <==> is_valid_move(b, player, p)
                && p.index() < k,
        forall|i: int, j: int|
            0 <= i < j < legal_moves_upto(b, player, k).len()
                ==> #[trigger] legal_moves_upto(b, player, k)[i].index()
                < #[trigger] legal_moves_upto(b, player, k)[j].index(),
        forall|i: int|
            0 <= i < legal_moves_upto(b, player, k).len() ==> (#[trigger] legal_moves_upto(
                b,
                player,
                k,
            )[i]).in_bounds() && legal_moves_upto(b, player, k)[i].index() < k,
    decreases k,
{
    if k > 0 {
        lemma_legal_moves_upto_characterization(b, player, k - 1);
        let prev = legal_moves_upto(b, player, k - 1);
        let cur = legal_moves_upto(b, player, k);
        let p0 = tile_pos_of(k - 1);
        lemma_index_bijection(p0, k - 1);
        if is_valid_move(b, player, p0) {
            assert(cur == prev + seq![p0]);
            assert(cur[cur.len() - 1] == p0);
            assert forall|p: TilePos|
                #[trigger] cur.contains(p) <==> is_valid_move(b, player, p) && p.index()
                    < k by {
                lemma_concat_contains(prev, seq![p0], p);
                if seq![p0].contains(p) {
                    assert(p == p0);
                }
                if is_valid_move(b, player, p) && p.index() < k {
                    if p.index() < k - 1 {
                        assert(prev.contains(p));
                    } else {
                        lemma_index_bijection(p, k - 1);
                        assert(p == p0);
                        assert(seq![p0][0] == p);
                        assert(seq![p0].contains(p));
                    }
                }
            }
        } else {
            assert(cur =~= prev);
            assert forall|p: TilePos|
                #[trigger] cur.contains(p) <==> is_valid_move(b, player, p) && p.index()
                    < k by {
                if is_valid_move(b, player, p) && p.index() < k {
                    if p.index() == k - 1 {
                        lemma_index_bijection(p, k - 1);
                        assert(p == p0);
                        assert(false);
                    }
                    assert(prev.contains(p));
                }
            }
        }
    }
}

/// A position is in the legal-move list exactly when its tile is empty and
/// placing there captures at least one tile; and the list is strictly
/// ordered by row-major index.
pub proof fn lemma_legal_moves_characterization(b: Seq<Option<Piece>>, player: Piece)
    ensures
        forall|p: TilePos|
            #[trigger] legal_moves(b, player).contains(p) <==> is_valid_move(b, player, p),
        forall|i: int, j: int|
            0 <= i < j < legal_moves(b, player).len() ==> #[trigger] legal_moves(
                b,
                player,
            )[i].index() < #[trigger] legal_moves(b, player)[j].index(),
        forall|i: int|
            0 <= i < legal_moves(b, player).len() ==> (#[trigger] legal_moves(
                b,
                player,
            )[i]).in_bounds(),
{
    lemma_legal_moves_upto_characterization(b, player, 64);
    assert forall|p: TilePos|
        #[trigger] legal_moves(b, player).contains(p) <==> is_valid_move(b, player, p) by {
        if is_valid_move(b, player, p) {
            assert(p.index() < 64);
        }
    }
}

/// A player with a legal move faces a board that is not yet full.
pub proof fn lemma_moves_nonempty_not_full(b: Seq<Option<Piece>>, player: Piece)
    requires
        legal_moves(b, player).len() > 0,
    ensures
        !board_full(b),
{
    lemma_legal_moves_characterization(b, player);
    let p = legal_moves(b, player)[0];
    assert(legal_moves(b, player).contains(p));
    assert(board_tile(b, p.row as int, p.col as int) is None);
    assert(0 <= p.index() < 64);
}

/// On a fully occupied board no player has a legal move, whoever is to
/// move.
pub proof fn lemma_full_board_no_moves(b: Seq<Option<Piece>>, player: Piece)
    requires
        board_full(b),
    ensures
        legal_moves(b, player).len() == 0,
{
    if legal_moves(b, player).len() > 0 {
        lemma_moves_nonempty_not_full(b, player);
    }
}

/// Enumerates, in row-major order, the empty tiles where placing the given
/// player's piece would flip at least one opponent tile.
pub fn compute_valid_moves(grid: &Grid, player: Piece) -> (moves: Vec<TilePos>)
    ensures
        moves@ == legal_moves(grid@, player),
{
    let ghost b = grid@;
    let mut moves: Vec<TilePos> = Vec::new();
    let mut row: usize = 0;
    while row < 8
        invariant
            b == grid@,
            row <= 8,
            moves@ == legal_moves_upto(b, player, row * 8),
        decreases 8 - row,
    {
        let mut col: usize = 0;
        while col < 8
            invariant
                b == grid@,
                row < 8,
                col <= 8,
                moves@ == legal_moves_upto(b, player, row * 8 + col),
            decreases 8 - col,
        {
            let p = TilePos { row, col };
            proof {
                lemma_index_bijection(p, 0);
                assert(tile_pos_of(row * 8 + col) == p);
            }
            match grid.tile(p) {
                Some(_) => {
                    proof {
                        assert(!is_valid_move(b, player, p));
                        assert(moves@ =~= legal_moves_upto(b, player, row * 8 + col + 1));
                    }
                },
                None => {
                    let flips = compute_flips(grid, player, p);
                    if flips.len() > 0 {
                        moves.push(p);
                        proof {
                            assert(is_valid_move(b, player, p));
                            assert(moves@ =~= legal_moves_upto(b, player, row * 8 + col + 1));
                        }
                    } else {
                        proof {
                            assert(!is_valid_move(b, player, p));
                            assert(moves@ =~= legal_moves_upto(b, player, row * 8 + col + 1));
                        }
                    }
                },
            }
            col = col + 1;
        }
        row = row + 1;
    }
    moves
}

} // verus!
