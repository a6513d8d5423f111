use vstd::prelude::*;

use crate::piece::Piece;
use crate::tile_pos::TilePos;

verus! {

/// Tiles on each side of the square board.
pub const BOARD_SIZE: usize = 8;

/// Total number of tiles on the board.
pub const TILE_COUNT: usize = 64;

/// The tile of a board at row `r`, column `c`. A board is modelled as a
/// sequence of 64 tiles in row-major order.
pub open spec fn board_tile(b: Seq<Option<Piece>>, r: int, c: int) -> Option<Piece> {
    b[r * 8 + c]
}

/// True when no tile of the board is empty.
pub open spec fn board_full(b: Seq<Option<Piece>>) -> bool {
    forall|i: int| 0 <= i < 64 ==> b[i] is Some
}

/// True for a board model of the right size.
pub open spec fn board_sized(b: Seq<Option<Piece>>) -> bool {
    b.len() == 64
}

/// A grid always models a board of exactly 64 tiles.
pub proof fn lemma_grid_len(g: Grid)
    ensures
        g@.len() == 64,
{
    broadcast use vstd::array::group_array_axioms;

}

/// An 8x8 grid of tiles. Each tile is either empty (`None`) or contains a
/// single `Piece`. The grid has no notion of turns or legality; it is a
/// dumb, fixed-size mutable store.
#[derive(Debug, Clone, Copy, PartialEq, Eq)]
pub struct Grid {
    /// The tiles of the grid, stored row by row: tile (r, c) is at
    /// index `r * 8 + c`.
    tiles: [Option<Piece>; 64],
}

impl View for Grid {
    type V = Seq<Option<Piece>>;

    closed spec fn view(&self) -> Seq<Option<Piece>> {
        self.tiles@
    }
}

impl Default for Grid {
    /// Creates an empty grid.
    fn default() -> (g: Grid)
        ensures
            board_sized(g@),
            forall|i: int| 0 <= i < 64 ==> g@[i] is None,
    {
        Grid { tiles: [None; 64] }
    }
}

impl Grid {
    /// Returns true if the grid is completely full (no empty tiles left).
    pub fn is_full(&self) -> (r: bool)
        ensures
            r == board_full(self@),
    {
        let mut i: usize = 0;
        while i < 64
            invariant
                i <= 64,
                forall|j: int| 0 <= j < i ==> self@[j] is Some,
            decreases 64 - i,
        {
            if self.tiles[i].is_none() {
                return false;
            }
            i = i + 1;
        }
        true
    }

    /// Returns the length of each row (i.e. the number of columns).
    pub fn row_len(&self) -> (n: usize)
        ensures
            n == 8,
    {
        BOARD_SIZE
    }

    /// Returns the length of each column (i.e. the number of rows).
    pub fn col_len(&self) -> (n: usize)
        ensures
            n == 8,
    {
        BOARD_SIZE
    }

    /// Returns the tiles of the grid, row by row.
    pub fn rows(&self) -> (rows: Vec<Vec<Option<Piece>>>)
        ensures
            rows@.len() == 8,
            forall|r: int| 0 <= r < 8 ==> (#[trigger] rows@[r])@.len() == 8,
            forall|r: int, c: int|
                0 <= r < 8 && 0 <= c < 8 ==> #[trigger] rows@[r]@[c] == board_tile(self@, r, c),
    {
        let mut rows: Vec<Vec<Option<Piece>>> = Vec::new();
        let mut r: usize = 0;
        while r < 8
            invariant
                r <= 8,
                rows@.len() == r,
                forall|i: int| 0 <= i < r ==> (#[trigger] rows@[i])@.len() == 8,
                forall|i: int, c: int|
                    0 <= i < r && 0 <= c < 8 ==> #[trigger] rows@[i]@[c] == board_tile(
                        self@,
                        i,
                        c,
                    ),
            decreases 8 - r,
        {
            let mut row: Vec<Option<Piece>> = Vec::new();
            let mut c: usize = 0;
            while c < 8
                invariant
                    r < 8,
                    c <= 8,
                    row@.len() == c,
                    forall|j: int| 0 <= j < c ==> row@[j] == board_tile(self@, r as int, j),
                decreases 8 - c,
            {
                row.push(self.tiles[r * 8 + c]);
                c = c + 1;
            }
            rows.push(row);
            r = r + 1;
        }
        rows
    }

    /// Returns the tile at the given position.
    pub fn tile(&self, pos: TilePos) -> (t: Option<Piece>)
        requires
            pos.in_bounds(),
        ensures
            t == board_tile(self@, pos.row as int, pos.col as int),
    {
        self.tiles[pos.row * 8 + pos.col]
    }

    /// Places the given piece on the tile at the given position, overwriting
    /// the piece that was previously at that position (if any).
    pub fn place(&mut self, pos: TilePos, piece: Piece)
        requires
            pos.in_bounds(),
        ensures
            final(self)@ == old(self)@.update(pos.index(), Some(piece)),
    {
        self.tiles[pos.row * 8 + pos.col] = Some(piece);
    }
}

} // verus!
