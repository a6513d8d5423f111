use vstd::prelude::*;

verus! {

/// The two colors of discs that can occupy a tile.
#[derive(Debug, Clone, Copy, PartialEq, Eq, Structural)]
pub enum Piece {
    X,
    O,
}

impl Piece {
    /// The piece belonging to the other player.
    pub open spec fn spec_opposite(self) -> Piece {
        match self {
            Piece::X => Piece::O,
            Piece::O => Piece::X,
        }
    }

    /// Returns the piece opposite to this piece.
    #[verifier::when_used_as_spec(spec_opposite)]
    pub fn opposite(self) -> (r: Self)
        ensures
            r == self.spec_opposite(),
    {
        match self {
            Piece::X => Piece::O,
            Piece::O => Piece::X,
        }
    }
}

/// Taking the opposite twice always gives back the original player, and the
/// opposite of a piece is never the piece itself.
pub proof fn lemma_opposite_involution(p: Piece)
    ensures
        p.opposite().opposite() == p,
        p.opposite() != p,
{
}

} // verus!
