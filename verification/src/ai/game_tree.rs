use vstd::prelude::*;

use crate::reversi::Reversi;

verus! {

/// Represents the tree of every possible reversi game, rooted at a given
/// position. Nodes are materialized on demand: a node stores its game state
/// and whether the ply that led to it was a pass, and its children are
/// produced by a cursor.
#[derive(Debug, Clone)]
pub struct GameTree {
    game: Reversi,
    skipped: bool,
}

impl GameTree {
    /// The game state at this node.
    pub closed spec fn spec_game(self) -> Reversi {
        self.game
    }

    /// Whether the ply leading to this node was a pass.
    pub closed spec fn spec_skipped(self) -> bool {
        self.skipped
    }

    /// Roots a game tree at the given state.
    pub fn new(game: Reversi) -> (t: Self)
        ensures
            t.spec_game() == game,
            !t.spec_skipped(),
    {
        Self { game, skipped: false }
    }

    /// A cursor over the children of this node, starting before the first
    /// child.
    pub fn children(&self) -> (c: GameTreeChildren)
        ensures
            c.spec_root() == *self,
            c.spec_next() == 0,
    {
        GameTreeChildren { root: self, next: 0 }
    }
}

/// A cursor over the children of a game-tree node: the node together with
/// the index of the next legal move to expand.
pub struct GameTreeChildren<'a> {
    root: &'a GameTree,
    next: usize,
}

impl<'a> GameTreeChildren<'a> {
    /// The node whose children the cursor walks.
    pub closed spec fn spec_root(self) -> GameTree {
        *self.root
    }

    /// The index of the next child to expand.
    pub closed spec fn spec_next(self) -> int {
        self.next as int
    }
}

} // verus!
