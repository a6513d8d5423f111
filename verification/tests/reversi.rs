use board_games::grid::Grid;
use board_games::moves::{compute_flips, compute_valid_moves};
use board_games::piece::Piece;
use board_games::reversi::Reversi;
use board_games::tile_pos::TilePos;

fn pos(row: usize, col: usize) -> TilePos {
    TilePos { row, col }
}

#[test]
fn opposite_involution() {
    assert_eq!(Piece::X.opposite(), Piece::O);
    assert_eq!(Piece::O.opposite(), Piece::X);
    assert_eq!(Piece::X.opposite().opposite(), Piece::X);
    assert_eq!(Piece::O.opposite().opposite(), Piece::O);
}

#[test]
fn empty_grid() {
    let grid = Grid::default();
    assert!(!grid.is_full());
    assert_eq!(grid.row_len(), 8);
    assert_eq!(grid.col_len(), 8);
    for row in grid.rows() {
        for tile in row {
            assert_eq!(tile, None);
        }
    }
}

#[test]
fn place_and_read_tiles() {
    let mut grid = Grid::default();
    grid.place(pos(0, 0), Piece::X);
    grid.place(pos(7, 7), Piece::O);
    grid.place(pos(3, 5), Piece::O);
    grid.place(pos(3, 5), Piece::X);
    assert_eq!(grid.tile(pos(0, 0)), Some(Piece::X));
    assert_eq!(grid.tile(pos(7, 7)), Some(Piece::O));
    assert_eq!(grid.tile(pos(3, 5)), Some(Piece::X));
    assert_eq!(grid.tile(pos(4, 4)), None);
    assert_eq!(grid.rows()[3][5], Some(Piece::X));
}

#[test]
fn full_grid_detected() {
    let mut grid = Grid::default();
    for row in 0..8 {
        for col in 0..8 {
            assert!(!grid.is_full());
            grid.place(pos(row, col), if (row + col) % 2 == 0 { Piece::X } else { Piece::O });
        }
    }
    assert!(grid.is_full());
}

#[test]
fn initial_state() {
    let game = Reversi::new();
    assert_eq!(game.current_player(), Piece::X);
    assert_eq!(game.scores(), (2, 2));
    assert_eq!(game.grid().tile(pos(3, 3)), Some(Piece::X));
    assert_eq!(game.grid().tile(pos(3, 4)), Some(Piece::O));
    assert_eq!(game.grid().tile(pos(4, 3)), Some(Piece::O));
    assert_eq!(game.grid().tile(pos(4, 4)), Some(Piece::X));

    // The legal moves of X, in row-major order
    assert_eq!(game.valid_moves(), &vec![pos(2, 4), pos(3, 5), pos(4, 2), pos(5, 3)]);

    // Each opening move flips exactly one tile
    for &m in game.valid_moves() {
        let flips = compute_flips(game.grid(), Piece::X, m);
        assert_eq!(flips.len(), 1);
    }
}

#[test]
fn first_move() {
    let mut game = Reversi::new();
    let x_moves: Vec<TilePos> = game.valid_moves().clone();

    // Applying (2,4) flips exactly (3,4) from O to X
    let flips = compute_flips(game.grid(), Piece::X, pos(2, 4));
    assert_eq!(flips, vec![pos(3, 4)]);

    game.make_move(pos(2, 4));
    assert_eq!(game.grid().tile(pos(2, 4)), Some(Piece::X));
    assert_eq!(game.grid().tile(pos(3, 4)), Some(Piece::X));
    assert_eq!(game.scores(), (4, 1));
    assert_eq!(game.current_player(), Piece::O);
    assert!(!game.valid_moves().is_empty());
    assert_ne!(game.valid_moves(), &x_moves);
}

#[test]
fn pass_keeps_board() {
    let mut game = Reversi::new();
    let board_before = *game.grid();
    let player_before = game.current_player();

    game.advance_turn();

    assert_eq!(*game.grid(), board_before);
    assert_eq!(game.current_player(), player_before.opposite());
    // O's legal moves from the opening position, recomputed for the cache
    assert_eq!(game.valid_moves(), &vec![pos(2, 3), pos(3, 2), pos(4, 5), pos(5, 4)]);

    game.advance_turn();
    assert_eq!(*game.grid(), board_before);
    assert_eq!(game.current_player(), player_before);
}

#[test]
fn terminal_conditions() {
    // A fully occupied board is terminal no matter whose turn it is.
    let mut grid = Grid::default();
    for row in 0..8 {
        for col in 0..8 {
            grid.place(pos(row, col), Piece::X);
        }
    }
    assert!(grid.is_full());

    // Two players without moves: with only one color on the board neither
    // side can capture, so two consecutive passes end the game even though
    // empty tiles remain.
    let mut lone = Grid::default();
    lone.place(pos(0, 0), Piece::X);
    assert!(!lone.is_full());
    assert!(compute_valid_moves(&lone, Piece::X).is_empty());
    assert!(compute_valid_moves(&lone, Piece::O).is_empty());
}

#[test]
fn clone_roundtrip() {
    let game = Reversi::new();
    let snapshot = game.clone();

    let mut scratch = game.clone();
    scratch.make_move(pos(2, 4));
    drop(scratch);

    // The original is untouched: board, player and legal-move cache
    assert_eq!(game, snapshot);
    assert_eq!(game.current_player(), Piece::X);
    assert_eq!(game.scores(), (2, 2));
    assert_eq!(game.valid_moves(), &vec![pos(2, 4), pos(3, 5), pos(4, 2), pos(5, 3)]);
}

#[test]
fn legal_moves_are_empty_tiles_with_flips() {
    let mut game = Reversi::new();
    // Play a few plies with the first legal move and check the claimed
    // characterization of the cache at every step.
    for _ in 0..6 {
        let moves = game.valid_moves().clone();
        let player = game.current_player();
        for m in &moves {
            assert_eq!(game.grid().tile(*m), None);
            assert!(!compute_flips(game.grid(), player, *m).is_empty());
        }
        // Conversely, every empty tile not in the list flips nothing.
        for row in 0..8 {
            for col in 0..8 {
                let p = pos(row, col);
                if game.grid().tile(p).is_none() && !moves.contains(&p) {
                    assert!(compute_flips(game.grid(), player, p).is_empty());
                }
            }
        }
        let chosen = moves[0];
        game.make_move(chosen);
    }
}

#[test]
fn compute_flips_is_pure_and_duplicate_free() {
    // The flip list is a function of (grid, player, position): two calls
    // return equal vectors, and no tile ever appears twice. Checked at
    // every empty tile through a deterministically played game.
    let mut game = Reversi::new();
    let mut skipped = false;
    loop {
        let player = game.current_player();
        for row in 0..8 {
            for col in 0..8 {
                let p = pos(row, col);
                if game.grid().tile(p).is_none() {
                    let first = compute_flips(game.grid(), player, p);
                    let second = compute_flips(game.grid(), player, p);
                    assert_eq!(first, second);
                    for (i, a) in first.iter().enumerate() {
                        assert!(a.row < 8 && a.col < 8);
                        assert_ne!(*a, p);
                        assert_eq!(game.grid().tile(*a), Some(player.opposite()));
                        for b in &first[i + 1..] {
                            assert_ne!(a, b);
                        }
                    }
                }
            }
        }
        if game.grid().is_full() || (skipped && game.valid_moves().is_empty()) {
            break;
        }
        if game.valid_moves().is_empty() {
            skipped = true;
            game.advance_turn();
            continue;
        }
        skipped = false;
        let chosen = game.valid_moves()[0];
        game.make_move(chosen);
    }
}

#[test]
fn make_move_count_deltas() {
    // A move adds the placed tile and turns exactly the flipped tiles:
    // mover +f+1, opponent -f, where f is the length of the flip list.
    let mut game = Reversi::new();
    let mut skipped = false;
    loop {
        if game.grid().is_full() || (skipped && game.valid_moves().is_empty()) {
            break;
        }
        if game.valid_moves().is_empty() {
            skipped = true;
            game.advance_turn();
            continue;
        }
        skipped = false;
        let player = game.current_player();
        let chosen = game.valid_moves()[0];
        let f = compute_flips(game.grid(), player, chosen).len() as u32;
        assert!(f >= 1);
        let (x_before, o_before) = game.scores();
        game.make_move(chosen);
        let (x_after, o_after) = game.scores();
        match player {
            Piece::X => {
                assert_eq!(x_after, x_before + f + 1);
                assert_eq!(o_after, o_before - f);
            }
            Piece::O => {
                assert_eq!(o_after, o_before + f + 1);
                assert_eq!(x_after, x_before - f);
            }
        }
    }
}

#[test]
fn default_is_new_game() {
    let game = Reversi::default();
    assert_eq!(game, Reversi::new());
}
