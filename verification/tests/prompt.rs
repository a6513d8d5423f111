use board_games::prompt::{parse_move, ParseError};
use board_games::tile_pos::TilePos;

fn pos(row: usize, col: usize) -> TilePos {
    TilePos { row, col }
}

#[test]
fn parses_letter_then_digit() {
    assert_eq!(parse_move("A1\n".to_string()).unwrap(), pos(0, 0));
    assert_eq!(parse_move("H8\n".to_string()).unwrap(), pos(7, 7));
    assert_eq!(parse_move("C5\n".to_string()).unwrap(), pos(4, 2));
}

#[test]
fn parses_digit_then_letter() {
    assert_eq!(parse_move("1A\n".to_string()).unwrap(), pos(0, 0));
    assert_eq!(parse_move("8H\n".to_string()).unwrap(), pos(7, 7));
    assert_eq!(parse_move("3F\n".to_string()).unwrap(), pos(2, 5));
}

#[test]
fn parses_lower_case() {
    assert_eq!(parse_move("a1\n".to_string()).unwrap(), pos(0, 0));
    assert_eq!(parse_move("h8\n".to_string()).unwrap(), pos(7, 7));
    assert_eq!(parse_move("5d\n".to_string()).unwrap(), pos(4, 3));
}

#[test]
fn position_names() {
    assert_eq!(pos(0, 0).to_string(), "A1");
    assert_eq!(pos(7, 7).to_string(), "H8");
    assert_eq!(pos(0, 7).to_string(), "H1");
    assert_eq!(pos(7, 0).to_string(), "A8");
    assert_eq!(pos(2, 4).to_string(), "E3");
}

#[test]
fn name_parse_roundtrip() {
    // Printing any position and parsing the printed line gives it back.
    for row in 0..8 {
        for col in 0..8 {
            let p = pos(row, col);
            let mut line = p.to_string();
            line.push('\n');
            assert_eq!(parse_move(line).unwrap(), p);
        }
    }
}

#[test]
fn rejects_out_of_range_input() {
    for line in ["I1\n", "A9\n", "A0\n", "11\n", "AA\n", "Z9\n", "??\n"] {
        match parse_move(line.to_string()) {
            Err(ParseError::InvalidInput(s)) => assert_eq!(s, line),
            other => panic!("expected invalid input, got {:?}", other),
        }
    }
}

#[test]
fn rejects_wrong_length_input() {
    for line in ["\n", "A\n", "A12\n", "A1", "A1 \n"] {
        match parse_move(line.to_string()) {
            Err(ParseError::InvalidInput(s)) => assert_eq!(s, line),
            other => panic!("expected invalid input, got {:?}", other),
        }
    }
}
