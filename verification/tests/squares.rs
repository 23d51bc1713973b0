use chess::position::{ParseError, Position};

#[test]
fn algebraic_round_trip_all_squares() {
    let files = ['a', 'b', 'c', 'd', 'e', 'f', 'g', 'h'];
    let ranks = ['1', '2', '3', '4', '5', '6', '7', '8'];
    for f in files.iter() {
        for r in ranks.iter() {
            let text = format!("{}{}", f, r);
            let square = Position::from_algebraic(&text).unwrap();
            assert_eq!(square.to_algebraic(), text);
        }
    }
}

#[test]
fn from_algebraic_exact_coordinates() {
    assert_eq!(Position::from_algebraic("a1").unwrap(), Position(0, 0));
    assert_eq!(Position::from_algebraic("e2").unwrap(), Position(4, 1));
    assert_eq!(Position::from_algebraic("h8").unwrap(), Position(7, 7));
}

#[test]
fn from_algebraic_wrong_length() {
    assert_eq!(Position::from_algebraic(""), Err(ParseError::WrongLength));
    assert_eq!(Position::from_algebraic("e"), Err(ParseError::WrongLength));
    assert_eq!(Position::from_algebraic("e2e4"), Err(ParseError::WrongLength));
}

#[test]
fn from_algebraic_bad_file() {
    assert_eq!(Position::from_algebraic("i1"), Err(ParseError::BadFile));
    assert_eq!(Position::from_algebraic("A1"), Err(ParseError::BadFile));
    assert_eq!(Position::from_algebraic("11"), Err(ParseError::BadFile));
}

#[test]
fn from_algebraic_bad_rank() {
    assert_eq!(Position::from_algebraic("a0"), Err(ParseError::BadRank));
    assert_eq!(Position::from_algebraic("a9"), Err(ParseError::BadRank));
    assert_eq!(Position::from_algebraic("ab"), Err(ParseError::BadRank));
}

#[test]
fn to_algebraic_exact_texts() {
    assert_eq!(Position(0, 0).to_algebraic(), "a1");
    assert_eq!(Position(4, 1).to_algebraic(), "e2");
    assert_eq!(Position(7, 7).to_algebraic(), "h8");
    assert_eq!(Position(2, 5).to_algebraic(), "c6");
}

#[test]
fn construction_from_file_and_rank() {
    assert_eq!(Position::from_file_rank(3, 6), Position(3, 6));
    assert_eq!(Position::new('e', 2), Position(4, 1));
    assert_eq!(Position::new('a', 1), Position(0, 0));
    assert_eq!(Position::new('h', 8), Position(7, 7));
}
