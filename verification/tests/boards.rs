use chess::board::{Board, MoveError};
use chess::piece::{Kind, Piece};
use chess::position::Position;

fn piece(file: u8, rank: u8, white: bool, kind: Kind) -> Piece {
    Piece { position: Position(file, rank), white, piece: kind }
}

fn board(pieces: Vec<Piece>) -> Board {
    Board { pieces }
}

fn square(text: &str) -> Position {
    Position::from_algebraic(text).unwrap()
}

#[test]
fn initial_setup_fills_exactly_the_starting_squares() {
    let board = Board { pieces: Vec::new() }.initialize();
    assert_eq!(board.pieces.len(), 32);
    let back = [
        Kind::Rook,
        Kind::Knight,
        Kind::Bishop,
        Kind::Queen,
        Kind::King,
        Kind::Bishop,
        Kind::Knight,
        Kind::Rook,
    ];
    for f in 0..8u8 {
        for r in 0..8u8 {
            let found = board.get_piece(Position(f, r)).copied();
            match r {
                0 => assert_eq!(found, Some(piece(f, 0, true, back[f as usize]))),
                1 => assert_eq!(found, Some(piece(f, 1, true, Kind::Pawn))),
                6 => assert_eq!(found, Some(piece(f, 6, false, Kind::Pawn))),
                7 => assert_eq!(found, Some(piece(f, 7, false, back[f as usize]))),
                _ => assert_eq!(found, None),
            }
        }
    }
}

#[test]
fn get_piece_finds_the_occupant_or_nothing() {
    let rook = piece(2, 2, true, Kind::Rook);
    let board = board(vec![rook]);
    assert_eq!(board.get_piece(square("c3")).copied(), Some(rook));
    assert_eq!(board.get_piece(square("c4")), None);
}

#[test]
fn move_onto_occupied_square_captures_exactly_one_piece() {
    let rook = piece(0, 0, true, Kind::Rook);
    let enemy = piece(0, 5, false, Kind::Pawn);
    let bystander = piece(4, 4, false, Kind::Knight);
    let mut board = board(vec![rook, enemy, bystander]);
    let outcome = board.move_piece(square("a1"), square("a6"));
    assert_eq!(outcome, Ok(()));
    assert_eq!(board.pieces.len(), 2);
    assert_eq!(board.get_piece(square("a1")), None);
    assert_eq!(
        board.get_piece(square("a6")).copied(),
        Some(piece(0, 5, true, Kind::Rook))
    );
    assert_eq!(board.get_piece(square("e5")).copied(), Some(bystander));
}

#[test]
fn move_onto_empty_square_keeps_the_piece_count() {
    let rook = piece(0, 0, true, Kind::Rook);
    let bystander = piece(4, 4, false, Kind::Knight);
    let mut board = board(vec![rook, bystander]);
    let outcome = board.move_piece(square("a1"), square("a4"));
    assert_eq!(outcome, Ok(()));
    assert_eq!(board.pieces.len(), 2);
    assert_eq!(board.get_piece(square("a1")), None);
    assert_eq!(
        board.get_piece(square("a4")).copied(),
        Some(piece(0, 3, true, Kind::Rook))
    );
}

#[test]
fn move_from_empty_square_is_rejected() {
    let rook = piece(0, 0, true, Kind::Rook);
    let mut board = board(vec![rook]);
    let outcome = board.move_piece(square("b2"), square("b4"));
    assert_eq!(outcome, Err(MoveError::NoPieceAtSource));
    assert_eq!(board.pieces.len(), 1);
    assert_eq!(board.get_piece(square("a1")).copied(), Some(rook));
}

#[test]
fn promotion_changes_kind_and_keeps_color_and_square() {
    let pawn = piece(4, 6, true, Kind::Pawn);
    let mut board = board(vec![pawn]);
    assert_eq!(board.move_piece(square("e7"), square("e8")), Ok(()));
    board.promote(square("e8"), Kind::Queen);
    assert_eq!(
        board.get_piece(square("e8")).copied(),
        Some(piece(4, 7, true, Kind::Queen))
    );
}

#[test]
fn promotion_leaves_other_pieces_alone() {
    let pawn = piece(0, 7, true, Kind::Pawn);
    let rook = piece(3, 3, false, Kind::Rook);
    let mut board = board(vec![pawn, rook]);
    board.promote(square("a8"), Kind::Knight);
    assert_eq!(
        board.get_piece(square("a8")).copied(),
        Some(piece(0, 7, true, Kind::Knight))
    );
    assert_eq!(board.get_piece(square("d4")).copied(), Some(rook));
}

#[test]
fn promotion_ignores_pieces_that_cannot_promote() {
    let pawn = piece(4, 4, true, Kind::Pawn);
    let rook = piece(0, 7, true, Kind::Rook);
    let mut board = board(vec![pawn, rook]);
    board.promote(square("e5"), Kind::Queen);
    board.promote(square("a8"), Kind::Queen);
    assert_eq!(board.get_piece(square("e5")).copied(), Some(pawn));
    assert_eq!(board.get_piece(square("a8")).copied(), Some(rook));
}

#[test]
fn black_pawn_promotes_on_rank_one() {
    let pawn = piece(6, 0, false, Kind::Pawn);
    let mut board = board(vec![pawn]);
    board.promote(square("g1"), Kind::Rook);
    assert_eq!(
        board.get_piece(square("g1")).copied(),
        Some(piece(6, 0, false, Kind::Rook))
    );
}

#[test]
fn rook_on_open_rank_gives_check() {
    let king = piece(4, 0, true, Kind::King);
    let rook = piece(0, 0, false, Kind::Rook);
    let board = board(vec![king, rook]);
    assert!(board.is_check(true));
    assert!(!board.is_check(false));
}

#[test]
fn interposed_pawn_blocks_the_check() {
    let king = piece(4, 0, true, Kind::King);
    let rook = piece(0, 0, false, Kind::Rook);
    let pawn = piece(2, 0, true, Kind::Pawn);
    let board = board(vec![king, rook, pawn]);
    assert!(!board.is_check(true));
}

#[test]
fn no_king_on_the_board_means_no_check() {
    let rook = piece(0, 0, false, Kind::Rook);
    let board = board(vec![rook]);
    assert!(!board.is_check(true));
}

#[test]
fn initial_position_has_no_check() {
    let board = Board { pieces: Vec::new() }.initialize();
    assert!(!board.is_check(true));
    assert!(!board.is_check(false));
}

#[test]
fn knight_check_is_detected() {
    let king = piece(4, 0, true, Kind::King);
    let knight = piece(5, 2, false, Kind::Knight);
    let board = board(vec![king, knight]);
    assert!(board.is_check(true));
}
