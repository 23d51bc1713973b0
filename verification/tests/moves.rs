use chess::piece::{get_index, get_piece, Kind, Piece};
use chess::position::Position;

fn piece(file: u8, rank: u8, white: bool, kind: Kind) -> Piece {
    Piece { position: Position(file, rank), white, piece: kind }
}

fn square(text: &str) -> Position {
    Position::from_algebraic(text).unwrap()
}

#[test]
fn pawn_single_and_double_step() {
    let pawn = piece(4, 1, true, Kind::Pawn);
    let pieces = vec![pawn];
    let moves = pawn.get_moves(&pieces);
    assert_eq!(moves.len(), 2);
    assert!(moves.contains(&square("e3")));
    assert!(moves.contains(&square("e4")));
}

#[test]
fn pawn_double_step_forfeited_after_moving() {
    let pawn = piece(4, 2, true, Kind::Pawn);
    let pieces = vec![pawn];
    let moves = pawn.get_moves(&pieces);
    assert_eq!(moves.len(), 1);
    assert!(moves.contains(&square("e4")));
}

#[test]
fn pawn_blocked_generates_nothing_forward() {
    let pawn = piece(4, 1, true, Kind::Pawn);
    let blocker = piece(4, 2, false, Kind::Rook);
    let pieces = vec![pawn, blocker];
    let moves = pawn.get_moves(&pieces);
    assert!(moves.is_empty());
}

#[test]
fn pawn_double_step_blocked_on_far_square() {
    let pawn = piece(4, 1, true, Kind::Pawn);
    let blocker = piece(4, 3, false, Kind::Rook);
    let pieces = vec![pawn, blocker];
    let moves = pawn.get_moves(&pieces);
    assert_eq!(moves.len(), 1);
    assert!(moves.contains(&square("e3")));
}

#[test]
fn pawn_captures_only_opposing_pieces() {
    let pawn = piece(4, 3, true, Kind::Pawn);
    let enemy = piece(3, 4, false, Kind::Knight);
    let friend = piece(5, 4, true, Kind::Bishop);
    let pieces = vec![pawn, enemy, friend];
    let moves = pawn.get_moves(&pieces);
    assert_eq!(moves.len(), 2);
    assert!(moves.contains(&square("e5")));
    assert!(moves.contains(&square("d5")));
    assert!(!moves.contains(&square("f5")));
}

#[test]
fn pawn_on_file_a_has_one_capture_square() {
    let pawn = piece(0, 3, true, Kind::Pawn);
    let enemy = piece(1, 4, false, Kind::Pawn);
    let blocker = piece(0, 4, false, Kind::Pawn);
    let pieces = vec![pawn, enemy, blocker];
    let moves = pawn.get_moves(&pieces);
    assert_eq!(moves.len(), 1);
    assert!(moves.contains(&square("b5")));
}

#[test]
fn black_pawn_moves_down_the_ranks() {
    let pawn = piece(4, 6, false, Kind::Pawn);
    let pieces = vec![pawn];
    let moves = pawn.get_moves(&pieces);
    assert_eq!(moves.len(), 2);
    assert!(moves.contains(&square("e6")));
    assert!(moves.contains(&square("e5")));
}

#[test]
fn knight_in_the_middle_has_eight_moves() {
    let knight = piece(3, 3, true, Kind::Knight);
    let pieces = vec![knight];
    let moves = knight.get_moves(&pieces);
    assert_eq!(moves.len(), 8);
    for text in ["b3", "b5", "c2", "c6", "e2", "e6", "f3", "f5"] {
        assert!(moves.contains(&square(text)));
    }
}

#[test]
fn knight_in_the_corner_has_two_moves() {
    let knight = piece(0, 0, true, Kind::Knight);
    let pieces = vec![knight];
    let moves = knight.get_moves(&pieces);
    assert_eq!(moves.len(), 2);
    assert!(moves.contains(&square("b3")));
    assert!(moves.contains(&square("c2")));
}

#[test]
fn knight_jumps_over_blockers_but_not_onto_friends() {
    let knight = piece(0, 0, true, Kind::Knight);
    let friend = piece(1, 2, true, Kind::Pawn);
    let wall = piece(0, 1, false, Kind::Pawn);
    let pieces = vec![knight, friend, wall];
    let moves = knight.get_moves(&pieces);
    assert_eq!(moves.len(), 1);
    assert!(moves.contains(&square("c2")));
}

#[test]
fn king_on_the_edge_has_five_moves() {
    let king = piece(0, 3, true, Kind::King);
    let pieces = vec![king];
    let moves = king.get_moves(&pieces);
    assert_eq!(moves.len(), 5);
    for text in ["a3", "a5", "b3", "b4", "b5"] {
        assert!(moves.contains(&square(text)));
    }
}

#[test]
fn bishop_ray_stops_on_opposing_piece_inclusively() {
    let bishop = piece(2, 2, true, Kind::Bishop);
    let enemy = piece(5, 5, false, Kind::Pawn);
    let pieces = vec![bishop, enemy];
    let moves = bishop.get_moves(&pieces);
    assert!(moves.contains(&square("d4")));
    assert!(moves.contains(&square("e5")));
    assert!(moves.contains(&square("f6")));
    assert!(!moves.contains(&square("g7")));
    assert!(!moves.contains(&square("h8")));
}

#[test]
fn bishop_ray_stops_before_own_piece() {
    let bishop = piece(2, 2, true, Kind::Bishop);
    let friend = piece(5, 5, true, Kind::Pawn);
    let pieces = vec![bishop, friend];
    let moves = bishop.get_moves(&pieces);
    assert!(moves.contains(&square("d4")));
    assert!(moves.contains(&square("e5")));
    assert!(!moves.contains(&square("f6")));
    assert!(!moves.contains(&square("g7")));
}

#[test]
fn lone_bishop_covers_both_diagonals() {
    let bishop = piece(3, 3, true, Kind::Bishop);
    let pieces = vec![bishop];
    let moves = bishop.get_moves(&pieces);
    assert_eq!(moves.len(), 13);
    for text in ["a1", "b2", "c3", "e5", "f6", "g7", "h8", "a7", "b6", "c5", "e3", "f2", "g1"] {
        assert!(moves.contains(&square(text)));
    }
}

#[test]
fn rook_ray_walk_with_blockers() {
    let rook = piece(0, 0, true, Kind::Rook);
    let friend = piece(0, 5, true, Kind::Pawn);
    let enemy = piece(3, 0, false, Kind::Pawn);
    let pieces = vec![rook, friend, enemy];
    let moves = rook.get_moves(&pieces);
    assert_eq!(moves.len(), 7);
    for text in ["a2", "a3", "a4", "a5", "b1", "c1", "d1"] {
        assert!(moves.contains(&square(text)));
    }
    assert!(!moves.contains(&square("a6")));
    assert!(!moves.contains(&square("e1")));
}

#[test]
fn queen_moves_are_the_union_of_rook_and_bishop_rays() {
    let queen = piece(3, 3, true, Kind::Queen);
    let pieces = vec![queen];
    let moves = queen.get_moves(&pieces);
    assert_eq!(moves.len(), 27);
    for text in ["d1", "d8", "a4", "h4", "a1", "h8", "a7", "g1"] {
        assert!(moves.contains(&square(text)));
    }
}

#[test]
fn piece_promote_changes_only_promotable_pawns() {
    let mut pawn = piece(4, 7, true, Kind::Pawn);
    pawn.promote(Kind::Queen);
    assert_eq!(pawn, piece(4, 7, true, Kind::Queen));

    let mut knight = piece(4, 7, true, Kind::Knight);
    knight.promote(Kind::Queen);
    assert_eq!(knight, piece(4, 7, true, Kind::Knight));

    let mut mid_pawn = piece(4, 4, true, Kind::Pawn);
    mid_pawn.promote(Kind::Queen);
    assert_eq!(mid_pawn, piece(4, 4, true, Kind::Pawn));

    let mut black_pawn = piece(2, 0, false, Kind::Pawn);
    black_pawn.promote(Kind::Rook);
    assert_eq!(black_pawn, piece(2, 0, false, Kind::Rook));
}

#[test]
fn vector_lookup_finds_index_and_piece() {
    let first = piece(1, 1, true, Kind::Pawn);
    let second = piece(6, 6, false, Kind::Queen);
    let pieces = vec![first, second];
    assert_eq!(get_index(&pieces, square("g7")), Some(1));
    assert_eq!(get_index(&pieces, square("g8")), None);
    assert_eq!(get_piece(&pieces, square("b2")).copied(), Some(first));
    assert!(get_piece(&pieces, square("a1")).is_none());
}

#[test]
fn pawn_on_its_last_rank_generates_nothing() {
    let white_pawn = piece(4, 7, true, Kind::Pawn);
    let black_pawn = piece(3, 0, false, Kind::Pawn);
    let pieces = vec![white_pawn, black_pawn];
    assert!(white_pawn.get_moves(&pieces).is_empty());
    assert!(black_pawn.get_moves(&pieces).is_empty());
}

#[test]
fn king_in_the_corner_has_three_moves() {
    let king = piece(0, 0, true, Kind::King);
    let pieces = vec![king];
    let moves = king.get_moves(&pieces);
    assert_eq!(moves.len(), 3);
    for text in ["a2", "b1", "b2"] {
        assert!(moves.contains(&square(text)));
    }
}
