use chessviz2::legality::{check, check_king_adjacency, LegalityViolation};
use chessviz2::position::{CastlingRights, Color, Piece, Position, Role};

fn rights(wk: bool, wq: bool, bk: bool, bq: bool) -> CastlingRights {
    CastlingRights { white_kingside: wk, white_queenside: wq, black_kingside: bk, black_queenside: bq }
}

fn position(pieces: &[(u8, Color, Role)], turn: Color, castling: CastlingRights, ep: Option<u8>) -> Position {
    let mut board = vec![None; 64];
    for &(sq, color, role) in pieces {
        board[sq as usize] = Some(Piece { color, role });
    }
    Position { board, turn, castling, ep_square: ep }
}

fn start() -> Position {
    let back = [Role::Rook, Role::Knight, Role::Bishop, Role::Queen, Role::King, Role::Bishop, Role::Knight, Role::Rook];
    let mut pieces = Vec::new();
    for f in 0..8u8 {
        pieces.push((f, Color::White, back[f as usize]));
        pieces.push((8 + f, Color::White, Role::Pawn));
        pieces.push((48 + f, Color::Black, Role::Pawn));
        pieces.push((56 + f, Color::Black, back[f as usize]));
    }
    position(&pieces, Color::White, rights(true, true, true, true), None)
}

const E1: u8 = 4;
const E8: u8 = 60;

#[test]
fn starting_position_is_legal() {
    assert_eq!(check(&start()), Ok(()));
    assert_eq!(check_king_adjacency(&start()), Ok(()));
}

#[test]
fn adjacent_kings_are_rejected() {
    // e4 and e5.
    let pos = position(&[(28, Color::White, Role::King), (36, Color::Black, Role::King)], Color::White, rights(false, false, false, false), None);
    assert_eq!(check_king_adjacency(&pos), Err(LegalityViolation::KingAdjacency));
    assert_eq!(check(&pos), Err(LegalityViolation::KingAdjacency));
    // Diagonal neighbours too, but not across the board edge (h4 and a5).
    let diag = position(&[(28, Color::White, Role::King), (37, Color::Black, Role::King)], Color::White, rights(false, false, false, false), None);
    assert_eq!(check_king_adjacency(&diag), Err(LegalityViolation::KingAdjacency));
    let wrap = position(&[(31, Color::White, Role::King), (32, Color::Black, Role::King)], Color::White, rights(false, false, false, false), None);
    assert_eq!(check_king_adjacency(&wrap), Ok(()));
}

#[test]
fn side_not_to_move_in_check_is_rejected() {
    // White rook on e1 checks the black king on e8; white king on a1.
    let pieces = [(0, Color::White, Role::King), (E1, Color::White, Role::Rook), (E8, Color::Black, Role::King)];
    let white_to_move = position(&pieces, Color::White, rights(false, false, false, false), None);
    assert_eq!(check(&white_to_move), Err(LegalityViolation::NonMoverInCheck));
    // The side to move may be in check.
    let black_to_move = position(&pieces, Color::Black, rights(false, false, false, false), None);
    assert_eq!(check(&black_to_move), Ok(()));
    // A blocker on the file lifts the check.
    let mut blocked = pieces.to_vec();
    blocked.push((36, Color::Black, Role::Pawn));
    let pos = position(&blocked, Color::White, rights(false, false, false, false), None);
    assert_eq!(check(&pos), Ok(()));
}

#[test]
fn castling_rights_need_king_and_rook_at_home() {
    let mut pos = start();
    pos.board[7] = None; // white h1 rook gone
    assert_eq!(check(&pos), Err(LegalityViolation::CastlingInconsistency));
    pos.castling.white_kingside = false;
    assert_eq!(check(&pos), Ok(()));
    let mut pos = start();
    pos.board[E8 as usize] = None;
    pos.board[E8 as usize - 1] = Some(Piece { color: Color::Black, role: Role::King });
    assert_eq!(check(&pos), Err(LegalityViolation::CastlingInconsistency));
}

#[test]
fn en_passant_requires_an_available_capture() {
    // Black just played d7-d5; white pawn on e5 can capture onto d6.
    let base = [
        (E1, Color::White, Role::King),
        (E8, Color::Black, Role::King),
        (35, Color::Black, Role::Pawn),
        (36, Color::White, Role::Pawn),
    ];
    let pos = position(&base, Color::White, rights(false, false, false, false), Some(43));
    assert_eq!(check(&pos), Ok(()));
    // No white pawn beside the double-stepped pawn: not available.
    let lonely = position(&base[..3], Color::White, rights(false, false, false, false), Some(43));
    assert_eq!(check(&lonely), Err(LegalityViolation::EpInconsistency));
    // Wrong rank for the side to move.
    let wrong = position(&base, Color::Black, rights(false, false, false, false), Some(43));
    assert_eq!(check(&wrong), Err(LegalityViolation::EpInconsistency));
}

#[test]
fn en_passant_that_exposes_the_king_is_not_available() {
    // White king a5, black rook h5: capturing d5 from e5 clears the rank.
    let pieces = [
        (32, Color::White, Role::King),
        (39, Color::Black, Role::Rook),
        (E8, Color::Black, Role::King),
        (35, Color::Black, Role::Pawn),
        (36, Color::White, Role::Pawn),
    ];
    let pos = position(&pieces, Color::White, rights(false, false, false, false), Some(43));
    assert_eq!(check(&pos), Err(LegalityViolation::EpInconsistency));
}

#[test]
fn black_en_passant() {
    // White just played e2-e4; black pawn on d4 can capture onto e3.
    let pieces = [
        (E1, Color::White, Role::King),
        (E8, Color::Black, Role::King),
        (28, Color::White, Role::Pawn),
        (27, Color::Black, Role::Pawn),
    ];
    let pos = position(&pieces, Color::Black, rights(false, false, false, false), Some(20));
    assert_eq!(check(&pos), Ok(()));
    // The origin square e2 must be empty.
    let mut blocked = pieces.to_vec();
    blocked.push((12, Color::White, Role::Knight));
    let pos = position(&blocked, Color::Black, rights(false, false, false, false), Some(20));
    assert_eq!(check(&pos), Err(LegalityViolation::EpInconsistency));
}

#[test]
fn attacks_follow_each_piece_geometry() {
    let none = rights(false, false, false, false);
    // A knight on f6 checks the king on e8; one on f5 does not.
    let kn = position(&[(0, Color::White, Role::King), (45, Color::White, Role::Knight), (E8, Color::Black, Role::King)], Color::White, none, None);
    assert_eq!(check(&kn), Err(LegalityViolation::NonMoverInCheck));
    let kn_far = position(&[(0, Color::White, Role::King), (37, Color::White, Role::Knight), (E8, Color::Black, Role::King)], Color::White, none, None);
    assert_eq!(check(&kn_far), Ok(()));
    // A bishop on a4 checks e8 along the diagonal until a piece on c6 blocks it.
    let bi = position(&[(0, Color::White, Role::King), (24, Color::White, Role::Bishop), (E8, Color::Black, Role::King)], Color::White, none, None);
    assert_eq!(check(&bi), Err(LegalityViolation::NonMoverInCheck));
    let bi_blocked = position(&[(0, Color::White, Role::King), (24, Color::White, Role::Bishop), (42, Color::Black, Role::Knight), (E8, Color::Black, Role::King)], Color::White, none, None);
    assert_eq!(check(&bi_blocked), Ok(()));
    // A white pawn on d7 attacks e8; a black pawn on d7 attacks only downward.
    let wp = position(&[(0, Color::White, Role::King), (51, Color::White, Role::Pawn), (E8, Color::Black, Role::King)], Color::White, none, None);
    assert_eq!(check(&wp), Err(LegalityViolation::NonMoverInCheck));
    let bp = position(&[(0, Color::White, Role::King), (51, Color::Black, Role::Pawn), (E8, Color::Black, Role::King)], Color::White, none, None);
    assert_eq!(check(&bp), Ok(()));
    // A rook on h1 does not wrap around the board edge onto a2, next to it in index order.
    let edge = position(&[(E1, Color::White, Role::King), (7, Color::White, Role::Rook), (8, Color::Black, Role::King)], Color::White, none, None);
    assert_eq!(check(&edge), Ok(()));
    // A queen on h5 checks e8 along the diagonal h5-e8.
    let q = position(&[(0, Color::White, Role::King), (39, Color::White, Role::Queen), (E8, Color::Black, Role::King)], Color::White, none, None);
    assert_eq!(check(&q), Err(LegalityViolation::NonMoverInCheck));
}
