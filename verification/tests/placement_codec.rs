use chessviz2::placement::{rank, roundtrip_check, unrank, PlacementContext};
use chessviz2::position::{CastlingRights, Color, Piece, Position, Role};

fn no_castling() -> CastlingRights {
    CastlingRights { white_kingside: false, white_queenside: false, black_kingside: false, black_queenside: false }
}

fn position(pieces: &[(u8, Color, Role)]) -> Position {
    let mut board = vec![None; 64];
    for &(sq, color, role) in pieces {
        board[sq as usize] = Some(Piece { color, role });
    }
    Position { board, turn: Color::White, castling: no_castling(), ep_square: None }
}

fn kings_only() -> PlacementContext {
    PlacementContext { piece_counts: [1, 1, 0, 0, 0, 0, 0, 0, 0, 0], pawn_squares: 0 }
}

#[test]
fn kings_rank_is_mixed_radix_of_colex_ranks() {
    // WK on e1 = index 4 of 64 free squares; BK on e8 = index 59 of the 63 left.
    let pos = position(&[(4, Color::White, Role::King), (60, Color::Black, Role::King)]);
    let ctx = kings_only();
    assert_eq!(rank(&pos, &ctx), 4 * 63 + 59);
    assert_eq!(
        unrank(311, &ctx),
        vec![(4, Color::White, Role::King), (60, Color::Black, Role::King)]
    );
    assert!(roundtrip_check(&pos, &ctx));
}

#[test]
fn address_zero_is_first_free_squares() {
    let ctx = kings_only();
    assert_eq!(unrank(0, &ctx), vec![(0, Color::White, Role::King), (1, Color::Black, Role::King)]);
    // The last address puts both kings on the highest squares.
    assert_eq!(unrank(64 * 63 - 1, &ctx), vec![(63, Color::White, Role::King), (62, Color::Black, Role::King)]);
}

#[test]
fn identical_pieces_ranked_as_subset() {
    // Two white rooks on a1 and h1, with the kings on e1 and e8.
    let pos = position(&[
        (4, Color::White, Role::King),
        (60, Color::Black, Role::King),
        (0, Color::White, Role::Rook),
        (7, Color::White, Role::Rook),
    ]);
    let ctx = PlacementContext { piece_counts: [1, 1, 0, 0, 2, 0, 0, 0, 0, 0], pawn_squares: 0 };
    // Free squares after kings: 62 of them; a1 is index 0, h1 is index 6.
    // rank = (4 * 63 + 59) * C(62, 2) + (C(0,1) + C(6,2)).
    let expected = (4u64 * 63 + 59) * (62 * 61 / 2) + 15;
    assert_eq!(rank(&pos, &ctx), expected);
    assert!(roundtrip_check(&pos, &ctx));
    let decoded = unrank(expected, &ctx);
    assert_eq!(decoded.len(), 4);
    assert_eq!(decoded[2], (0, Color::White, Role::Rook));
    assert_eq!(decoded[3], (7, Color::White, Role::Rook));
}

#[test]
fn pawn_squares_are_skipped() {
    // Pawns on the whole second rank: the white king on e1 keeps index 4, the
    // black king on e8 has index 60 - 8 - 1 = 51 among the remaining squares.
    let pos = position(&[(4, Color::White, Role::King), (60, Color::Black, Role::King)]);
    let ctx = PlacementContext { piece_counts: [1, 1, 0, 0, 0, 0, 0, 0, 0, 0], pawn_squares: 0xff00 };
    assert_eq!(rank(&pos, &ctx), 4 * 55 + 51);
    assert!(roundtrip_check(&pos, &ctx));
}

#[test]
fn mismatched_context_fails_roundtrip() {
    let pos = position(&[(4, Color::White, Role::King), (60, Color::Black, Role::King)]);
    let ctx = PlacementContext { piece_counts: [1, 1, 1, 0, 0, 0, 0, 0, 0, 0], pawn_squares: 0 };
    assert!(!roundtrip_check(&pos, &ctx));
    // A king standing on a pawn square is not on the free-square set.
    let ctx = PlacementContext { piece_counts: [1, 1, 0, 0, 0, 0, 0, 0, 0, 0], pawn_squares: 1 << 4 };
    assert!(!roundtrip_check(&pos, &ctx));
}

#[test]
fn full_material_address_space_exceeds_u64() {
    let mut pieces = vec![
        (4, Color::White, Role::King),
        (60, Color::Black, Role::King),
        (3, Color::White, Role::Queen),
        (59, Color::Black, Role::Queen),
        (0, Color::White, Role::Rook),
        (7, Color::White, Role::Rook),
        (56, Color::Black, Role::Rook),
        (63, Color::Black, Role::Rook),
        (2, Color::White, Role::Bishop),
        (5, Color::White, Role::Bishop),
        (58, Color::Black, Role::Bishop),
        (61, Color::Black, Role::Bishop),
        (1, Color::White, Role::Knight),
        (6, Color::White, Role::Knight),
        (57, Color::Black, Role::Knight),
        (62, Color::Black, Role::Knight),
    ];
    for f in 0..8u8 {
        pieces.push((8 + f, Color::White, Role::Pawn));
        pieces.push((48 + f, Color::Black, Role::Pawn));
    }
    let pos = position(&pieces);
    let ctx = PlacementContext { piece_counts: [1, 1, 1, 1, 2, 2, 2, 2, 2, 2], pawn_squares: 0x00ff_0000_0000_ff00 };
    assert!(!roundtrip_check(&pos, &ctx));
    // Without the queens and minor pieces the addresses fit.
    let small: Vec<_> = pieces
        .iter()
        .copied()
        .filter(|p| matches!(p.2, Role::King | Role::Rook | Role::Pawn))
        .collect();
    let pos = position(&small);
    let ctx = PlacementContext { piece_counts: [1, 1, 0, 0, 2, 2, 0, 0, 0, 0], pawn_squares: 0x00ff_0000_0000_ff00 };
    assert!(roundtrip_check(&pos, &ctx));
}

#[test]
fn every_address_decodes_and_reencodes() {
    // 60 pawn squares leave a1, b1, c1, h8 free: 4 * 3 * C(2, 1) = 24 addresses.
    let pawns: u64 = !((1u64 << 0) | (1u64 << 1) | (1u64 << 2) | (1u64 << 63));
    let ctx = PlacementContext { piece_counts: [1, 1, 0, 0, 0, 0, 0, 0, 1, 0], pawn_squares: pawns };
    let mut seen = std::collections::HashSet::new();
    for a in 0..24u64 {
        let placement = unrank(a, &ctx);
        assert_eq!(placement.len(), 3);
        let pos = position(&placement);
        assert!(roundtrip_check(&pos, &ctx));
        assert_eq!(rank(&pos, &ctx), a);
        let squares: Vec<u8> = placement.iter().map(|p| p.0).collect();
        assert!(seen.insert(squares));
    }
}

#[test]
fn equal_placements_have_equal_addresses() {
    // The same pieces listed in another order make the same position.
    let a = position(&[(4, Color::White, Role::King), (60, Color::Black, Role::King), (1, Color::White, Role::Knight), (6, Color::White, Role::Knight)]);
    let b = position(&[(6, Color::White, Role::Knight), (60, Color::Black, Role::King), (1, Color::White, Role::Knight), (4, Color::White, Role::King)]);
    let ctx = PlacementContext { piece_counts: [1, 1, 0, 0, 0, 0, 0, 0, 2, 0], pawn_squares: 0 };
    assert_eq!(rank(&a, &ctx), rank(&b, &ctx));
    // Moving one knight changes the address.
    let c = position(&[(4, Color::White, Role::King), (60, Color::Black, Role::King), (1, Color::White, Role::Knight), (7, Color::White, Role::Knight)]);
    assert_ne!(rank(&a, &ctx), rank(&c, &ctx));
}

#[test]
fn context_read_off_the_position_roundtrips() {
    // Kings, a white rook and a black bishop among pawns on d4 and e5.
    let pieces = [
        (6, Color::White, Role::King),
        (62, Color::Black, Role::King),
        (0, Color::White, Role::Rook),
        (45, Color::Black, Role::Bishop),
        (27, Color::White, Role::Pawn),
        (36, Color::Black, Role::Pawn),
    ];
    let pos = position(&pieces);
    let ctx = PlacementContext { piece_counts: [1, 1, 0, 0, 1, 0, 0, 1, 0, 0], pawn_squares: (1u64 << 27) | (1u64 << 36) };
    assert!(roundtrip_check(&pos, &ctx));
    let mut decoded = unrank(rank(&pos, &ctx), &ctx);
    decoded.sort_by_key(|p| p.0);
    let mut expected: Vec<(u8, Color, Role)> = pieces.iter().copied().filter(|p| p.2 != Role::Pawn).collect();
    expected.sort_by_key(|p| p.0);
    assert_eq!(decoded, expected);
}
