use vstd::prelude::*;

use crate::placement::has_bit;
use crate::position::other;
use crate::position::other_color;
use crate::position::Color;
use crate::position::Piece;
use crate::position::Position;
use crate::position::Role;

verus! {

/// A specific legality violation found in a position.
#[derive(Debug, Clone, Copy, PartialEq, Eq, Structural)]
pub enum LegalityViolation {
    /// The two kings are on adjacent squares.
    KingAdjacency,
    /// The side NOT to move is in check (the prior move would have been illegal).
    NonMoverInCheck,
    /// A castling right is asserted but the relevant king or rook is not on
    /// its starting square.
    CastlingInconsistency,
    /// En passant is marked available but no pawn of the side to move can
    /// actually perform the capture.
    EpInconsistency,
}

// ── Attacks ──────────────────────────────────────────────────────────────────

pub open spec fn file_of(s: int) -> int {
    s % 8
}

pub open spec fn rank_of(s: int) -> int {
    s / 8
}

pub open spec fn distance(a: int, b: int) -> int {
    if a >= b { a - b } else { b - a }
}

/// `a` and `b` lie on one line of the given kind: 0 a file, 1 a rank, 2 a
/// diagonal, 3 an anti-diagonal.
pub open spec fn on_line(a: int, b: int, kind: int) -> bool {
    if kind == 0 {
        file_of(a) == file_of(b)
    } else if kind == 1 {
        rank_of(a) == rank_of(b)
    } else if kind == 2 {
        rank_of(a) - file_of(a) == rank_of(b) - file_of(b)
    } else {
        rank_of(a) + file_of(a) == rank_of(b) + file_of(b)
    }
}

/// A slider on `s` reaches `t` along a line of the given kind: no occupied
/// square stands strictly between them (`t` itself may be occupied).
pub open spec fn slides_to(s: int, t: int, occupied: u64, kind: int) -> bool {
    &&& s != t
    &&& on_line(s, t, kind)
    &&& forall|u: int| 0 <= u < 64 && on_line(s, u, kind) && (s < u < t || t < u < s) ==> !#[trigger] has_bit(occupied, u)
}

/// `piece` standing on `s` attacks `t` when `occupied` is the bitboard of
/// occupied squares: a pawn the two squares diagonally ahead of it, a knight
/// and a king their steps, a rook, bishop or queen each square along its
/// lines up to and including the first occupied one.
pub open spec fn attacks_square(s: int, piece: Piece, occupied: u64, t: int) -> bool {
    let df = distance(file_of(s), file_of(t));
    let dr = distance(rank_of(s), rank_of(t));
    match piece.role {
        Role::Pawn => df == 1 && match piece.color {
            Color::White => rank_of(t) == rank_of(s) + 1,
            Color::Black => rank_of(t) == rank_of(s) - 1,
        },
        Role::Knight => (df == 1 && dr == 2) || (df == 2 && dr == 1),
        Role::King => s != t && df <= 1 && dr <= 1,
        Role::Rook => slides_to(s, t, occupied, 0) || slides_to(s, t, occupied, 1),
        Role::Bishop => slides_to(s, t, occupied, 2) || slides_to(s, t, occupied, 3),
        Role::Queen => slides_to(s, t, occupied, 0) || slides_to(s, t, occupied, 1)
            || slides_to(s, t, occupied, 2) || slides_to(s, t, occupied, 3),
    }
}

/// `shakmaty::attacks::attacks`: the attack bitboard of a piece on a square
/// given the occupancy. Its contract claims that bit `t` is set exactly when
/// the piece attacks `t` by the rules of chess (`attacks_square`): shakmaty
/// builds its pawn, knight and king tables from the step deltas and its
/// slider tables by walking each ray up to the first occupied square
/// (`bootstrap.rs`). `Square::new` panics on a square above 63, so that is
/// excluded.
#[verifier::external_body]
fn piece_attacks(sq: u8, piece: Piece, occupied: u64) -> (a: u64)
    requires
        sq < 64,
    ensures
        forall|t: int| 0 <= t < 64 ==> (#[trigger] has_bit(a, t) <==> attacks_square(sq as int, piece, occupied, t)),
{
    let color = match piece.color {
        Color::White => shakmaty::Color::White,
        Color::Black => shakmaty::Color::Black,
    };
    let role = match piece.role {
        Role::Pawn => shakmaty::Role::Pawn,
        Role::Knight => shakmaty::Role::Knight,
        Role::Bishop => shakmaty::Role::Bishop,
        Role::Rook => shakmaty::Role::Rook,
        Role::Queen => shakmaty::Role::Queen,
        Role::King => shakmaty::Role::King,
    };
    let target = shakmaty::Square::new(sq as u32);
    shakmaty::attacks::attacks(target, shakmaty::Piece { color, role }, shakmaty::Bitboard(occupied)).0
}

/// Occupancy bitboard of the first `n` squares of `board`.
pub open spec fn occupancy_upto(board: Seq<Option<Piece>>, n: int) -> u64
    decreases n,
{
    if n <= 0 {
        0
    } else {
        let o = occupancy_upto(board, n - 1);
        if board[n - 1] is Some { o | (1u64 << ((n - 1) as u64)) } else { o }
    }
}

/// Occupancy bitboard of the board.
pub open spec fn occupancy(board: Seq<Option<Piece>>) -> u64 {
    occupancy_upto(board, 64)
}

/// The piece on square `s`, of color `by`, attacks square `t`.
pub open spec fn attacks_from(board: Seq<Option<Piece>>, s: int, t: int, by: Color) -> bool {
    match board[s] {
        Some(p) => p.color == by && attacks_square(s, p, occupancy(board), t),
        None => false,
    }
}

/// Square `t` is attacked by some piece of color `by`.
pub open spec fn attacked(board: Seq<Option<Piece>>, t: int, by: Color) -> bool {
    exists|s: int| 0 <= s < 64 && #[trigger] attacks_from(board, s, t, by)
}

/// Some king of color `c` stands on an attacked square.
pub open spec fn in_check(board: Seq<Option<Piece>>, c: Color) -> bool {
    exists|k: int| 0 <= k < 64 && #[trigger] board[k] == Some(Piece { color: c, role: Role::King }) && attacked(board, k, other(c))
}

/// Distinct squares at king distance one.
pub open spec fn adjacent(a: int, b: int) -> bool {
    a != b && -1 <= a % 8 - b % 8 <= 1 && -1 <= a / 8 - b / 8 <= 1
}

/// A white king and a black king stand on adjacent squares.
pub open spec fn kings_adjacent(board: Seq<Option<Piece>>) -> bool {
    exists|a: int, b: int| 0 <= a < 64 && 0 <= b < 64
        && #[trigger] board[a] == Some(Piece { color: Color::White, role: Role::King })
        && #[trigger] board[b] == Some(Piece { color: Color::Black, role: Role::King })
        && adjacent(a, b)
}

/// Every asserted castling right has its king and rook on their starting squares.
pub open spec fn castling_consistent(pos: &Position) -> bool {
    let b = pos.board@;
    let wk = Some(Piece { color: Color::White, role: Role::King });
    let wr = Some(Piece { color: Color::White, role: Role::Rook });
    let bk = Some(Piece { color: Color::Black, role: Role::King });
    let br = Some(Piece { color: Color::Black, role: Role::Rook });
    &&& pos.castling.white_kingside ==> b[4] == wk && b[7] == wr
    &&& pos.castling.white_queenside ==> b[4] == wk && b[0] == wr
    &&& pos.castling.black_kingside ==> b[60] == bk && b[63] == br
    &&& pos.castling.black_queenside ==> b[60] == bk && b[56] == br
}

/// The board after the pawn on `from` captures en passant onto `to`, removing
/// the pawn on `captured`.
pub open spec fn after_ep(board: Seq<Option<Piece>>, from: int, to: int, captured: int) -> Seq<Option<Piece>> {
    board.update(from, None).update(captured, None).update(to, board[from])
}

/// The pawn of the side to move on `from` can capture en passant onto `t`,
/// taking the pawn on `captured`, without leaving its own king in check.
pub open spec fn ep_capture_from(board: Seq<Option<Piece>>, turn: Color, from: int, t: int, captured: int) -> bool {
    &&& board[from] == Some(Piece { color: turn, role: Role::Pawn })
    &&& !in_check(after_ep(board, from, t, captured), turn)
}

/// En passant onto `t` is available to the side to move: `t` is on the sixth
/// rank from the mover's side, the opposing pawn stands just past it, `t` and
/// the square the pawn came from are empty (a double step was just played),
/// and a pawn of the mover beside the opposing pawn can legally capture it.
pub open spec fn ep_available(board: Seq<Option<Piece>>, turn: Color, t: int) -> bool {
    let file = t % 8;
    match turn {
        Color::White => {
            &&& 40 <= t < 48
            &&& board[t] is None
            &&& board[t + 8] is None
            &&& board[t - 8] == Some(Piece { color: Color::Black, role: Role::Pawn })
            &&& (file > 0 && ep_capture_from(board, turn, t - 9, t, t - 8)) || (file < 7 && ep_capture_from(board, turn, t - 7, t, t - 8))
        },
        Color::Black => {
            &&& 16 <= t < 24
            &&& board[t] is None
            &&& board[t - 8] is None
            &&& board[t + 8] == Some(Piece { color: Color::White, role: Role::Pawn })
            &&& (file > 0 && ep_capture_from(board, turn, t + 7, t, t + 8)) || (file < 7 && ep_capture_from(board, turn, t + 9, t, t + 8))
        },
    }
}

pub open spec fn ep_consistent(pos: &Position) -> bool {
    match pos.ep_square {
        None => true,
        Some(t) => ep_available(pos.board@, pos.turn, t as int),
    }
}

/// What `check` answers: the first violation in the order king adjacency,
/// non-mover in check, castling, en passant.
pub open spec fn check_spec(pos: &Position) -> Result<(), LegalityViolation> {
    if kings_adjacent(pos.board@) {
        Err(LegalityViolation::KingAdjacency)
    } else if in_check(pos.board@, other(pos.turn)) {
        Err(LegalityViolation::NonMoverInCheck)
    } else if !castling_consistent(pos) {
        Err(LegalityViolation::CastlingInconsistency)
    } else if !ep_consistent(pos) {
        Err(LegalityViolation::EpInconsistency)
    } else {
        Ok(())
    }
}

fn is_piece(sq: Option<Piece>, color: Color, role: Role) -> (r: bool)
    ensures
        r == (sq == Some(Piece { color, role })),
{
    match sq {
        Some(p) => p.color == color && p.role == role,
        None => false,
    }
}

fn occupancy_exec(board: &Vec<Option<Piece>>) -> (o: u64)
    requires
        board.len() == 64,
    ensures
        o == occupancy(board@),
{
    let mut o: u64 = 0;
    let mut s: u64 = 0;
    while s < 64
        invariant
            s <= 64,
            board.len() == 64,
            o == occupancy_upto(board@, s as int),
        decreases 64 - s,
    {
        if board[s as usize].is_some() {
            o = o | (1u64 << s);
        }
        s = s + 1;
    }
    o
}

/// Whether some piece of color `by` attacks square `t`.
fn attacked_exec(board: &Vec<Option<Piece>>, occ: u64, t: u8, by: Color) -> (r: bool)
    requires
        board.len() == 64,
        occ == occupancy(board@),
        t < 64,
    ensures
        r == attacked(board@, t as int, by),
{
    let mut s: u8 = 0;
    while s < 64
        invariant
            s <= 64,
            t < 64,
            board.len() == 64,
            occ == occupancy(board@),
            forall|s2: int| 0 <= s2 < s ==> !#[trigger] attacks_from(board@, s2, t as int, by),
        decreases 64 - s,
    {
        match board[s as usize] {
            Some(p) => {
                if p.color == by {
                    let a = piece_attacks(s, p, occ);
                    let hit = (a >> (t as u64)) & 1u64 == 1u64;
                    proof {
                        assert(hit == has_bit(a, t as int));
                    }
                    if hit {
                        proof {
                            assert(attacks_from(board@, s as int, t as int, by));
                        }
                        return true;
                    }
                }
            },
            None => {},
        }
        s = s + 1;
    }
    false
}

/// Whether some king of color `c` is attacked.
fn in_check_exec(board: &Vec<Option<Piece>>, c: Color) -> (r: bool)
    requires
        board.len() == 64,
    ensures
        r == in_check(board@, c),
{
    let occ = occupancy_exec(board);
    let them = other_color(c);
    let mut k: u8 = 0;
    while k < 64
        invariant
            k <= 64,
            board.len() == 64,
            occ == occupancy(board@),
            them == other(c),
            forall|k2: int| 0 <= k2 < k ==> !(#[trigger] board@[k2] == Some(Piece { color: c, role: Role::King })
                && attacked(board@, k2, other(c))),
        decreases 64 - k,
    {
        if is_piece(board[k as usize], c, Role::King) {
            if attacked_exec(board, occ, k, them) {
                return true;
            }
        }
        k = k + 1;
    }
    false
}

/// Check only king adjacency (fast pre-filter before full decode).
pub fn check_king_adjacency(pos: &Position) -> (r: Result<(), LegalityViolation>)
    requires
        pos.well_formed(),
    ensures
        r == if kings_adjacent(pos.board@) { Err(LegalityViolation::KingAdjacency) } else { Ok(()) },
{
    let board = &pos.board;
    let mut a: usize = 0;
    while a < 64
        invariant
            a <= 64,
            board.len() == 64,
            board@ == pos.board@,
            forall|a2: int, b2: int| 0 <= a2 < a && 0 <= b2 < 64 ==> !(
                #[trigger] board@[a2] == Some(Piece { color: Color::White, role: Role::King })
                && #[trigger] board@[b2] == Some(Piece { color: Color::Black, role: Role::King })
                && adjacent(a2, b2)),
        decreases 64 - a,
    {
        if is_piece(board[a], Color::White, Role::King) {
            let mut b: usize = 0;
            while b < 64
                invariant
                    a < 64,
                    b <= 64,
                    board.len() == 64,
                    board@ == pos.board@,
                    board@[a as int] == Some(Piece { color: Color::White, role: Role::King }),
                    forall|b2: int| 0 <= b2 < b ==> !(#[trigger] board@[b2] == Some(Piece { color: Color::Black, role: Role::King })
                        && adjacent(a as int, b2)),
                decreases 64 - b,
            {
                let fa = (a % 8) as i32;
                let ra = (a / 8) as i32;
                let fb = (b % 8) as i32;
                let rb = (b / 8) as i32;
                if a != b && fa - fb <= 1 && fb - fa <= 1 && ra - rb <= 1 && rb - ra <= 1 && is_piece(
                    board[b],
                    Color::Black,
                    Role::King,
                ) {
                    proof {
                        assert(adjacent(a as int, b as int));
                        assert(board@[b as int] == Some(Piece { color: Color::Black, role: Role::King }));
                        assert(kings_adjacent(pos.board@));
                    }
                    return Err(LegalityViolation::KingAdjacency);
                }
                b = b + 1;
            }
        }
        a = a + 1;
    }
    Ok(())
}

fn castling_consistent_exec(pos: &Position) -> (r: bool)
    requires
        pos.well_formed(),
    ensures
        r == castling_consistent(pos),
{
    let b = &pos.board;
    let white_king_home = is_piece(b[4], Color::White, Role::King);
    let black_king_home = is_piece(b[60], Color::Black, Role::King);
    (!pos.castling.white_kingside || (white_king_home && is_piece(b[7], Color::White, Role::Rook)))
        && (!pos.castling.white_queenside || (white_king_home && is_piece(b[0], Color::White, Role::Rook)))
        && (!pos.castling.black_kingside || (black_king_home && is_piece(b[63], Color::Black, Role::Rook)))
        && (!pos.castling.black_queenside || (black_king_home && is_piece(b[56], Color::Black, Role::Rook)))
}

fn ep_capture_from_exec(board: &Vec<Option<Piece>>, turn: Color, from: usize, t: usize, captured: usize) -> (r: bool)
    requires
        board.len() == 64,
        from < 64,
        t < 64,
        captured < 64,
    ensures
        r == ep_capture_from(board@, turn, from as int, t as int, captured as int),
{
    if !is_piece(board[from], turn, Role::Pawn) {
        return false;
    }
    let mut after = board.clone();
    let moving = board[from];
    after.set(from, None);
    after.set(captured, None);
    after.set(t, moving);
    proof {
        assert(after@ =~= after_ep(board@, from as int, t as int, captured as int));
    }
    !in_check_exec(&after, turn)
}

fn ep_consistent_exec(pos: &Position) -> (r: bool)
    requires
        pos.well_formed(),
    ensures
        r == ep_consistent(pos),
{
    let t = match pos.ep_square {
        None => {
            return true;
        },
        Some(t) => t as usize,
    };
    let b = &pos.board;
    let file = t % 8;
    match pos.turn {
        Color::White => {
            if !(40 <= t && t < 48) {
                return false;
            }
            if b[t].is_some() || b[t + 8].is_some() || !is_piece(b[t - 8], Color::Black, Role::Pawn) {
                return false;
            }
            (file > 0 && ep_capture_from_exec(b, Color::White, t - 9, t, t - 8)) || (file < 7
                && ep_capture_from_exec(b, Color::White, t - 7, t, t - 8))
        },
        Color::Black => {
            if !(16 <= t && t < 24) {
                return false;
            }
            if b[t].is_some() || b[t - 8].is_some() || !is_piece(b[t + 8], Color::White, Role::Pawn) {
                return false;
            }
            (file > 0 && ep_capture_from_exec(b, Color::Black, t + 7, t, t + 8)) || (file < 7
                && ep_capture_from_exec(b, Color::Black, t + 9, t, t + 8))
        },
    }
}

/// Check a position for all v0 legality conditions.
///
/// Returns `Ok(())` if legal, or the first violation found, in the order king
/// adjacency, non-mover in check, castling, en passant. The side to move may
/// be in check.
pub fn check(pos: &Position) -> (r: Result<(), LegalityViolation>)
    requires
        pos.well_formed(),
    ensures
        r == check_spec(pos),
{
    if check_king_adjacency(pos).is_err() {
        return Err(LegalityViolation::KingAdjacency);
    }
    if in_check_exec(&pos.board, other_color(pos.turn)) {
        return Err(LegalityViolation::NonMoverInCheck);
    }
    if !castling_consistent_exec(pos) {
        return Err(LegalityViolation::CastlingInconsistency);
    }
    if !ep_consistent_exec(pos) {
        return Err(LegalityViolation::EpInconsistency);
    }
    Ok(())
}


// ── Laws of the legality check ───────────────────────────────────────────────

/// Law (castling): a position that `check` accepts has, for each castling
/// right it asserts, the king and that right's rook on their starting
/// squares (e1 with h1 or a1, e8 with h8 or a8). When the kings stand apart
/// and the side not to move is not in check, a right whose king or rook is
/// missing is refused as a castling inconsistency.
pub proof fn lemma_check_castling(pos: &Position)
    ensures
        check_spec(pos) is Ok && pos.castling.white_kingside ==> pos.board@[4] == Some(Piece { color: Color::White, role: Role::King })
            && pos.board@[7] == Some(Piece { color: Color::White, role: Role::Rook }),
        check_spec(pos) is Ok && pos.castling.white_queenside ==> pos.board@[4] == Some(Piece { color: Color::White, role: Role::King })
            && pos.board@[0] == Some(Piece { color: Color::White, role: Role::Rook }),
        check_spec(pos) is Ok && pos.castling.black_kingside ==> pos.board@[60] == Some(Piece { color: Color::Black, role: Role::King })
            && pos.board@[63] == Some(Piece { color: Color::Black, role: Role::Rook }),
        check_spec(pos) is Ok && pos.castling.black_queenside ==> pos.board@[60] == Some(Piece { color: Color::Black, role: Role::King })
            && pos.board@[56] == Some(Piece { color: Color::Black, role: Role::Rook }),
        !kings_adjacent(pos.board@) && !in_check(pos.board@, other(pos.turn)) && (
            (pos.castling.white_kingside && (pos.board@[4] != Some(Piece { color: Color::White, role: Role::King })
                || pos.board@[7] != Some(Piece { color: Color::White, role: Role::Rook })))
            || (pos.castling.white_queenside && (pos.board@[4] != Some(Piece { color: Color::White, role: Role::King })
                || pos.board@[0] != Some(Piece { color: Color::White, role: Role::Rook })))
            || (pos.castling.black_kingside && (pos.board@[60] != Some(Piece { color: Color::Black, role: Role::King })
                || pos.board@[63] != Some(Piece { color: Color::Black, role: Role::Rook })))
            || (pos.castling.black_queenside && (pos.board@[60] != Some(Piece { color: Color::Black, role: Role::King })
                || pos.board@[56] != Some(Piece { color: Color::Black, role: Role::Rook }))))
            ==> check_spec(pos) == Err::<(), LegalityViolation>(LegalityViolation::CastlingInconsistency),
{
}

/// Law (kings apart): `check` refuses every position with a white and a
/// black king on squares at king distance one, and accepts none.
pub proof fn lemma_check_kings_apart(pos: &Position, a: int, b: int)
    requires
        0 <= a < 64,
        0 <= b < 64,
        pos.board@[a] == Some(Piece { color: Color::White, role: Role::King }),
        pos.board@[b] == Some(Piece { color: Color::Black, role: Role::King }),
        distance(file_of(a), file_of(b)) <= 1,
        distance(rank_of(a), rank_of(b)) <= 1,
    ensures
        check_spec(pos) == Err::<(), LegalityViolation>(LegalityViolation::KingAdjacency),
{
    assert(adjacent(a, b));
}

/// Law (no attacked king): in a position that `check` accepts, no piece of
/// the side to move attacks a king of the other side.
pub proof fn lemma_check_no_capturable_king(pos: &Position, s: int, k: int)
    requires
        0 <= s < 64,
        0 <= k < 64,
        check_spec(pos) is Ok,
        pos.board@[k] == Some(Piece { color: other(pos.turn), role: Role::King }),
        pos.board@[s] matches Some(p) && p.color == pos.turn,
    ensures
        !attacks_square(s, pos.board@[s]->0, occupancy(pos.board@), k),
{
    if attacks_square(s, pos.board@[s]->0, occupancy(pos.board@), k) {
        assert(other(other(pos.turn)) == pos.turn);
        assert(attacks_from(pos.board@, s, k, other(other(pos.turn))));
        assert(attacked(pos.board@, k, other(other(pos.turn))));
    }
}

/// Law (en passant): in a position that `check` accepts with an en-passant
/// square `t`, `t` is empty on the mover's sixth rank, the opposing pawn that
/// just made a double step stands beyond it with the square it came from
/// empty, and a pawn of the mover stands beside that pawn.
pub proof fn lemma_check_en_passant(pos: &Position)
    ensures
        check_spec(pos) is Ok && pos.ep_square is Some && pos.turn == Color::White ==> {
            let t = pos.ep_square->0 as int;
            &&& 40 <= t < 48
            &&& pos.board@[t] is None
            &&& pos.board@[t + 8] is None
            &&& pos.board@[t - 8] == Some(Piece { color: Color::Black, role: Role::Pawn })
            &&& (file_of(t) > 0 && pos.board@[t - 9] == Some(Piece { color: Color::White, role: Role::Pawn }))
                || (file_of(t) < 7 && pos.board@[t - 7] == Some(Piece { color: Color::White, role: Role::Pawn }))
        },
        check_spec(pos) is Ok && pos.ep_square is Some && pos.turn == Color::Black ==> {
            let t = pos.ep_square->0 as int;
            &&& 16 <= t < 24
            &&& pos.board@[t] is None
            &&& pos.board@[t - 8] is None
            &&& pos.board@[t + 8] == Some(Piece { color: Color::White, role: Role::Pawn })
            &&& (file_of(t) > 0 && pos.board@[t + 7] == Some(Piece { color: Color::Black, role: Role::Pawn }))
                || (file_of(t) < 7 && pos.board@[t + 9] == Some(Piece { color: Color::Black, role: Role::Pawn }))
        },
{
}

/// Law (attack symmetry): a piece on `s` attacks `t` exactly when the same
/// piece of the other colour on `t` attacks `s`: knights, kings and sliders
/// attack both ways, and a pawn attacks forward, the other colour's pawn
/// back toward it.
pub proof fn lemma_attacks_symmetric(s: int, t: int, piece: Piece, occupied: u64)
    requires
        0 <= s < 64,
        0 <= t < 64,
    ensures
        attacks_square(s, piece, occupied, t) == attacks_square(t, Piece { color: other(piece.color), role: piece.role }, occupied, s),
{
    assert forall|kind: int| slides_to(s, t, occupied, kind) == slides_to(t, s, occupied, kind) by {
        if on_line(s, t, kind) {
            assert forall|u: int| on_line(s, u, kind) <==> on_line(t, u, kind) by {}
        }
    }
}

} // verus!
