use vstd::prelude::*;

use crate::position::Color;
use crate::position::Piece;
use crate::position::Position;
use crate::position::Role;
use vstd::arithmetic::power2::pow2;
use vstd::arithmetic::power2::lemma2_to64_rest;
use vstd::arithmetic::power2::lemma_pow2_unfold;

verus! {

// ── Binomial coefficients and colex combination ranks ────────────────────────

/// Binomial coefficient `C(n, k)` by Pascal's rule.
pub open spec fn binom(n: nat, k: nat) -> nat
    decreases n,
{
    if k == 0 {
        1
    } else if n == 0 {
        0
    } else {
        binom((n - 1) as nat, (k - 1) as nat) + binom((n - 1) as nat, k)
    }
}

pub proof fn lemma_binom_bounds(n: nat, k: nat)
    ensures
        k > n ==> binom(n, k) == 0,
        k <= n ==> binom(n, k) >= 1,
        binom(n, k) <= pow2(n),
    decreases n,
{
    if n > 0 {
        lemma_pow2_unfold(n);
        lemma_binom_bounds((n - 1) as nat, k);
        if k > 0 {
            lemma_binom_bounds((n - 1) as nat, (k - 1) as nat);
        }
    } else {
        assert(pow2(0) == 1) by {
            vstd::arithmetic::power2::lemma2_to64();
        }
    }
}

/// Number of `true` entries of `m`.
pub open spec fn count_true(m: Seq<bool>) -> nat
    decreases m.len(),
{
    if m.len() == 0 {
        0
    } else {
        count_true(m.drop_last()) + if m.last() { 1nat } else { 0nat }
    }
}

/// Colex rank of the subset of `0..m.len()` marked by `m`: the sum, over the
/// marked positions `p_1 < p_2 < ... < p_k`, of `C(p_i, i)`.
pub open spec fn crank(m: Seq<bool>) -> nat
    decreases m.len(),
{
    if m.len() == 0 {
        0
    } else {
        crank(m.drop_last()) + if m.last() {
            binom((m.len() - 1) as nat, count_true(m))
        } else {
            0nat
        }
    }
}

/// The subset of `0..n` of size `k` whose colex rank is `r`.
pub open spec fn cunrank(n: nat, k: nat, r: nat) -> Seq<bool>
    decreases n,
{
    if n == 0 {
        Seq::empty()
    } else if k > 0 && r >= binom((n - 1) as nat, k) {
        cunrank((n - 1) as nat, (k - 1) as nat, (r - binom((n - 1) as nat, k)) as nat).push(true)
    } else {
        cunrank((n - 1) as nat, k, r).push(false)
    }
}

proof fn lemma_count_true_le(m: Seq<bool>)
    ensures
        count_true(m) <= m.len(),
    decreases m.len(),
{
    if m.len() > 0 {
        lemma_count_true_le(m.drop_last());
    }
}

/// Law: the colex rank of a `k`-subset of `0..n` is below `C(n, k)`.
pub proof fn lemma_crank_bound(m: Seq<bool>)
    ensures
        crank(m) < binom(m.len(), count_true(m)),
    decreases m.len(),
{
    lemma_count_true_le(m);
    if m.len() > 0 {
        let d = m.drop_last();
        let n = (m.len() - 1) as nat;
        lemma_crank_bound(d);
        lemma_count_true_le(d);
        let k = count_true(m);
        if m.last() {
            assert(k == count_true(d) + 1);
            assert(binom(m.len(), k) == binom(n, count_true(d)) + binom(n, k));
        } else {
            assert(k == count_true(d));
            if k > 0 {
                assert(binom(m.len(), k) == binom(n, (k - 1) as nat) + binom(n, k));
            }
        }
    }
}

/// Law: decoding a rank below `C(n, k)` gives a `k`-subset of `0..n` of that rank.
pub proof fn lemma_cunrank_crank(n: nat, k: nat, r: nat)
    requires
        r < binom(n, k),
    ensures
        cunrank(n, k, r).len() == n,
        count_true(cunrank(n, k, r)) == k,
        crank(cunrank(n, k, r)) == r,
    decreases n,
{
    if n == 0 {
        assert(k == 0) by {
            if k > 0 {
                assert(binom(0, k) == 0);
            }
        }
    } else {
        let n1 = (n - 1) as nat;
        let m = cunrank(n, k, r);
        if k > 0 && r >= binom(n1, k) {
            let r1 = (r - binom(n1, k)) as nat;
            assert(binom(n, k) == binom(n1, (k - 1) as nat) + binom(n1, k));
            lemma_cunrank_crank(n1, (k - 1) as nat, r1);
            let d = cunrank(n1, (k - 1) as nat, r1);
            assert(m.drop_last() =~= d);
        } else {
            if k > 0 {
                assert(binom(n, k) == binom(n1, (k - 1) as nat) + binom(n1, k));
            } else {
                lemma_binom_bounds(n1, 0);
            }
            lemma_cunrank_crank(n1, k, r);
            let d = cunrank(n1, k, r);
            assert(m.drop_last() =~= d);
        }
    }
}

/// Law: encoding a subset and decoding its rank gives the subset back.
pub proof fn lemma_crank_cunrank(m: Seq<bool>)
    ensures
        cunrank(m.len(), count_true(m), crank(m)) == m,
    decreases m.len(),
{
    if m.len() > 0 {
        let d = m.drop_last();
        let n1 = d.len();
        lemma_crank_cunrank(d);
        lemma_crank_bound(d);
        let k = count_true(m);
        if m.last() {
            assert(k > 0);
            assert(crank(m) >= binom(n1, k));
            assert((crank(m) - binom(n1, k)) as nat == crank(d));
            assert(cunrank(m.len(), k, crank(m)) =~= cunrank(n1, (k - 1) as nat, crank(d)).push(true));
        } else {
            assert(k == count_true(d));
            assert(cunrank(m.len(), k, crank(m)) =~= cunrank(n1, k, crank(d)).push(false));
        }
        assert(m =~= d.push(m.last()));
    }
}

/// Pascal's triangle: `t[n][k] == C(n, k)` for `n, k <= 64`.
fn pascal_table() -> (t: Vec<Vec<u128>>)
    ensures
        t.len() == 65,
        forall|n: int| 0 <= n < 65 ==> (#[trigger] t[n]).len() == 65,
        forall|n: int, k: int| 0 <= n < 65 && 0 <= k < 65 ==> #[trigger] t[n][k] == binom(n as nat, k as nat),
{
    let mut t: Vec<Vec<u128>> = Vec::new();
    let mut row0: Vec<u128> = Vec::new();
    let mut k: usize = 0;
    while k < 65
        invariant
            k <= 65,
            row0.len() == k,
            forall|j: int| 0 <= j < k ==> #[trigger] row0[j] == binom(0, j as nat),
        decreases 65 - k,
    {
        row0.push(if k == 0 { 1 } else { 0 });
        k = k + 1;
    }
    t.push(row0);
    let mut n: usize = 1;
    proof {
        lemma2_to64_rest();
    }
    while n < 65
        invariant
            1 <= n <= 65,
            t.len() == n,
            pow2(64) == 0x10000000000000000,
            forall|i: int| 0 <= i < n ==> (#[trigger] t[i]).len() == 65,
            forall|i: int, j: int| 0 <= i < n && 0 <= j < 65 ==> #[trigger] t[i][j] == binom(i as nat, j as nat),
        decreases 65 - n,
    {
        let mut row: Vec<u128> = Vec::new();
        let mut k: usize = 0;
        while k < 65
            invariant
                1 <= n < 65,
                k <= 65,
                t.len() == n,
                row.len() == k,
                pow2(64) == 0x10000000000000000,
                forall|i: int| 0 <= i < n ==> (#[trigger] t[i]).len() == 65,
                forall|i: int, j: int| 0 <= i < n && 0 <= j < 65 ==> #[trigger] t[i][j] == binom(i as nat, j as nat),
                forall|j: int| 0 <= j < k ==> #[trigger] row[j] == binom(n as nat, j as nat),
            decreases 65 - k,
        {
            if k == 0 {
                row.push(1);
            } else {
                proof {
                    lemma_binom_bounds(n as nat, k as nat);
                    if n < 64 {
                        vstd::arithmetic::power2::lemma_pow2_strictly_increases(n as nat, 64);
                    }
                    assert(binom(n as nat, k as nat) == binom((n - 1) as nat, (k - 1) as nat) + binom((n - 1) as nat, k as nat));
                    if n == 64 {
                        assert(binom(n as nat, k as nat) <= pow2(64));
                    }
                }
                let v = t[n - 1][k - 1] + t[n - 1][k];
                row.push(v);
            }
            k = k + 1;
        }
        t.push(row);
        n = n + 1;
    }
    t
}


// ── Free squares, masks and families ─────────────────────────────────────────

/// Bit `s` of the bitboard `x` is set.
pub open spec fn has_bit(x: u64, s: int) -> bool {
    (x >> (s as u64)) & 1u64 == 1u64
}

/// The squares below `n` whose bit in `pawns` is clear, ascending.
pub open spec fn free_upto(pawns: u64, n: int) -> Seq<u8>
    decreases n,
{
    if n <= 0 {
        Seq::empty()
    } else {
        let f = free_upto(pawns, n - 1);
        if has_bit(pawns, n - 1) { f } else { f.push((n - 1) as u8) }
    }
}

/// The free-square set `S_0`: every square not occupied by a pawn, ascending.
pub open spec fn free_squares(pawns: u64) -> Seq<u8> {
    free_upto(pawns, 64)
}

/// Piece of family `f` in the committed order WK, BK, WQ, BQ, WR, BR, WB, BB, WN, BN.
pub open spec fn family_piece(f: int) -> Piece {
    let color = if f % 2 == 0 { Color::White } else { Color::Black };
    let role = if f < 2 { Role::King } else if f < 4 { Role::Queen } else if f < 6 { Role::Rook }
        else if f < 8 { Role::Bishop } else { Role::Knight };
    Piece { color, role }
}

/// Which squares of `free` hold a piece of family `f`.
pub open spec fn family_mask(board: Seq<Option<Piece>>, free: Seq<u8>, f: int) -> Seq<bool> {
    free.map_values(|s: u8| board[s as int] == Some(family_piece(f)))
}

/// The entries of `free` marked by `m`, in order.
pub open spec fn select(free: Seq<u8>, m: Seq<bool>) -> Seq<u8>
    decreases free.len(),
{
    if free.len() == 0 {
        Seq::empty()
    } else {
        let r = select(free.drop_last(), m.drop_last());
        if m[free.len() - 1] { r.push(free.last()) } else { r }
    }
}

/// The entries of `free` not marked by `m`, in order.
pub open spec fn unselect(free: Seq<u8>, m: Seq<bool>) -> Seq<u8>
    decreases free.len(),
{
    if free.len() == 0 {
        Seq::empty()
    } else {
        let r = unselect(free.drop_last(), m.drop_last());
        if m[free.len() - 1] { r } else { r.push(free.last()) }
    }
}

/// Squares tagged with the piece placed on them.
pub open spec fn tag(squares: Seq<u8>, p: Piece) -> Seq<(u8, Color, Role)> {
    squares.map_values(|s: u8| (s, p.color, p.role))
}

/// Mixed radix of families `f..10` over `n` remaining squares:
/// `C(n, c_f) * C(n - c_f, c_{f+1}) * ...`.
pub open spec fn radix(n: nat, counts: Seq<u8>, f: int) -> nat
    decreases 10 - f,
{
    if f >= 10 {
        1
    } else {
        binom(n, counts[f] as nat) * radix((n - counts[f]) as nat, counts, f + 1)
    }
}

/// The counts of families `f..10` fit the remaining squares one after another.
pub open spec fn counts_fit(n: nat, counts: Seq<u8>, f: int) -> bool
    decreases 10 - f,
{
    f >= 10 || (counts[f] <= n && counts_fit((n - counts[f]) as nat, counts, f + 1))
}

/// Families `f..10` occupy exactly their counts of the remaining squares.
pub open spec fn counts_match(board: Seq<Option<Piece>>, free: Seq<u8>, counts: Seq<u8>, f: int) -> bool
    decreases 10 - f,
{
    f >= 10 || {
        let m = family_mask(board, free, f);
        count_true(m) == counts[f] && counts_match(board, unselect(free, m), counts, f + 1)
    }
}

/// Address of the placement of families `f..10` on the remaining squares
/// `free`: the colex rank of family `f`'s subset, as the most significant
/// mixed-radix digit, followed by the address of the remaining families on the
/// squares that family `f` leaves free.
pub open spec fn rank_from(board: Seq<Option<Piece>>, free: Seq<u8>, counts: Seq<u8>, f: int) -> nat
    decreases 10 - f,
{
    if f >= 10 {
        0
    } else {
        let m = family_mask(board, free, f);
        crank(m) * radix((free.len() - counts[f]) as nat, counts, f + 1) + rank_from(
            board,
            unselect(free, m),
            counts,
            f + 1,
        )
    }
}

/// The non-pawn placement of families `f..10` on the remaining squares, family
/// by family, squares ascending within a family.
pub open spec fn placement_from(board: Seq<Option<Piece>>, free: Seq<u8>, counts: Seq<u8>, f: int) -> Seq<(u8, Color, Role)>
    decreases 10 - f,
{
    if f >= 10 {
        Seq::empty()
    } else {
        let m = family_mask(board, free, f);
        tag(select(free, m), family_piece(f)) + placement_from(board, unselect(free, m), counts, f + 1)
    }
}

/// The placement decoded from `addr` for families `f..10` on the remaining squares.
pub open spec fn unrank_from(addr: nat, free: Seq<u8>, counts: Seq<u8>, f: int) -> Seq<(u8, Color, Role)>
    decreases 10 - f,
{
    if f >= 10 {
        Seq::empty()
    } else {
        let p = radix((free.len() - counts[f]) as nat, counts, f + 1);
        let m = cunrank(free.len(), counts[f] as nat, addr / p);
        tag(select(free, m), family_piece(f)) + unrank_from(addr % p, unselect(free, m), counts, f + 1)
    }
}

proof fn lemma_select_len(free: Seq<u8>, m: Seq<bool>)
    requires
        m.len() == free.len(),
    ensures
        select(free, m).len() == count_true(m),
        unselect(free, m).len() == free.len() - count_true(m),
        forall|i: int| 0 <= i < select(free, m).len() ==> free.contains(#[trigger] select(free, m)[i]),
        forall|i: int| 0 <= i < unselect(free, m).len() ==> free.contains(#[trigger] unselect(free, m)[i]),
    decreases free.len(),
{
    if free.len() > 0 {
        let fd = free.drop_last();
        let md = m.drop_last();
        lemma_select_len(fd, md);
        assert(m[free.len() - 1] == m.last());
        lemma_count_true_le(md);
        assert forall|i: int| 0 <= i < select(free, m).len() implies free.contains(#[trigger] select(free, m)[i]) by {
            if i < select(fd, md).len() {
                assert(fd.contains(select(fd, md)[i]));
                let k = choose|k: int| 0 <= k < fd.len() && fd[k] == select(fd, md)[i];
                assert(free[k] == fd[k]);
            } else {
                assert(free[free.len() - 1] == free.last());
            }
        }
        assert forall|i: int| 0 <= i < unselect(free, m).len() implies free.contains(#[trigger] unselect(free, m)[i]) by {
            if i < unselect(fd, md).len() {
                assert(fd.contains(unselect(fd, md)[i]));
                let k = choose|k: int| 0 <= k < fd.len() && fd[k] == unselect(fd, md)[i];
                assert(free[k] == fd[k]);
            } else {
                assert(free[free.len() - 1] == free.last());
            }
        }
    }
}

/// Law: the mixed radix is at least one exactly when the counts fit, and then
/// every later radix along the chain is no larger.
pub proof fn lemma_radix_fit(n: nat, counts: Seq<u8>, f: int)
    requires
        counts.len() == 10,
        0 <= f <= 10,
    ensures
        counts_fit(n, counts, f) <==> radix(n, counts, f) >= 1,
        f < 10 && counts_fit(n, counts, f) ==> radix((n - counts[f]) as nat, counts, f + 1) <= radix(n, counts, f),
    decreases 10 - f,
{
    if f < 10 {
        let c = counts[f] as nat;
        let n1 = (n - counts[f]) as nat;
        lemma_radix_fit(n1, counts, f + 1);
        lemma_binom_bounds(n, c);
        let b = binom(n, c);
        let r = radix(n1, counts, f + 1);
        if c <= n {
            assert(b * r >= r) by (nonlinear_arith) requires b >= 1, r >= 0;
            if r >= 1 {
                assert(b * r >= 1) by (nonlinear_arith) requires b >= 1, r >= 1;
            } else {
                assert(b * r == 0) by (nonlinear_arith) requires r == 0;
            }
        } else {
            assert(b * r == 0) by (nonlinear_arith) requires b == 0;
        }
    }
}

/// Law: a placement whose families match their counts has an address below
/// the mixed radix of its squares.
pub proof fn lemma_rank_bound(board: Seq<Option<Piece>>, free: Seq<u8>, counts: Seq<u8>, f: int)
    requires
        counts.len() == 10,
        0 <= f <= 10,
        counts_match(board, free, counts, f),
    ensures
        rank_from(board, free, counts, f) < radix(free.len(), counts, f),
        counts_fit(free.len(), counts, f),
    decreases 10 - f,
{
    if f < 10 {
        let m = family_mask(board, free, f);
        let rest = unselect(free, m);
        lemma_select_len(free, m);
        lemma_rank_bound(board, rest, counts, f + 1);
        lemma_crank_bound(m);
        let b = binom(free.len(), counts[f] as nat);
        let p = radix(rest.len(), counts, f + 1);
        let r = crank(m);
        let t = rank_from(board, rest, counts, f + 1);
        assert(r * p + t < b * p) by (nonlinear_arith) requires r < b, t < p;
    }
}

/// Law (roundtrip): decoding the address of a placement whose families match
/// their counts gives back that placement.
pub proof fn lemma_unrank_rank(board: Seq<Option<Piece>>, free: Seq<u8>, counts: Seq<u8>, f: int)
    requires
        counts.len() == 10,
        0 <= f <= 10,
        counts_match(board, free, counts, f),
    ensures
        unrank_from(rank_from(board, free, counts, f), free, counts, f) == placement_from(board, free, counts, f),
    decreases 10 - f,
{
    if f < 10 {
        let m = family_mask(board, free, f);
        let rest = unselect(free, m);
        lemma_select_len(free, m);
        lemma_rank_bound(board, rest, counts, f + 1);
        lemma_unrank_rank(board, rest, counts, f + 1);
        let p = radix(rest.len(), counts, f + 1);
        let r = crank(m);
        let t = rank_from(board, rest, counts, f + 1);
        let a = rank_from(board, free, counts, f);
        assert(a == r * p + t);
        vstd::arithmetic::div_mod::lemma_fundamental_div_mod_converse(a as int, p as int, r as int, t as int);
        lemma_crank_cunrank(m);
        assert(m.len() == free.len());
    }
}


// ── The codec ────────────────────────────────────────────────────────────────

/// Combinadic rank identifying a non-pawn piece placement.
pub type PlacementAddress = u64;

/// The context required to interpret a `PlacementAddress`: it fixes the
/// free-square set `S_0` that the codec operates over.
#[derive(Debug, Clone, Copy)]
pub struct PlacementContext {
    /// Non-pawn piece counts per side, in piece-family order
    /// (wk, bk, wq, bq, wr, br, wb, bb, wn, bn).
    pub piece_counts: [u8; 10],
    /// Bitboard of squares already occupied by pawns.
    pub pawn_squares: u64,
}

/// Number of squares the families of `counts` leave free after families `0..f`.
pub open spec fn remaining(n0: nat, counts: Seq<u8>, f: int) -> nat
    decreases f,
{
    if f <= 0 {
        n0
    } else {
        (remaining(n0, counts, f - 1) - counts[f - 1]) as nat
    }
}

/// The position's non-pawn pieces on the free squares match the context's
/// counts, family by family.
pub open spec fn placement_matches(pos: &Position, ctx: &PlacementContext) -> bool {
    &&& pos.board@.len() == 64
    &&& counts_match(pos.board@, free_squares(ctx.pawn_squares), ctx.piece_counts@, 0)
}

/// Number of distinct addresses in the context.
pub open spec fn address_space(ctx: &PlacementContext) -> nat {
    radix(free_squares(ctx.pawn_squares).len(), ctx.piece_counts@, 0)
}

/// Every address of the context fits a `PlacementAddress`.
pub open spec fn addresses_fit(ctx: &PlacementContext) -> bool {
    address_space(ctx) <= 0x10000000000000000
}

pub open spec fn rank_spec(pos: &Position, ctx: &PlacementContext) -> nat {
    rank_from(pos.board@, free_squares(ctx.pawn_squares), ctx.piece_counts@, 0)
}

pub open spec fn unrank_spec(address: nat, ctx: &PlacementContext) -> Seq<(u8, Color, Role)> {
    unrank_from(address, free_squares(ctx.pawn_squares), ctx.piece_counts@, 0)
}

pub open spec fn placement_spec(pos: &Position, ctx: &PlacementContext) -> Seq<(u8, Color, Role)> {
    placement_from(pos.board@, free_squares(ctx.pawn_squares), ctx.piece_counts@, 0)
}

proof fn lemma_fit_chain(n0: nat, counts: Seq<u8>, f: int)
    requires
        counts.len() == 10,
        0 <= f <= 10,
        counts_fit(n0, counts, 0),
    ensures
        counts_fit(remaining(n0, counts, f), counts, f),
        radix(remaining(n0, counts, f), counts, f) <= radix(n0, counts, 0),
        remaining(n0, counts, f) <= n0,
        f < 10 ==> counts[f] <= remaining(n0, counts, f),
    decreases f,
{
    if f > 0 {
        lemma_fit_chain(n0, counts, f - 1);
        lemma_radix_fit(remaining(n0, counts, f - 1), counts, f - 1);
    }
}

proof fn lemma_free_upto(pawns: u64, n: int)
    requires
        0 <= n <= 64,
    ensures
        free_upto(pawns, n).len() <= n,
        forall|i: int| 0 <= i < free_upto(pawns, n).len() ==> #[trigger] free_upto(pawns, n)[i] < n,
    decreases n,
{
    if n > 0 {
        lemma_free_upto(pawns, n - 1);
    }
}

/// The free squares of a pawn bitboard, ascending.
fn free_squares_exec(pawns: u64) -> (v: Vec<u8>)
    ensures
        v@ == free_squares(pawns),
        v.len() <= 64,
        forall|i: int| 0 <= i < v.len() ==> #[trigger] v[i] < 64,
{
    let mut v: Vec<u8> = Vec::new();
    let mut s: u64 = 0;
    while s < 64
        invariant
            s <= 64,
            v@ == free_upto(pawns, s as int),
        decreases 64 - s,
    {
        if (pawns >> s) & 1u64 != 1u64 {
            v.push(s as u8);
        }
        s = s + 1;
    }
    proof {
        lemma_free_upto(pawns, 64);
    }
    v
}

fn family_piece_exec(f: usize) -> (p: Piece)
    requires
        f < 10,
    ensures
        p == family_piece(f as int),
{
    let color = if f % 2 == 0 { Color::White } else { Color::Black };
    let role = if f < 2 {
        Role::King
    } else if f < 4 {
        Role::Queen
    } else if f < 6 {
        Role::Rook
    } else if f < 8 {
        Role::Bishop
    } else {
        Role::Knight
    };
    Piece { color, role }
}

fn family_mask_exec(board: &Vec<Option<Piece>>, free: &Vec<u8>, f: usize) -> (m: Vec<bool>)
    requires
        f < 10,
        board.len() == 64,
        forall|i: int| 0 <= i < free.len() ==> #[trigger] free[i] < 64,
    ensures
        m@ == family_mask(board@, free@, f as int),
{
    let piece = family_piece_exec(f);
    let mut m: Vec<bool> = Vec::new();
    let mut j: usize = 0;
    while j < free.len()
        invariant
            j <= free.len(),
            board.len() == 64,
            piece == family_piece(f as int),
            forall|i: int| 0 <= i < free.len() ==> #[trigger] free[i] < 64,
            m@ == family_mask(board@, free@, f as int).take(j as int),
        decreases free.len() - j,
    {
        let sel = match board[free[j] as usize] {
            Some(p) => p == piece,
            None => false,
        };
        proof {
            assert(family_mask(board@, free@, f as int).take(j + 1) =~= m@.push(sel));
        }
        m.push(sel);
        j = j + 1;
    }
    proof {
        assert(family_mask(board@, free@, f as int).take(free.len() as int) =~= family_mask(board@, free@, f as int));
    }
    m
}

/// Colex rank and size of the subset marked by `m`.
fn crank_exec(m: &Vec<bool>, table: &Vec<Vec<u128>>) -> (res: (u128, usize))
    requires
        m.len() <= 64,
        table.len() == 65,
        forall|n: int| 0 <= n < 65 ==> (#[trigger] table[n]).len() == 65,
        forall|n: int, k: int| 0 <= n < 65 && 0 <= k < 65 ==> #[trigger] table[n][k] == binom(n as nat, k as nat),
    ensures
        res.0 == crank(m@),
        res.1 == count_true(m@),
{
    let mut r: u128 = 0;
    let mut k: usize = 0;
    let mut j: usize = 0;
    proof {
        lemma2_to64_rest();
    }
    while j < m.len()
        invariant
            j <= m.len(),
            m.len() <= 64,
            table.len() == 65,
            forall|n: int| 0 <= n < 65 ==> (#[trigger] table[n]).len() == 65,
            forall|n: int, kk: int| 0 <= n < 65 && 0 <= kk < 65 ==> #[trigger] table[n][kk] == binom(n as nat, kk as nat),
            r == crank(m@.take(j as int)),
            k == count_true(m@.take(j as int)),
            k <= j,
            pow2(64) == 0x10000000000000000,
        decreases m.len() - j,
    {
        let ghost t1 = m@.take(j + 1);
        proof {
            assert(t1.drop_last() =~= m@.take(j as int));
            lemma_crank_bound(t1);
            lemma_binom_bounds((j + 1) as nat, count_true(t1));
            if j + 1 < 64 {
                vstd::arithmetic::power2::lemma_pow2_strictly_increases((j + 1) as nat, 64);
            }
        }
        if m[j] {
            k = k + 1;
            r = r + table[j][k];
        }
        j = j + 1;
    }
    proof {
        assert(m@.take(m.len() as int) =~= m@);
    }
    (r, k)
}

proof fn lemma_select_step(free: Seq<u8>, m: Seq<bool>, j: int)
    requires
        m.len() == free.len(),
        0 <= j < free.len(),
    ensures
        select(free.take(j + 1), m.take(j + 1)) == if m[j] { select(free.take(j), m.take(j)).push(free[j]) } else { select(free.take(j), m.take(j)) },
        unselect(free.take(j + 1), m.take(j + 1)) == if m[j] { unselect(free.take(j), m.take(j)) } else { unselect(free.take(j), m.take(j)).push(free[j]) },
{
    assert(free.take(j + 1).drop_last() =~= free.take(j));
    assert(m.take(j + 1).drop_last() =~= m.take(j));
}

/// The squares of `free` marked by `m` and the others, both in order.
fn split_by_mask(free: &Vec<u8>, m: &Vec<bool>) -> (res: (Vec<u8>, Vec<u8>))
    requires
        m.len() == free.len(),
    ensures
        res.0@ == select(free@, m@),
        res.1@ == unselect(free@, m@),
{
    let mut sel: Vec<u8> = Vec::new();
    let mut rest: Vec<u8> = Vec::new();
    let mut j: usize = 0;
    while j < free.len()
        invariant
            j <= free.len(),
            m.len() == free.len(),
            sel@ == select(free@.take(j as int), m@.take(j as int)),
            rest@ == unselect(free@.take(j as int), m@.take(j as int)),
        decreases free.len() - j,
    {
        proof {
            lemma_select_step(free@, m@, j as int);
        }
        if m[j] {
            sel.push(free[j]);
        } else {
            rest.push(free[j]);
        }
        j = j + 1;
    }
    proof {
        assert(free@.take(free.len() as int) =~= free@);
        assert(m@.take(free.len() as int) =~= m@);
    }
    (sel, rest)
}

/// The mixed radices `radix(remaining(f), f)` for `f` in `0..=10`, or `None`
/// when the whole address space exceeds `2^64`.
fn radices(table: &Vec<Vec<u128>>, n0: usize, counts: &[u8; 10]) -> (res: Option<Vec<u128>>)
    requires
        n0 <= 64,
        counts_fit(n0 as nat, counts@, 0),
        table.len() == 65,
        forall|n: int| 0 <= n < 65 ==> (#[trigger] table[n]).len() == 65,
        forall|n: int, k: int| 0 <= n < 65 && 0 <= k < 65 ==> #[trigger] table[n][k] == binom(n as nat, k as nat),
    ensures
        res is Some <==> radix(n0 as nat, counts@, 0) <= 0x10000000000000000,
        res matches Some(rad) ==> rad.len() == 11 && forall|f: int| 0 <= f <= 10 ==>
            #[trigger] rad[f] == radix(remaining(n0 as nat, counts@, f), counts@, f),
{
    let ghost cs = counts@;
    let mut nf: Vec<usize> = Vec::new();
    nf.push(n0);
    let mut f: usize = 0;
    while f < 10
        invariant
            f <= 10,
            n0 <= 64,
            cs == counts@,
            counts_fit(n0 as nat, cs, 0),
            nf.len() == f + 1,
            forall|g: int| 0 <= g <= f ==> #[trigger] nf[g] == remaining(n0 as nat, cs, g),
        decreases 10 - f,
    {
        proof {
            lemma_fit_chain(n0 as nat, cs, f as int);
        }
        let next = nf[f] - counts[f] as usize;
        nf.push(next);
        f = f + 1;
    }
    let mut rad: Vec<u128> = Vec::new();
    let mut i: usize = 0;
    while i < 11
        invariant
            i <= 11,
            rad.len() == i,
            forall|g: int| 0 <= g < i ==> #[trigger] rad[g] == 1,
        decreases 11 - i,
    {
        rad.push(1);
        i = i + 1;
    }
    let mut f: usize = 10;
    while f > 0
        invariant
            f <= 10,
            n0 <= 64,
            cs == counts@,
            counts_fit(n0 as nat, cs, 0),
            nf.len() == 11,
            forall|g: int| 0 <= g <= 10 ==> #[trigger] nf[g] == remaining(n0 as nat, cs, g),
            rad.len() == 11,
            forall|g: int| f <= g <= 10 ==> #[trigger] rad[g] == radix(remaining(n0 as nat, cs, g), cs, g),
            rad[f as int] <= 0x10000000000000000,
            table.len() == 65,
            forall|n: int| 0 <= n < 65 ==> (#[trigger] table[n]).len() == 65,
            forall|n: int, k: int| 0 <= n < 65 && 0 <= k < 65 ==> #[trigger] table[n][k] == binom(n as nat, k as nat),
        decreases f,
    {
        let g = f - 1;
        proof {
            lemma_fit_chain(n0 as nat, cs, g as int);
            lemma_fit_chain(n0 as nat, cs, f as int);
        }
        let b = table[nf[g]][counts[g] as usize];
        let prod = b.checked_mul(rad[f]);
        match prod {
            None => {
                return None;
            },
            Some(v) => {
                if v > 0x10000000000000000 {
                    return None;
                }
                rad.set(g, v);
            },
        }
        f = g;
    }
    Some(rad)
}

/// Encode a position's non-pawn placement as a `PlacementAddress` within the
/// given context. This does exact addressability only; legality is separate.
pub fn rank(pos: &Position, ctx: &PlacementContext) -> (a: PlacementAddress)
    requires
        placement_matches(pos, ctx),
        addresses_fit(ctx),
    ensures
        a == rank_spec(pos, ctx),
        a < address_space(ctx),
{
    let table = pascal_table();
    let free0 = free_squares_exec(ctx.pawn_squares);
    let ghost cs = ctx.piece_counts@;
    let ghost board = pos.board@;
    let ghost n0 = free0.len() as nat;
    proof {
        lemma_rank_bound(board, free0@, cs, 0);
    }
    let rad = match radices(&table, free0.len(), &ctx.piece_counts) {
        Some(r) => r,
        None => {
            return 0;
        },
    };
    let mut free = free0;
    let mut acc: u128 = 0;
    let mut f: usize = 0;
    while f < 10
        invariant
            f <= 10,
            cs == ctx.piece_counts@,
            board == pos.board@,
            board.len() == 64,
            free.len() == remaining(n0, cs, f as int),
            free.len() <= 64,
            forall|i: int| 0 <= i < free.len() ==> #[trigger] free[i] < 64,
            counts_match(board, free@, cs, f as int),
            rank_from(board, free0@, cs, 0) == acc + rank_from(board, free@, cs, f as int),
            rank_from(board, free0@, cs, 0) < radix(n0, cs, 0),
            radix(n0, cs, 0) <= 0x10000000000000000,
            n0 == free0@.len(),
            n0 <= 64,
            counts_fit(n0, cs, 0),
            rad.len() == 11,
            forall|g: int| 0 <= g <= 10 ==> #[trigger] rad[g] == radix(remaining(n0, cs, g), cs, g),
            table.len() == 65,
            forall|n: int| 0 <= n < 65 ==> (#[trigger] table[n]).len() == 65,
            forall|n: int, k: int| 0 <= n < 65 && 0 <= k < 65 ==> #[trigger] table[n][k] == binom(n as nat, k as nat),
        decreases 10 - f,
    {
        let m = family_mask_exec(&pos.board, &free, f);
        let (r, _k) = crank_exec(&m, &table);
        let (_sel, rest) = split_by_mask(&free, &m);
        proof {
            lemma_select_len(free@, m@);
            lemma_fit_chain(n0, cs, f as int);
            assert(rest@.len() == remaining(n0, cs, f + 1));
        }
        acc = acc + r * rad[f + 1];
        free = rest;
        f = f + 1;
    }
    acc as u64
}

/// Reconstruct the non-pawn piece placement from an address and its context:
/// family by family in the committed order, squares ascending within a family.
pub fn unrank(address: PlacementAddress, ctx: &PlacementContext) -> (placement: Vec<(u8, Color, Role)>)
    requires
        address < address_space(ctx),
        addresses_fit(ctx),
    ensures
        placement@ == unrank_spec(address as nat, ctx),
{
    let table = pascal_table();
    let free0 = free_squares_exec(ctx.pawn_squares);
    let ghost cs = ctx.piece_counts@;
    let ghost n0 = free0.len() as nat;
    proof {
        lemma_radix_fit(n0, cs, 0);
    }
    let rad = match radices(&table, free0.len(), &ctx.piece_counts) {
        Some(r) => r,
        None => {
            return Vec::new();
        },
    };
    let mut out: Vec<(u8, Color, Role)> = Vec::new();
    let mut free = free0;
    let mut a: u128 = address as u128;
    let mut f: usize = 0;
    while f < 10
        invariant
            f <= 10,
            cs == ctx.piece_counts@,
            free.len() == remaining(n0, cs, f as int),
            unrank_from(address as nat, free0@, cs, 0) == out@ + unrank_from(a as nat, free@, cs, f as int),
            a < radix(free.len() as nat, cs, f as int),
            n0 == free0@.len(),
            n0 <= 64,
            counts_fit(n0, cs, 0),
            rad.len() == 11,
            forall|g: int| 0 <= g <= 10 ==> #[trigger] rad[g] == radix(remaining(n0, cs, g), cs, g),
            table.len() == 65,
            forall|n: int| 0 <= n < 65 ==> (#[trigger] table[n]).len() == 65,
            forall|n: int, k: int| 0 <= n < 65 && 0 <= k < 65 ==> #[trigger] table[n][k] == binom(n as nat, k as nat),
        decreases 10 - f,
    {
        proof {
            lemma_fit_chain(n0, cs, f as int);
            lemma_fit_chain(n0, cs, f + 1);
            lemma_radix_fit(remaining(n0, cs, f + 1), cs, f + 1);
        }
        let p = rad[f + 1];
        let d = a / p;
        let rest_addr = a % p;
        let c = ctx.piece_counts[f] as usize;
        proof {
            let b = binom(free.len() as nat, c as nat);
            assert(a < b * p);
            assert(d < b) by (nonlinear_arith) requires a < b * p, p >= 1, d == a / p;
            lemma_cunrank_crank(free.len() as nat, c as nat, d as nat);
        }
        let m = cunrank_exec(free.len(), c, d, &table);
        let (sel, rest) = split_by_mask(&free, &m);
        let piece = family_piece_exec(f);
        let ghost out_before = out@;
        let mut j: usize = 0;
        while j < sel.len()
            invariant
                j <= sel.len(),
                out@ == out_before + tag(sel@, piece).take(j as int),
            decreases sel.len() - j,
        {
            proof {
                assert(tag(sel@, piece).take(j + 1) =~= tag(sel@, piece).take(j as int).push((sel[j as int], piece.color, piece.role)));
            }
            out.push((sel[j], piece.color, piece.role));
            j = j + 1;
        }
        proof {
            assert(tag(sel@, piece).take(sel.len() as int) =~= tag(sel@, piece));
            lemma_select_len(free@, m@);
            assert(out_before + tag(sel@, piece) + unrank_from(rest_addr as nat, rest@, cs, f + 1)
                =~= out_before + (tag(sel@, piece) + unrank_from(rest_addr as nat, rest@, cs, f + 1)));
        }
        free = rest;
        a = rest_addr;
        f = f + 1;
    }
    proof {
        assert(out@ + Seq::<(u8, Color, Role)>::empty() =~= out@);
    }
    out
}

/// The `k`-subset of `0..n` whose colex rank is `r`.
fn cunrank_exec(n: usize, k: usize, r: u128, table: &Vec<Vec<u128>>) -> (m: Vec<bool>)
    requires
        n <= 64,
        k <= n,
        r < binom(n as nat, k as nat),
        table.len() == 65,
        forall|i: int| 0 <= i < 65 ==> (#[trigger] table[i]).len() == 65,
        forall|i: int, j: int| 0 <= i < 65 && 0 <= j < 65 ==> #[trigger] table[i][j] == binom(i as nat, j as nat),
    ensures
        m@ == cunrank(n as nat, k as nat, r as nat),
{
    let mut m: Vec<bool> = Vec::new();
    let mut i: usize = 0;
    while i < n
        invariant
            i <= n,
            m.len() == i,
            forall|t: int| 0 <= t < i ==> !#[trigger] m[t],
        decreases n - i,
    {
        m.push(false);
        i = i + 1;
    }
    let mut j: usize = n;
    let mut kk: usize = k;
    let mut rr: u128 = r;
    while j > 0
        invariant
            j <= n,
            n <= 64,
            kk <= j,
            m.len() == n,
            forall|t: int| 0 <= t < j ==> !#[trigger] m[t],
            rr < binom(j as nat, kk as nat),
            cunrank(n as nat, k as nat, r as nat) == cunrank(j as nat, kk as nat, rr as nat) + m@.subrange(j as int, n as int),
            table.len() == 65,
            forall|i: int| 0 <= i < 65 ==> (#[trigger] table[i]).len() == 65,
            forall|i: int, jj: int| 0 <= i < 65 && 0 <= jj < 65 ==> #[trigger] table[i][jj] == binom(i as nat, jj as nat),
        decreases j,
    {
        let j1 = j - 1;
        let ghost before = m@.subrange(j as int, n as int);
        proof {
            if kk > 0 {
                assert(binom(j as nat, kk as nat) == binom(j1 as nat, (kk - 1) as nat) + binom(j1 as nat, kk as nat));
            } else {
                lemma_binom_bounds(j1 as nat, 0);
            }
            lemma_binom_bounds(j1 as nat, kk as nat);
        }
        if kk > 0 && rr >= table[j1][kk] {
            rr = rr - table[j1][kk];
            kk = kk - 1;
            m.set(j1, true);
            proof {
                assert(m@.subrange(j1 as int, n as int) =~= seq![true] + before);
            }
        } else {
            proof {
                assert(m@.subrange(j1 as int, n as int) =~= seq![false] + before);
                if kk > j1 {
                    lemma_binom_bounds(j1 as nat, kk as nat);
                }
            }
        }
        proof {
            let c = cunrank(j1 as nat, kk as nat, rr as nat);
            assert(c + m@.subrange(j1 as int, n as int) =~= c.push(m@[j1 as int]) + before);
        }
        j = j1;
    }
    proof {
        assert(cunrank(0, kk as nat, rr as nat) =~= Seq::<bool>::empty());
        assert(m@.subrange(0, n as int) =~= m@);
    }
    m
}


/// The position's non-pawn placement, when its families match the context's
/// counts.
fn matched_placement(pos: &Position, ctx: &PlacementContext) -> (res: Option<Vec<(u8, Color, Role)>>)
    requires
        pos.board@.len() == 64,
    ensures
        res is Some <==> placement_matches(pos, ctx),
        res matches Some(p) ==> p@ == placement_spec(pos, ctx),
{
    let table = pascal_table();
    let free0 = free_squares_exec(ctx.pawn_squares);
    let ghost cs = ctx.piece_counts@;
    let ghost board = pos.board@;
    let mut free = free0.clone();
    let mut out: Vec<(u8, Color, Role)> = Vec::new();
    let mut f: usize = 0;
    proof {
        assert(free@ == free0@);
    }
    while f < 10
        invariant
            f <= 10,
            cs == ctx.piece_counts@,
            board == pos.board@,
            board.len() == 64,
            free.len() <= 64,
            forall|i: int| 0 <= i < free.len() ==> #[trigger] free[i] < 64,
            free0@ == free_squares(ctx.pawn_squares),
            counts_match(board, free0@, cs, 0) == counts_match(board, free@, cs, f as int),
            placement_from(board, free0@, cs, 0) == out@ + placement_from(board, free@, cs, f as int),
            table.len() == 65,
            forall|n: int| 0 <= n < 65 ==> (#[trigger] table[n]).len() == 65,
            forall|n: int, k: int| 0 <= n < 65 && 0 <= k < 65 ==> #[trigger] table[n][k] == binom(n as nat, k as nat),
        decreases 10 - f,
    {
        let m = family_mask_exec(&pos.board, &free, f);
        let (_r, k) = crank_exec(&m, &table);
        if k != ctx.piece_counts[f] as usize {
            proof {
                assert(cs[f as int] == ctx.piece_counts[f as int]);
                assert(count_true(family_mask(board, free@, f as int)) != cs[f as int]);
                assert(!counts_match(board, free@, cs, f as int));
            }
            return None;
        }
        let (sel, rest) = split_by_mask(&free, &m);
        let piece = family_piece_exec(f);
        let ghost out_before = out@;
        let mut j: usize = 0;
        while j < sel.len()
            invariant
                j <= sel.len(),
                out@ == out_before + tag(sel@, piece).take(j as int),
            decreases sel.len() - j,
        {
            proof {
                assert(tag(sel@, piece).take(j + 1) =~= tag(sel@, piece).take(j as int).push((sel[j as int], piece.color, piece.role)));
            }
            out.push((sel[j], piece.color, piece.role));
            j = j + 1;
        }
        proof {
            assert(tag(sel@, piece).take(sel.len() as int) =~= tag(sel@, piece));
            lemma_select_len(free@, m@);
            assert forall|i: int| 0 <= i < rest.len() implies #[trigger] rest[i] < 64 by {
                assert(free@.contains(rest@[i]));
            }
            assert(out_before + tag(sel@, piece) + placement_from(board, rest@, cs, f + 1)
                =~= out_before + (tag(sel@, piece) + placement_from(board, rest@, cs, f + 1)));
        }
        free = rest;
        f = f + 1;
    }
    proof {
        assert(out@ + Seq::<(u8, Color, Role)>::empty() =~= out@);
    }
    Some(out)
}

fn same_placement(a: &Vec<(u8, Color, Role)>, b: &Vec<(u8, Color, Role)>) -> (r: bool)
    ensures
        r == (a@ == b@),
{
    if a.len() != b.len() {
        return false;
    }
    let mut i: usize = 0;
    while i < a.len()
        invariant
            i <= a.len(),
            a.len() == b.len(),
            forall|j: int| 0 <= j < i ==> #[trigger] a[j] == b[j],
        decreases a.len() - i,
    {
        let (s1, c1, r1) = a[i];
        let (s2, c2, r2) = b[i];
        if !(s1 == s2 && c1 == c2 && r1 == r2) {
            return false;
        }
        i = i + 1;
    }
    proof {
        assert(a@ =~= b@);
    }
    true
}

/// Check that `rank` and `unrank` are inverses for the given position and
/// context: decode the position's address and compare with its placement.
/// The check holds exactly when the context matches the position and its
/// addresses fit a `PlacementAddress`; for the context read off the position,
/// exactly when its addresses fit.
pub fn roundtrip_check(pos: &Position, ctx: &PlacementContext) -> (ok: bool)
    ensures
        ok == (placement_matches(pos, ctx) && addresses_fit(ctx)),
        context_describes(pos, ctx) ==> ok == addresses_fit(ctx),
{
    proof {
        if context_describes(pos, ctx) {
            lemma_context_matches(pos, ctx);
        }
    }
    if pos.board.len() != 64 {
        return false;
    }
    let expected = match matched_placement(pos, ctx) {
        Some(p) => p,
        None => {
            return false;
        },
    };
    let table = pascal_table();
    let free0 = free_squares_exec(ctx.pawn_squares);
    proof {
        lemma_rank_bound(pos.board@, free0@, ctx.piece_counts@, 0);
    }
    if radices(&table, free0.len(), &ctx.piece_counts).is_none() {
        return false;
    }
    let a = rank(pos, ctx);
    let decoded = unrank(a, ctx);
    proof {
        lemma_unrank_rank(pos.board@, free0@, ctx.piece_counts@, 0);
    }
    same_placement(&decoded, &expected)
}

/// Law (exact addressability, one direction): a position whose families
/// match the context has an address, and decoding it gives the position's
/// placement back.
pub proof fn lemma_codec_roundtrip(pos: &Position, ctx: &PlacementContext)
    requires
        placement_matches(pos, ctx),
    ensures
        rank_spec(pos, ctx) < address_space(ctx),
        unrank_spec(rank_spec(pos, ctx), ctx) == placement_spec(pos, ctx),
{
    lemma_rank_bound(pos.board@, free_squares(ctx.pawn_squares), ctx.piece_counts@, 0);
    lemma_unrank_rank(pos.board@, free_squares(ctx.pawn_squares), ctx.piece_counts@, 0);
}


// ── Exact addressability, the other direction ────────────────────────────────

/// The piece that the placement list `pl` puts on square `s` (its last entry
/// for `s`), or `None`.
pub open spec fn lookup(pl: Seq<(u8, Color, Role)>, s: int) -> Option<Piece>
    decreases pl.len(),
{
    if pl.len() == 0 {
        None
    } else if pl.last().0 == s {
        Some(Piece { color: pl.last().1, role: pl.last().2 })
    } else {
        lookup(pl.drop_last(), s)
    }
}

/// The non-pawn piece on a square, if any.
pub open spec fn family_view(x: Option<Piece>) -> Option<Piece> {
    match x {
        Some(p) => if p.role == Role::Pawn { None } else { Some(p) },
        None => None,
    }
}

/// The board holding exactly the pieces of a placement list.
pub open spec fn board_of(pl: Seq<(u8, Color, Role)>) -> Seq<Option<Piece>> {
    Seq::new(64, |s: int| lookup(pl, s))
}

pub open spec fn no_dups(s: Seq<u8>) -> bool {
    forall|i: int, j: int| 0 <= i < j < s.len() ==> s[i] != s[j]
}

proof fn lemma_free_upto_sorted(pawns: u64, n: int)
    requires
        0 <= n <= 64,
    ensures
        forall|i: int, j: int| 0 <= i < j < free_upto(pawns, n).len() ==> free_upto(pawns, n)[i] < free_upto(pawns, n)[j],
    decreases n,
{
    if n > 0 {
        lemma_free_upto_sorted(pawns, n - 1);
        lemma_free_upto(pawns, n - 1);
    }
}

proof fn lemma_select_parts(free: Seq<u8>, m: Seq<bool>)
    requires
        m.len() == free.len(),
        no_dups(free),
    ensures
        no_dups(select(free, m)),
        no_dups(unselect(free, m)),
        forall|j: int| 0 <= j < free.len() ==> (select(free, m).contains(#[trigger] free[j]) <==> m[j]),
        forall|j: int| 0 <= j < free.len() ==> (unselect(free, m).contains(#[trigger] free[j]) <==> !m[j]),
        forall|x: u8| #[trigger] unselect(free, m).contains(x) ==> free.contains(x) && !select(free, m).contains(x),
    decreases free.len(),
{
    if free.len() > 0 {
        let fd = free.drop_last();
        let md = m.drop_last();
        let n = free.len() - 1;
        assert(no_dups(fd)) by {
            assert forall|i: int, j: int| 0 <= i < j < fd.len() implies fd[i] != fd[j] by {
                assert(fd[i] == free[i] && fd[j] == free[j]);
            }
        }
        lemma_select_parts(fd, md);
        lemma_select_len(fd, md);
        let x = free[n];
        assert(free.last() == x);
        assert(!fd.contains(x)) by {
            if fd.contains(x) {
                let k = choose|k: int| 0 <= k < fd.len() && fd[k] == x;
                assert(free[k] == x);
            }
        }
        assert(!select(fd, md).contains(x));
        assert(!unselect(fd, md).contains(x));
        let s = select(free, m);
        let u = unselect(free, m);
        assert forall|j: int| 0 <= j < free.len() implies (s.contains(#[trigger] free[j]) <==> m[j]) by {
            if j < n {
                assert(fd[j] == free[j]);
                assert(md[j] == m[j]);
                assert(free[j] != x);
                if m[n] {
                    assert(s == select(fd, md).push(x));
                    if s.contains(free[j]) {
                        let k = choose|k: int| 0 <= k < s.len() && s[k] == free[j];
                        if k < select(fd, md).len() {
                            assert(select(fd, md)[k] == free[j]);
                        }
                    }
                    if md[j] {
                        let k = choose|k: int| 0 <= k < select(fd, md).len() && select(fd, md)[k] == free[j];
                        assert(s[k] == free[j]);
                    }
                }
            } else {
                if m[n] {
                    assert(s[s.len() - 1] == x);
                }
            }
        }
        assert forall|j: int| 0 <= j < free.len() implies (u.contains(#[trigger] free[j]) <==> !m[j]) by {
            if j < n {
                assert(fd[j] == free[j]);
                assert(md[j] == m[j]);
                assert(free[j] != x);
                if !m[n] {
                    assert(u == unselect(fd, md).push(x));
                    if u.contains(free[j]) {
                        let k = choose|k: int| 0 <= k < u.len() && u[k] == free[j];
                        if k < unselect(fd, md).len() {
                            assert(unselect(fd, md)[k] == free[j]);
                        }
                    }
                    if !md[j] {
                        let k = choose|k: int| 0 <= k < unselect(fd, md).len() && unselect(fd, md)[k] == free[j];
                        assert(u[k] == free[j]);
                    }
                }
            } else {
                if !m[n] {
                    assert(u[u.len() - 1] == x);
                }
            }
        }
        lemma_select_len(free, m);
        assert forall|y: u8| #[trigger] u.contains(y) implies free.contains(y) && !s.contains(y) by {
            let k = choose|k: int| 0 <= k < u.len() && u[k] == y;
            assert(free.contains(u[k]));
            let j = choose|j: int| 0 <= j < free.len() && free[j] == y;
            assert(u.contains(free[j]));
        }
        assert(no_dups(s)) by {
            assert forall|i: int, j: int| 0 <= i < j < s.len() implies s[i] != s[j] by {
                if m[n] && j == s.len() - 1 {
                    assert(s[i] == select(fd, md)[i]);
                    assert(select(fd, md).contains(s[i]));
                } else {
                    assert(s[i] == select(fd, md)[i] && s[j] == select(fd, md)[j]);
                }
            }
        }
        assert(no_dups(u)) by {
            assert forall|i: int, j: int| 0 <= i < j < u.len() implies u[i] != u[j] by {
                if !m[n] && j == u.len() - 1 {
                    assert(u[i] == unselect(fd, md)[i]);
                    assert(unselect(fd, md).contains(u[i]));
                } else {
                    assert(u[i] == unselect(fd, md)[i] && u[j] == unselect(fd, md)[j]);
                }
            }
        }
    }
}

proof fn lemma_lookup_concat(a: Seq<(u8, Color, Role)>, b: Seq<(u8, Color, Role)>, s: int)
    ensures
        lookup(a + b, s) == if exists|i: int| 0 <= i < b.len() && b[i].0 == s { lookup(b, s) } else { lookup(a, s) },
    decreases b.len(),
{
    if b.len() == 0 {
        assert(a + b =~= a);
    } else {
        assert((a + b).drop_last() =~= a + b.drop_last());
        assert((a + b).last() == b.last());
        lemma_lookup_concat(a, b.drop_last(), s);
        if b.last().0 != s {
            if exists|i: int| 0 <= i < b.len() && b[i].0 == s {
                let i = choose|i: int| 0 <= i < b.len() && b[i].0 == s;
                assert(i < b.len() - 1);
                assert(b.drop_last()[i].0 == s);
            }
            if exists|i: int| 0 <= i < b.drop_last().len() && b.drop_last()[i].0 == s {
                let i = choose|i: int| 0 <= i < b.drop_last().len() && b.drop_last()[i].0 == s;
                assert(b[i].0 == s);
            }
        } else {
            assert(b[b.len() - 1].0 == s);
        }
    }
}

proof fn lemma_lookup_tag(sq: Seq<u8>, p: Piece, s: int)
    ensures
        lookup(tag(sq, p), s) == if exists|i: int| 0 <= i < sq.len() && sq[i] == s { Some(p) } else { None },
    decreases sq.len(),
{
    if sq.len() > 0 {
        assert(tag(sq, p).drop_last() =~= tag(sq.drop_last(), p));
        lemma_lookup_tag(sq.drop_last(), p, s);
        if exists|i: int| 0 <= i < sq.drop_last().len() && sq.drop_last()[i] == s {
            let i = choose|i: int| 0 <= i < sq.drop_last().len() && sq.drop_last()[i] == s;
            assert(sq[i] == s);
        }
        if exists|i: int| 0 <= i < sq.len() && sq[i] == s {
            let i = choose|i: int| 0 <= i < sq.len() && sq[i] == s;
            if i < sq.len() - 1 {
                assert(sq.drop_last()[i] == s);
            }
        }
    }
}

/// Every entry of a decoded placement sits on one of the squares it was
/// decoded over and holds a piece of family `f` or later.
proof fn lemma_unrank_entries(addr: nat, free: Seq<u8>, counts: Seq<u8>, f: int)
    requires
        counts.len() == 10,
        0 <= f <= 10,
        addr < radix(free.len(), counts, f),
    ensures
        forall|i: int| 0 <= i < unrank_from(addr, free, counts, f).len() ==> {
            let e = #[trigger] unrank_from(addr, free, counts, f)[i];
            &&& free.contains(e.0)
            &&& exists|g: int| f <= g < 10 && Piece { color: e.1, role: e.2 } == family_piece(g)
        },
    decreases 10 - f,
{
    if f < 10 {
        let c = counts[f] as nat;
        let n1 = (free.len() - counts[f]) as nat;
        lemma_radix_fit(free.len(), counts, f);
        lemma_radix_fit(n1, counts, f + 1);
        let p = radix(n1, counts, f + 1);
        let b = binom(free.len(), c);
        assert(addr / p < b) by (nonlinear_arith) requires addr < b * p, p >= 1;
        lemma_cunrank_crank(free.len(), c, addr / p);
        let m = cunrank(free.len(), c, addr / p);
        lemma_select_len(free, m);
        assert(addr % p < p) by (nonlinear_arith) requires p >= 1;
        lemma_unrank_entries(addr % p, unselect(free, m), counts, f + 1);
        let t = tag(select(free, m), family_piece(f));
        let r = unrank_from(addr % p, unselect(free, m), counts, f + 1);
        assert forall|i: int| 0 <= i < (t + r).len() implies {
            let e = #[trigger] (t + r)[i];
            &&& free.contains(e.0)
            &&& exists|g: int| f <= g < 10 && Piece { color: e.1, role: e.2 } == family_piece(g)
        } by {
            if i < t.len() {
                assert(free.contains(select(free, m)[i]));
                assert(Piece { color: t[i].1, role: t[i].2 } == family_piece(f));
            } else {
                let e = r[i - t.len()];
                assert(unselect(free, m).contains(e.0));
                let g = choose|g: int| f + 1 <= g < 10 && Piece { color: e.1, role: e.2 } == family_piece(g);
                assert(f <= g < 10);
            }
        }
    }
}

proof fn lemma_family_piece_distinct(f: int, g: int)
    requires
        0 <= f < 10,
        0 <= g < 10,
        f != g,
    ensures
        family_piece(f) != family_piece(g),
{
}

/// Law (exact addressability, the other direction): every address below the
/// mixed radix decodes to a placement whose families match their counts and
/// whose address it is, on any board that agrees with the placement on the
/// squares decoded over.
proof fn lemma_rank_unrank(addr: nat, free: Seq<u8>, counts: Seq<u8>, f: int, board: Seq<Option<Piece>>)
    requires
        counts.len() == 10,
        0 <= f <= 10,
        no_dups(free),
        addr < radix(free.len(), counts, f),
        forall|j: int| 0 <= j < free.len() ==> family_view(board[#[trigger] free[j] as int]) == lookup(unrank_from(addr, free, counts, f), free[j] as int),
    ensures
        counts_match(board, free, counts, f),
        rank_from(board, free, counts, f) == addr,
    decreases 10 - f,
{
    if f >= 10 {
        assert(radix(free.len(), counts, f) == 1);
    } else {
        let c = counts[f] as nat;
        let n1 = (free.len() - counts[f]) as nat;
        lemma_radix_fit(free.len(), counts, f);
        lemma_radix_fit(n1, counts, f + 1);
        let p = radix(n1, counts, f + 1);
        let b = binom(free.len(), c);
        assert(addr / p < b) by (nonlinear_arith) requires addr < b * p, p >= 1;
        lemma_cunrank_crank(free.len(), c, addr / p);
        let m = cunrank(free.len(), c, addr / p);
        lemma_select_len(free, m);
        lemma_select_parts(free, m);
        let rest = unselect(free, m);
        let sel = select(free, m);
        let a2 = addr % p;
        assert(addr % p < p) by (nonlinear_arith) requires p >= 1;
        let t = tag(sel, family_piece(f));
        let r = unrank_from(a2, rest, counts, f + 1);
        assert(unrank_from(addr, free, counts, f) == t + r);
        lemma_unrank_entries(a2, rest, counts, f + 1);
        // The board shows family f exactly on the decoded subset.
        assert forall|j: int| 0 <= j < free.len() implies #[trigger] family_mask(board, free, f)[j] == m[j] by {
            let sq = free[j];
            lemma_lookup_concat(t, r, sq as int);
            lemma_lookup_tag(sel, family_piece(f), sq as int);
            if m[j] {
                assert(sel.contains(sq));
                assert(!rest.contains(sq));
                if exists|i: int| 0 <= i < r.len() && r[i].0 == sq {
                    let i = choose|i: int| 0 <= i < r.len() && r[i].0 == sq;
                    assert(rest.contains(r[i].0));
                }
                let k = choose|k: int| 0 <= k < sel.len() && sel[k] == sq;
                assert(family_view(board[sq as int]) == Some(family_piece(f)));
                assert(board[sq as int] == Some(family_piece(f)));
            } else {
                assert(!sel.contains(sq));
                assert(!(exists|i: int| 0 <= i < sel.len() && sel[i] == sq));
                if exists|i: int| 0 <= i < r.len() && r[i].0 == sq {
                    lemma_lookup_in_entries(r, sq as int);
                    let i = choose|i: int| 0 <= i < r.len() && r[i].0 == sq && lookup(r, sq as int) == Some(Piece { color: r[i].1, role: r[i].2 });
                    let e = r[i];
                    let g = choose|g: int| f + 1 <= g < 10 && Piece { color: e.1, role: e.2 } == family_piece(g);
                    lemma_family_piece_distinct(f, g);
                }
                assert(family_view(board[sq as int]) != Some(family_piece(f)));
            }
        }
        assert(family_mask(board, free, f) =~= m);
        // The remaining squares agree with the rest of the placement.
        assert forall|j: int| 0 <= j < rest.len() implies family_view(board[#[trigger] rest[j] as int]) == lookup(r, rest[j] as int) by {
            let sq = rest[j];
            assert(rest.contains(sq));
            assert(free.contains(sq));
            let k = choose|k: int| 0 <= k < free.len() && free[k] == sq;
            assert(family_view(board[free[k] as int]) == lookup(t + r, sq as int));
            lemma_lookup_concat(t, r, sq as int);
            lemma_lookup_tag(sel, family_piece(f), sq as int);
            assert(!sel.contains(sq));
            assert(!(exists|i: int| 0 <= i < sel.len() && sel[i] == sq));
            if !(exists|i: int| 0 <= i < r.len() && r[i].0 == sq) {
                lemma_lookup_absent(r, sq as int);
            }
        }
        lemma_rank_unrank(a2, rest, counts, f + 1, board);
        vstd::arithmetic::div_mod::lemma_fundamental_div_mod(addr as int, p as int);
        assert(addr == (addr / p) * p + a2) by (nonlinear_arith) requires addr == p * (addr / p) + addr % p, a2 == addr % p;
    }
}

proof fn lemma_lookup_absent(pl: Seq<(u8, Color, Role)>, s: int)
    requires
        !(exists|i: int| 0 <= i < pl.len() && pl[i].0 == s),
    ensures
        lookup(pl, s) is None,
    decreases pl.len(),
{
    if pl.len() > 0 {
        assert(pl[pl.len() - 1] == pl.last());
        assert forall|i: int| 0 <= i < pl.drop_last().len() implies pl.drop_last()[i].0 != s by {
            assert(pl[i] == pl.drop_last()[i]);
        }
        lemma_lookup_absent(pl.drop_last(), s);
    }
}

proof fn lemma_lookup_in_entries(pl: Seq<(u8, Color, Role)>, s: int)
    requires
        exists|i: int| 0 <= i < pl.len() && pl[i].0 == s,
    ensures
        exists|i: int| 0 <= i < pl.len() && pl[i].0 == s && lookup(pl, s) == Some(Piece { color: pl[i].1, role: pl[i].2 }),
    decreases pl.len(),
{
    if pl.last().0 == s {
        assert(pl[pl.len() - 1] == pl.last());
    } else {
        let i = choose|i: int| 0 <= i < pl.len() && pl[i].0 == s;
        assert(i < pl.len() - 1);
        assert(pl.drop_last()[i].0 == s);
        lemma_lookup_in_entries(pl.drop_last(), s);
        let k = choose|k: int| 0 <= k < pl.drop_last().len() && pl.drop_last()[k].0 == s && lookup(pl.drop_last(), s) == Some(Piece { color: pl.drop_last()[k].1, role: pl.drop_last()[k].2 });
        assert(pl[k] == pl.drop_last()[k]);
    }
}

/// Law (exact addressability): every address of the context decodes to a
/// placement that matches the context and encodes back to the same address.
pub proof fn lemma_codec_exact(addr: nat, ctx: &PlacementContext)
    requires
        addr < address_space(ctx),
    ensures
        counts_match(board_of(unrank_spec(addr, ctx)), free_squares(ctx.pawn_squares), ctx.piece_counts@, 0),
        rank_from(board_of(unrank_spec(addr, ctx)), free_squares(ctx.pawn_squares), ctx.piece_counts@, 0) == addr,
{
    let free = free_squares(ctx.pawn_squares);
    lemma_free_upto_sorted(ctx.pawn_squares, 64);
    lemma_free_upto(ctx.pawn_squares, 64);
    assert(no_dups(free));
    let board = board_of(unrank_spec(addr, ctx));
    lemma_unrank_entries(addr, free, ctx.piece_counts@, 0);
    assert forall|j: int| 0 <= j < free.len() implies family_view(board[#[trigger] free[j] as int]) == lookup(unrank_spec(addr, ctx), free[j] as int) by {
        assert(free[j] < 64);
        let pl = unrank_spec(addr, ctx);
        if exists|i: int| 0 <= i < pl.len() && pl[i].0 == free[j] {
            lemma_lookup_in_entries(pl, free[j] as int);
            let i = choose|i: int| 0 <= i < pl.len() && pl[i].0 == free[j] && lookup(pl, free[j] as int) == Some(Piece { color: pl[i].1, role: pl[i].2 });
            let e = pl[i];
            let g = choose|g: int| 0 <= g < 10 && Piece { color: e.1, role: e.2 } == family_piece(g);
        } else {
            lemma_lookup_absent(pl, free[j] as int);
        }
    }
    lemma_rank_unrank(addr, free, ctx.piece_counts@, 0, board);
}


// ── What a placement lists ───────────────────────────────────────────────────

/// `x` is a piece of family `f` or a later one.
pub open spec fn family_at_least(x: Option<Piece>, f: int) -> bool {
    exists|g: int| f <= g < 10 && x == Some(#[trigger] family_piece(g))
}

proof fn lemma_non_pawn_is_family(p: Piece)
    requires
        p.role != Role::Pawn,
    ensures
        family_at_least(Some(p), 0),
{
    let g: int = match p.role {
        Role::King => 0int,
        Role::Queen => 2int,
        Role::Rook => 4int,
        Role::Bishop => 6int,
        _ => 8int,
    } + match p.color {
        Color::White => 0int,
        Color::Black => 1int,
    };
    assert(Some(p) == Some(family_piece(g)));
}

proof fn lemma_free_upto_members(pawns: u64, n: int)
    requires
        0 <= n <= 64,
    ensures
        forall|s: int| 0 <= s < n && !has_bit(pawns, s) ==> free_upto(pawns, n).contains(s as u8),
        forall|x: u8| #[trigger] free_upto(pawns, n).contains(x) ==> x < n && !has_bit(pawns, x as int),
    decreases n,
{
    if n > 0 {
        lemma_free_upto_members(pawns, n - 1);
        let f = free_upto(pawns, n - 1);
        let g = free_upto(pawns, n);
        assert forall|s: int| 0 <= s < n && !has_bit(pawns, s) implies g.contains(s as u8) by {
            if s < n - 1 {
                let k = choose|k: int| 0 <= k < f.len() && f[k] == s as u8;
                assert(g[k] == f[k]);
            } else {
                assert(g[g.len() - 1] == (n - 1) as u8);
            }
        }
        assert forall|x: u8| #[trigger] g.contains(x) implies x < n && !has_bit(pawns, x as int) by {
            let k = choose|k: int| 0 <= k < g.len() && g[k] == x;
            if k < f.len() {
                assert(f[k] == x);
                assert(f.contains(x));
            }
        }
    }
}

proof fn lemma_placement_lookup(board: Seq<Option<Piece>>, free: Seq<u8>, counts: Seq<u8>, f: int)
    requires
        0 <= f <= 10,
        no_dups(free),
    ensures
        forall|i: int| 0 <= i < placement_from(board, free, counts, f).len() ==>
            free.contains(#[trigger] placement_from(board, free, counts, f)[i].0),
        forall|i: int| 0 <= i < placement_from(board, free, counts, f).len() ==> {
            let e = #[trigger] placement_from(board, free, counts, f)[i];
            board[e.0 as int] == Some(Piece { color: e.1, role: e.2 }) && e.2 != Role::Pawn
        },
        forall|j: int| 0 <= j < free.len() ==> lookup(placement_from(board, free, counts, f), #[trigger] free[j] as int)
            == if family_at_least(board[free[j] as int], f) { board[free[j] as int] } else { None },
    decreases 10 - f,
{
    let pl = placement_from(board, free, counts, f);
    if f >= 10 {
        assert forall|j: int| 0 <= j < free.len() implies !family_at_least(board[#[trigger] free[j] as int], f) by {}
    } else {
        let m = family_mask(board, free, f);
        lemma_select_len(free, m);
        lemma_select_parts(free, m);
        let sel = select(free, m);
        let rest = unselect(free, m);
        let t = tag(sel, family_piece(f));
        let r = placement_from(board, rest, counts, f + 1);
        lemma_placement_lookup(board, rest, counts, f + 1);
        assert(pl == t + r);
        assert forall|i: int| 0 <= i < pl.len() implies free.contains(#[trigger] pl[i].0) by {
            if i < t.len() {
                assert(free.contains(sel[i]));
            } else {
                assert(r[i - t.len()] == pl[i]);
                assert(rest.contains(pl[i].0));
            }
        }
        assert forall|i: int| 0 <= i < pl.len() implies {
            let e = #[trigger] pl[i];
            board[e.0 as int] == Some(Piece { color: e.1, role: e.2 }) && e.2 != Role::Pawn
        } by {
            if i < t.len() {
                assert(free.contains(sel[i]));
                let j = choose|j: int| 0 <= j < free.len() && free[j] == sel[i];
                assert(sel.contains(free[j]));
                assert(m[j]);
            } else {
                assert(r[i - t.len()] == pl[i]);
            }
        }
        assert forall|j: int| 0 <= j < free.len() implies lookup(pl, #[trigger] free[j] as int)
            == if family_at_least(board[free[j] as int], f) { board[free[j] as int] } else { None } by {
            let sq = free[j];
            lemma_lookup_concat(t, r, sq as int);
            lemma_lookup_tag(sel, family_piece(f), sq as int);
            if m[j] {
                assert(board[sq as int] == Some(family_piece(f)));
                assert(sel.contains(sq));
                assert(!rest.contains(sq));
                if exists|i: int| 0 <= i < r.len() && r[i].0 == sq {
                    let i = choose|i: int| 0 <= i < r.len() && r[i].0 == sq;
                    assert(rest.contains(r[i].0));
                }
                let k = choose|k: int| 0 <= k < sel.len() && sel[k] == sq;
                assert(family_at_least(board[sq as int], f));
            } else {
                assert(board[sq as int] != Some(family_piece(f)));
                assert(!sel.contains(sq));
                assert(!(exists|i: int| 0 <= i < sel.len() && sel[i] == sq));
                assert(rest.contains(sq));
                let k = choose|k: int| 0 <= k < rest.len() && rest[k] == sq;
                assert(lookup(r, rest[k] as int) == if family_at_least(board[rest[k] as int], f + 1) { board[rest[k] as int] } else { None });
                if !(exists|i: int| 0 <= i < r.len() && r[i].0 == sq) {
                    lemma_lookup_absent(r, sq as int);
                }
                if family_at_least(board[sq as int], f) {
                    let g = choose|g: int| f <= g < 10 && board[sq as int] == Some(#[trigger] family_piece(g));
                    assert(g != f);
                    assert(family_at_least(board[sq as int], f + 1));
                }
                if family_at_least(board[sq as int], f + 1) {
                    let g = choose|g: int| f + 1 <= g < 10 && board[sq as int] == Some(#[trigger] family_piece(g));
                    assert(family_at_least(board[sq as int], f));
                }
            }
        }
    }
}

/// Law: the placement of a position lists exactly its non-pawn pieces on the
/// squares outside the pawn bitboard: each entry stands on such a square, and
/// on each such square the list shows the piece standing there, if it is not a
/// pawn.
pub proof fn lemma_placement_lists_pieces(pos: &Position, ctx: &PlacementContext)
    requires
        pos.board@.len() == 64,
    ensures
        forall|i: int| 0 <= i < placement_spec(pos, ctx).len() ==> {
            let e = #[trigger] placement_spec(pos, ctx)[i];
            &&& e.0 < 64
            &&& !has_bit(ctx.pawn_squares, e.0 as int)
            &&& e.2 != Role::Pawn
            &&& pos.board@[e.0 as int] == Some(Piece { color: e.1, role: e.2 })
        },
        forall|s: int| 0 <= s < 64 && !has_bit(ctx.pawn_squares, s) ==>
            lookup(placement_spec(pos, ctx), s) == family_view(#[trigger] pos.board@[s]),
{
    let free = free_squares(ctx.pawn_squares);
    lemma_free_upto_sorted(ctx.pawn_squares, 64);
    lemma_free_upto_members(ctx.pawn_squares, 64);
    assert(no_dups(free));
    lemma_placement_lookup(pos.board@, free, ctx.piece_counts@, 0);
    let pl = placement_spec(pos, ctx);
    assert forall|i: int| 0 <= i < pl.len() implies {
        let e = #[trigger] pl[i];
        &&& e.0 < 64
        &&& !has_bit(ctx.pawn_squares, e.0 as int)
        &&& e.2 != Role::Pawn
        &&& pos.board@[e.0 as int] == Some(Piece { color: e.1, role: e.2 })
    } by {
        assert(free.contains(pl[i].0));
        let j = choose|j: int| 0 <= j < free.len() && free[j] == pl[i].0;
    }
    assert forall|s: int| 0 <= s < 64 && !has_bit(ctx.pawn_squares, s) implies
        lookup(pl, s) == family_view(#[trigger] pos.board@[s]) by {
        assert(free.contains(s as u8));
        let j = choose|j: int| 0 <= j < free.len() && free[j] == s as u8;
        let x = pos.board@[s];
        match x {
            Some(p) => {
                if p.role != Role::Pawn {
                    lemma_non_pawn_is_family(p);
                } else {
                    if family_at_least(x, 0) {
                        let g = choose|g: int| 0 <= g < 10 && x == Some(#[trigger] family_piece(g));
                    }
                }
            },
            None => {},
        }
    }
}

/// Law (injectivity): two positions whose families match the context and
/// whose placements are equal have the same address.
pub proof fn lemma_rank_injective(p1: &Position, p2: &Position, ctx: &PlacementContext)
    requires
        placement_matches(p1, ctx),
        placement_matches(p2, ctx),
        placement_spec(p1, ctx) == placement_spec(p2, ctx),
    ensures
        rank_spec(p1, ctx) == rank_spec(p2, ctx),
{
    let free = free_squares(ctx.pawn_squares);
    let a = rank_spec(p1, ctx);
    lemma_codec_roundtrip(p1, ctx);
    lemma_free_upto_sorted(ctx.pawn_squares, 64);
    lemma_free_upto(ctx.pawn_squares, 64);
    assert(no_dups(free));
    lemma_placement_lookup(p2.board@, free, ctx.piece_counts@, 0);
    let pl = unrank_spec(a, ctx);
    assert(pl == placement_spec(p2, ctx));
    assert forall|j: int| 0 <= j < free.len() implies family_view(p2.board@[#[trigger] free[j] as int]) == lookup(pl, free[j] as int) by {
        let x = p2.board@[free[j] as int];
        match x {
            Some(p) => {
                if p.role != Role::Pawn {
                    lemma_non_pawn_is_family(p);
                } else {
                    if family_at_least(x, 0) {
                        let g = choose|g: int| 0 <= g < 10 && x == Some(#[trigger] family_piece(g));
                    }
                }
            },
            None => {},
        }
    }
    lemma_rank_unrank(a, free, ctx.piece_counts@, 0, p2.board@);
}


// ── A context read off its position ──────────────────────────────────────────

/// Number of squares below `n` that hold `p`.
pub open spec fn square_count(board: Seq<Option<Piece>>, p: Piece, n: int) -> nat
    decreases n,
{
    if n <= 0 {
        0
    } else {
        square_count(board, p, n - 1) + if board[n - 1] == Some(p) { 1nat } else { 0nat }
    }
}

/// The square holds a pawn.
pub open spec fn holds_pawn(x: Option<Piece>) -> bool {
    match x {
        Some(p) => p.role == Role::Pawn,
        None => false,
    }
}

/// The context is the one read off the position: its pawn bitboard marks
/// exactly the squares that hold a pawn, and each family count is the number
/// of that family's pieces on the board.
pub open spec fn context_describes(pos: &Position, ctx: &PlacementContext) -> bool {
    &&& pos.board@.len() == 64
    &&& forall|s: int| 0 <= s < 64 ==> (has_bit(ctx.pawn_squares, s) <==> holds_pawn(#[trigger] pos.board@[s]))
    &&& forall|f: int| 0 <= f < 10 ==> ctx.piece_counts@[f] == square_count(pos.board@, #[trigger] family_piece(f), 64)
}

/// Number of entries of `a` whose square holds `p`.
spec fn count_in(a: Seq<u8>, board: Seq<Option<Piece>>, p: Piece) -> nat
    decreases a.len(),
{
    if a.len() == 0 {
        0
    } else {
        count_in(a.drop_last(), board, p) + if board[a.last() as int] == Some(p) { 1nat } else { 0nat }
    }
}

proof fn lemma_mask_count(board: Seq<Option<Piece>>, a: Seq<u8>, f: int)
    ensures
        count_true(family_mask(board, a, f)) == count_in(a, board, family_piece(f)),
    decreases a.len(),
{
    if a.len() > 0 {
        assert(family_mask(board, a, f).drop_last() =~= family_mask(board, a.drop_last(), f));
        lemma_mask_count(board, a.drop_last(), f);
    }
}

proof fn lemma_count_in_none(a: Seq<u8>, board: Seq<Option<Piece>>, p: Piece)
    requires
        forall|i: int| 0 <= i < a.len() ==> board[#[trigger] a[i] as int] != Some(p),
    ensures
        count_in(a, board, p) == 0,
    decreases a.len(),
{
    if a.len() > 0 {
        assert(a[a.len() - 1] == a.last());
        assert forall|i: int| 0 <= i < a.drop_last().len() implies board[#[trigger] a.drop_last()[i] as int] != Some(p) by {
            assert(a.drop_last()[i] == a[i]);
        }
        lemma_count_in_none(a.drop_last(), board, p);
    }
}

proof fn lemma_count_in_remove(b: Seq<u8>, board: Seq<Option<Piece>>, p: Piece, k: int)
    requires
        0 <= k < b.len(),
    ensures
        count_in(b, board, p) == count_in(b.remove(k), board, p) + if board[b[k] as int] == Some(p) { 1nat } else { 0nat },
    decreases b.len(),
{
    if k == b.len() - 1 {
        assert(b.remove(k) =~= b.drop_last());
    } else {
        assert(b.remove(k).drop_last() =~= b.drop_last().remove(k));
        assert(b.remove(k).last() == b.last());
        assert(b.drop_last()[k] == b[k]);
        lemma_count_in_remove(b.drop_last(), board, p, k);
    }
}

/// Two duplicate-free square lists that contain the same squares holding `p`
/// count `p` alike.
proof fn lemma_count_in_transfer(a: Seq<u8>, b: Seq<u8>, board: Seq<Option<Piece>>, p: Piece)
    requires
        no_dups(a),
        no_dups(b),
        forall|x: u8| (#[trigger] a.contains(x) && board[x as int] == Some(p)) <==> (b.contains(x) && board[x as int] == Some(p)),
    ensures
        count_in(a, board, p) == count_in(b, board, p),
    decreases a.len(),
{
    if a.len() == 0 {
        assert forall|i: int| 0 <= i < b.len() implies board[#[trigger] b[i] as int] != Some(p) by {
            if board[b[i] as int] == Some(p) {
                assert(b.contains(b[i]));
                assert(a.contains(b[i]));
            }
        }
        lemma_count_in_none(b, board, p);
    } else {
        let x = a.last();
        let ad = a.drop_last();
        assert(a[a.len() - 1] == x);
        assert(!ad.contains(x)) by {
            if ad.contains(x) {
                let i = choose|i: int| 0 <= i < ad.len() && ad[i] == x;
                assert(a[i] == x);
            }
        }
        assert(no_dups(ad)) by {
            assert forall|i: int, j: int| 0 <= i < j < ad.len() implies ad[i] != ad[j] by {
                assert(a[i] == ad[i] && a[j] == ad[j]);
            }
        }
        assert forall|y: u8| #[trigger] ad.contains(y) implies a.contains(y) by {
            let i = choose|i: int| 0 <= i < ad.len() && ad[i] == y;
            assert(a[i] == y);
        }
        assert forall|y: u8| a.contains(y) && y != x implies #[trigger] ad.contains(y) by {
            let i = choose|i: int| 0 <= i < a.len() && a[i] == y;
            assert(ad[i] == y);
        }
        if board[x as int] != Some(p) {
            lemma_count_in_transfer(ad, b, board, p);
        } else {
            assert(a.contains(x));
            assert(b.contains(x));
            let k = choose|k: int| 0 <= k < b.len() && b[k] == x;
            let bd = b.remove(k);
            lemma_count_in_remove(b, board, p, k);
            assert(no_dups(bd)) by {
                assert forall|i: int, j: int| 0 <= i < j < bd.len() implies bd[i] != bd[j] by {
                    let i2 = if i < k { i } else { i + 1 };
                    let j2 = if j < k { j } else { j + 1 };
                    assert(bd[i] == b[i2] && bd[j] == b[j2]);
                }
            }
            assert forall|y: u8| #[trigger] bd.contains(y) implies b.contains(y) && y != x by {
                let i = choose|i: int| 0 <= i < bd.len() && bd[i] == y;
                let i2 = if i < k { i } else { i + 1 };
                assert(b[i2] == y);
            }
            assert forall|y: u8| b.contains(y) && y != x implies #[trigger] bd.contains(y) by {
                let i = choose|i: int| 0 <= i < b.len() && b[i] == y;
                assert(i != k);
                let i2 = if i < k { i } else { i - 1 };
                assert(bd[i2] == y);
            }
            lemma_count_in_transfer(ad, bd, board, p);
        }
    }
}

/// The squares `0..n` in order.
spec fn squares_below(n: int) -> Seq<u8> {
    Seq::new(n as nat, |i: int| i as u8)
}

proof fn lemma_count_squares_below(board: Seq<Option<Piece>>, p: Piece, n: int)
    requires
        0 <= n <= 64,
    ensures
        count_in(squares_below(n), board, p) == square_count(board, p, n),
    decreases n,
{
    if n > 0 {
        assert(squares_below(n).drop_last() =~= squares_below(n - 1));
        lemma_count_squares_below(board, p, n - 1);
    }
}

proof fn lemma_counts_match_from_board(board: Seq<Option<Piece>>, rest: Seq<u8>, counts: Seq<u8>, f: int)
    requires
        board.len() == 64,
        counts.len() == 10,
        0 <= f <= 10,
        no_dups(rest),
        forall|i: int| 0 <= i < rest.len() ==> #[trigger] rest[i] < 64,
        forall|x: u8| x < 64 && family_at_least(board[x as int], f) ==> #[trigger] rest.contains(x),
        forall|g: int| f <= g < 10 ==> counts[g] == square_count(board, #[trigger] family_piece(g), 64),
    ensures
        counts_match(board, rest, counts, f),
    decreases 10 - f,
{
    if f < 10 {
        let p = family_piece(f);
        let m = family_mask(board, rest, f);
        let all = squares_below(64);
        lemma_mask_count(board, rest, f);
        assert(no_dups(all));
        assert forall|x: u8| (#[trigger] rest.contains(x) && board[x as int] == Some(p)) <==> (all.contains(x) && board[x as int] == Some(p)) by {
            if rest.contains(x) {
                let i = choose|i: int| 0 <= i < rest.len() && rest[i] == x;
                assert(rest[i] < 64);
                assert(all[x as int] == x);
            }
            if all.contains(x) && board[x as int] == Some(p) {
                let i = choose|i: int| 0 <= i < all.len() && all[i] == x;
                assert(x < 64);
                assert(family_at_least(board[x as int], f));
            }
        }
        lemma_count_in_transfer(rest, all, board, p);
        lemma_count_squares_below(board, p, 64);
        lemma_select_len(rest, m);
        lemma_select_parts(rest, m);
        let rest2 = unselect(rest, m);
        assert forall|i: int| 0 <= i < rest2.len() implies #[trigger] rest2[i] < 64 by {
            assert(rest.contains(rest2[i]));
            let j = choose|j: int| 0 <= j < rest.len() && rest[j] == rest2[i];
        }
        assert forall|x: u8| x < 64 && family_at_least(board[x as int], f + 1) implies #[trigger] rest2.contains(x) by {
            let g = choose|g: int| f + 1 <= g < 10 && board[x as int] == Some(#[trigger] family_piece(g));
            assert(family_at_least(board[x as int], f));
            assert(rest.contains(x));
            let j = choose|j: int| 0 <= j < rest.len() && rest[j] == x;
            lemma_family_piece_distinct(f, g);
            assert(!m[j]);
        }
        lemma_counts_match_from_board(board, rest2, counts, f + 1);
    }
}

/// Law: a context read off its position matches it, so the position has an
/// address in that context.
pub proof fn lemma_context_matches(pos: &Position, ctx: &PlacementContext)
    requires
        context_describes(pos, ctx),
    ensures
        placement_matches(pos, ctx),
{
    let free = free_squares(ctx.pawn_squares);
    lemma_free_upto_sorted(ctx.pawn_squares, 64);
    lemma_free_upto(ctx.pawn_squares, 64);
    lemma_free_upto_members(ctx.pawn_squares, 64);
    assert(no_dups(free));
    assert forall|x: u8| x < 64 && family_at_least(pos.board@[x as int], 0) implies #[trigger] free.contains(x) by {
        let g = choose|g: int| 0 <= g < 10 && pos.board@[x as int] == Some(#[trigger] family_piece(g));
        assert(!holds_pawn(pos.board@[x as int]));
        assert(!has_bit(ctx.pawn_squares, x as int));
        assert(free.contains((x as int) as u8));
    }
    lemma_counts_match_from_board(pos.board@, free, ctx.piece_counts@, 0);
}

/// Law: decoding the address of a position in the context read off it lists
/// exactly the position's non-pawn pieces: each entry is a non-pawn piece on
/// its square, and each square shows its non-pawn piece, if any.
pub proof fn lemma_decode_lists_position(pos: &Position, ctx: &PlacementContext)
    requires
        context_describes(pos, ctx),
    ensures
        rank_spec(pos, ctx) < address_space(ctx),
        forall|i: int| 0 <= i < unrank_spec(rank_spec(pos, ctx), ctx).len() ==> {
            let e = #[trigger] unrank_spec(rank_spec(pos, ctx), ctx)[i];
            &&& e.0 < 64
            &&& e.2 != Role::Pawn
            &&& pos.board@[e.0 as int] == Some(Piece { color: e.1, role: e.2 })
        },
        forall|s: int| 0 <= s < 64 ==> lookup(unrank_spec(rank_spec(pos, ctx), ctx), s) == family_view(#[trigger] pos.board@[s]),
{
    lemma_context_matches(pos, ctx);
    lemma_codec_roundtrip(pos, ctx);
    lemma_placement_lists_pieces(pos, ctx);
    let pl = placement_spec(pos, ctx);
    assert forall|s: int| 0 <= s < 64 implies lookup(pl, s) == family_view(#[trigger] pos.board@[s]) by {
        if has_bit(ctx.pawn_squares, s) {
            assert(holds_pawn(pos.board@[s]));
            if exists|i: int| 0 <= i < pl.len() && pl[i].0 == s {
                let i = choose|i: int| 0 <= i < pl.len() && pl[i].0 == s;
                let e = pl[i];
                assert(!has_bit(ctx.pawn_squares, e.0 as int));
            }
            lemma_lookup_absent(pl, s);
        }
    }
}

} // verus!
