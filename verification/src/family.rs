use vstd::prelude::*;

verus! {

/// One entry of the canonical band table.
///
/// Band centers are multiples of one half, so they are held exactly in
/// half-point units: `center_halves == 2 * center`.
#[derive(Debug, Clone, Copy, PartialEq, Eq, Structural)]
pub struct Band {
    pub index: u8,
    /// Inclusive lower bound of the band's piece-value range.
    pub lo: u8,
    /// Inclusive upper bound of the band's piece-value range.
    pub hi: u8,
    /// Representative center value, in half points.
    pub center_halves: u8,
    /// Semantic width of the band.
    pub span: u8,
}

pub open spec fn band_lo(i: int) -> int {
    if i == 0 { 0 } else if i == 1 { 1 } else if i == 2 { 4 } else if i == 3 { 6 }
    else if i == 4 { 9 } else if i == 5 { 12 } else if i == 6 { 16 } else if i == 7 { 21 }
    else { 27 }
}

pub open spec fn band_hi(i: int) -> int {
    if i == 0 { 0 } else if i == 1 { 3 } else if i == 2 { 5 } else if i == 3 { 8 }
    else if i == 4 { 11 } else if i == 5 { 15 } else if i == 6 { 20 } else if i == 7 { 26 }
    else { 31 }
}

/// Band center in half points (0.0, 2.0, 4.5, 7.0, 10.0, 13.5, 18.0, 23.5, 29.0).
pub open spec fn band_center_halves(i: int) -> int {
    if i == 0 { 0 } else if i == 1 { 4 } else if i == 2 { 9 } else if i == 3 { 14 }
    else if i == 4 { 20 } else if i == 5 { 27 } else if i == 6 { 36 } else if i == 7 { 47 }
    else { 58 }
}

pub open spec fn band_span(i: int) -> int {
    if i == 0 { 0 } else if i == 1 { 2 } else if i == 2 { 1 } else if i == 3 { 2 }
    else if i == 4 { 2 } else if i == 5 { 3 } else if i == 6 { 4 } else if i == 7 { 5 }
    else { 4 }
}

pub open spec fn band_spec(i: int) -> Band {
    Band {
        index: i as u8,
        lo: band_lo(i) as u8,
        hi: band_hi(i) as u8,
        center_halves: band_center_halves(i) as u8,
        span: band_span(i) as u8,
    }
}

/// The canonical band table entry with index `i`.
pub fn band(i: usize) -> (b: Band)
    requires
        i < 9,
    ensures
        b == band_spec(i as int),
{
    match i {
        0 => Band { index: 0, lo: 0, hi: 0, center_halves: 0, span: 0 },
        1 => Band { index: 1, lo: 1, hi: 3, center_halves: 4, span: 2 },
        2 => Band { index: 2, lo: 4, hi: 5, center_halves: 9, span: 1 },
        3 => Band { index: 3, lo: 6, hi: 8, center_halves: 14, span: 2 },
        4 => Band { index: 4, lo: 9, hi: 11, center_halves: 20, span: 2 },
        5 => Band { index: 5, lo: 12, hi: 15, center_halves: 27, span: 3 },
        6 => Band { index: 6, lo: 16, hi: 20, center_halves: 36, span: 4 },
        7 => Band { index: 7, lo: 21, hi: 26, center_halves: 47, span: 5 },
        _ => Band { index: 8, lo: 27, hi: 31, center_halves: 58, span: 4 },
    }
}

/// The whole canonical band table, indexed by band index 0..=8.
pub fn band_table() -> (t: [Band; 9])
    ensures
        forall|i: int| 0 <= i < 9 ==> #[trigger] t[i] == band_spec(i),
{
    [band(0), band(1), band(2), band(3), band(4), band(5), band(6), band(7), band(8)]
}

/// Law: every band's span is its width `hi - lo`, and the bands tile
/// `0..=31` in increasing order without gaps or overlaps.
pub proof fn lemma_band_table_consistent(i: int)
    requires
        0 <= i < 9,
    ensures
        band_span(i) == band_hi(i) - band_lo(i),
        band_lo(i) <= band_hi(i),
        i == 0 ==> band_lo(i) == 0,
        i == 8 ==> band_hi(i) == 31,
        i < 8 ==> band_lo(i + 1) == band_hi(i) + 1,
        i < 8 ==> band_center_halves(i) < band_center_halves(i + 1),
{
}

/// The index of the band whose range holds the non-pawn value `v`.
pub open spec fn band_index_of(v: int) -> int {
    if v == 0 { 0 } else if v <= 3 { 1 } else if v <= 5 { 2 } else if v <= 8 { 3 }
    else if v <= 11 { 4 } else if v <= 15 { 5 } else if v <= 20 { 6 } else if v <= 26 { 7 }
    else { 8 }
}

/// Map a non-pawn piece-value sum (0..=31) to its band index.
pub fn band_of(wnp_value: u8) -> (b: u8)
    requires
        wnp_value <= 31,
    ensures
        b == band_index_of(wnp_value as int),
        b < 9,
        band_lo(b as int) <= wnp_value <= band_hi(b as int),
{
    match wnp_value {
        0 => 0,
        1..=3 => 1,
        4..=5 => 2,
        6..=8 => 3,
        9..=11 => 4,
        12..=15 => 5,
        16..=20 => 6,
        21..=26 => 7,
        _ => 8,
    }
}

/// Law: the band that holds a value is unique, and `band_of` is monotone.
pub proof fn lemma_band_of_unique_monotone(v: int, w: int, b: int)
    requires
        0 <= v <= w <= 31,
        0 <= b < 9,
    ensures
        band_lo(b) <= v <= band_hi(b) <==> b == band_index_of(v),
        band_index_of(v) <= band_index_of(w),
{
}

/// Family key: material composition binned by the band table.
///
/// `wnp_band`, `bnp_band` in 0..=8; `wp`, `bp` in 0..=8.
#[derive(Debug, Clone, Copy, PartialEq, Eq, Hash, Structural)]
pub struct FamilyKey {
    pub wnp_band: u8,
    pub bnp_band: u8,
    pub wp: u8,
    pub bp: u8,
}

pub open spec fn key_of_index(i: int) -> FamilyKey {
    FamilyKey {
        wnp_band: (i / 729) as u8,
        bnp_band: ((i % 729) / 81) as u8,
        wp: ((i % 81) / 9) as u8,
        bp: (i % 9) as u8,
    }
}

impl FamilyKey {
    /// All four components are within their documented ranges.
    pub open spec fn valid(self) -> bool {
        self.wnp_band <= 8 && self.bnp_band <= 8 && self.wp <= 8 && self.bp <= 8
    }

    pub open spec fn linear_index(self) -> int {
        self.wnp_band * 729 + self.bnp_band * 81 + self.wp * 9 + self.bp
    }

    /// Linear index into the 6561-entry family table (wnp_band major, bp minor).
    pub fn index(self) -> (i: usize)
        ensures
            i == self.linear_index(),
    {
        self.wnp_band as usize * 729 + self.bnp_band as usize * 81 + self.wp as usize * 9
            + self.bp as usize
    }

    /// Reconstruct a `FamilyKey` from its linear index.
    pub fn from_index(idx: usize) -> (k: Self)
        requires
            idx < 6561,
        ensures
            k == key_of_index(idx as int),
            k.valid(),
    {
        FamilyKey {
            wnp_band: (idx / 729) as u8,
            bnp_band: ((idx % 729) / 81) as u8,
            wp: ((idx % 81) / 9) as u8,
            bp: (idx % 9) as u8,
        }
    }
}

/// Law: `index` and `from_index` are inverse bijections between valid keys
/// and `0..6561`.
pub proof fn lemma_index_roundtrip(k: FamilyKey)
    requires
        k.valid(),
    ensures
        0 <= k.linear_index() < 6561,
        key_of_index(k.linear_index()) == k,
{
    let i = k.linear_index();
    assert(i / 729 == k.wnp_band) by (nonlinear_arith)
        requires i == k.wnp_band * 729 + k.bnp_band * 81 + k.wp * 9 + k.bp, k.valid();
    assert(i % 729 == k.bnp_band * 81 + k.wp * 9 + k.bp) by (nonlinear_arith)
        requires i == k.wnp_band * 729 + k.bnp_band * 81 + k.wp * 9 + k.bp, k.valid();
    assert(i % 81 == k.wp * 9 + k.bp) by (nonlinear_arith)
        requires i == k.wnp_band * 729 + k.bnp_band * 81 + k.wp * 9 + k.bp, k.valid();
}

/// Law: every index below 6561 names a valid key whose index it is.
pub proof fn lemma_from_index_roundtrip(i: int)
    requires
        0 <= i < 6561,
    ensures
        key_of_index(i).valid(),
        key_of_index(i).linear_index() == i,
{
    let k = key_of_index(i);
    assert(k.linear_index() == i) by (nonlinear_arith)
        requires 0 <= i < 6561, k == key_of_index(i);
}


/// A starting-limit non-pawn piece-count tuple `(queens, rooks, bishops, knights)`
/// with queens in 0..=1 and the others in 0..=2.
pub type Composition = (u8, u8, u8, u8);

/// The `t`-th starting-limit tuple, in the order queens, rooks, bishops, knights
/// (queens outermost): `t == 27 * queens + 9 * rooks + 3 * bishops + knights`.
pub open spec fn composition_at(t: int) -> Composition {
    ((t / 27) as u8, ((t / 9) % 3) as u8, ((t / 3) % 3) as u8, (t % 3) as u8)
}

/// Piece-value sum with Q=9, R=5, B=3, N=3.
pub open spec fn np_value(c: Composition) -> int {
    9 * c.0 + 5 * c.1 + 3 * c.2 + 3 * c.3
}

pub open spec fn in_band(band: int, c: Composition) -> bool {
    band_lo(band) <= np_value(c) <= band_hi(band)
}

/// The tuples among the first `t` whose value lies in `band`, in enumeration order.
pub open spec fn band_compositions_upto(band: int, t: int) -> Seq<Composition>
    decreases t,
{
    if t <= 0 {
        Seq::empty()
    } else {
        let s = band_compositions_upto(band, t - 1);
        if in_band(band, composition_at(t - 1)) {
            s.push(composition_at(t - 1))
        } else {
            s
        }
    }
}

/// All 54 starting-limit tuples whose value lies in `band`.
pub open spec fn band_compositions(band: int) -> Seq<Composition> {
    band_compositions_upto(band, 54)
}

/// Number of elements of `s` that satisfy `p`.
pub open spec fn count_where<A>(s: Seq<A>, p: spec_fn(A) -> bool) -> nat
    decreases s.len(),
{
    if s.len() == 0 {
        0
    } else {
        count_where(s.drop_last(), p) + if p(s.last()) { 1nat } else { 0nat }
    }
}

/// Sum of the rook counts of the tuples in `s`.
pub open spec fn rook_sum(s: Seq<Composition>) -> nat
    decreases s.len(),
{
    if s.len() == 0 {
        0
    } else {
        rook_sum(s.drop_last()) + s.last().1 as nat
    }
}

proof fn lemma_push_drop_last<A>(s: Seq<A>, x: A)
    ensures
        s.push(x).drop_last() == s,
        s.push(x).last() == x,
        s.push(x).len() == s.len() + 1,
{
    assert(s.push(x).drop_last() =~= s);
}

proof fn lemma_composition_at(q: int, r: int, b: int, n: int)
    requires
        0 <= q <= 1, 0 <= r <= 2, 0 <= b <= 2, 0 <= n <= 2,
    ensures
        composition_at(27 * q + 9 * r + 3 * b + n) == (q as u8, r as u8, b as u8, n as u8),
{
    let t = 27 * q + 9 * r + 3 * b + n;
    assert(t / 27 == q) by (nonlinear_arith)
        requires t == 27 * q + 9 * r + 3 * b + n, 0 <= q <= 1, 0 <= r <= 2, 0 <= b <= 2, 0 <= n <= 2;
    assert(t / 9 == 3 * q + r) by (nonlinear_arith)
        requires t == 27 * q + 9 * r + 3 * b + n, 0 <= q <= 1, 0 <= r <= 2, 0 <= b <= 2, 0 <= n <= 2;
    assert(t / 3 == 9 * q + 3 * r + b) by (nonlinear_arith)
        requires t == 27 * q + 9 * r + 3 * b + n, 0 <= q <= 1, 0 <= r <= 2, 0 <= b <= 2, 0 <= n <= 2;
    assert((3 * q + r) % 3 == r) by (nonlinear_arith)
        requires 0 <= q <= 1, 0 <= r <= 2;
    assert((9 * q + 3 * r + b) % 3 == b) by (nonlinear_arith)
        requires 0 <= q <= 1, 0 <= r <= 2, 0 <= b <= 2;
    assert(t % 3 == n) by (nonlinear_arith)
        requires t == 27 * q + 9 * r + 3 * b + n, 0 <= n <= 2;
}

/// Decode the `t`-th tuple (`t < 54`).
fn composition_exec(t: u8) -> (c: Composition)
    requires
        t < 54,
    ensures
        c == composition_at(t as int),
        c.0 <= 1 && c.1 <= 2 && c.2 <= 2 && c.3 <= 2,
{
    let q = t / 27;
    let r = (t / 9) % 3;
    let b = (t / 3) % 3;
    let n = t % 3;
    proof {
        let ti = t as int;
        assert(ti / 27 <= 1);
    }
    (q, r, b, n)
}

fn np_value_exec(c: Composition) -> (v: u8)
    requires
        c.0 <= 1 && c.1 <= 2 && c.2 <= 2 && c.3 <= 2,
    ensures
        v == np_value(c),
        v <= 31,
{
    9 * c.0 + 5 * c.1 + 3 * c.2 + 3 * c.3
}

proof fn lemma_composition_bounds(t: int)
    requires
        0 <= t < 54,
    ensures
        composition_at(t).0 <= 1,
        composition_at(t).1 <= 2,
        composition_at(t).2 <= 2,
        composition_at(t).3 <= 2,
{
    assert(t / 27 <= 1) by (nonlinear_arith) requires 0 <= t < 54;
    assert(0 <= (t / 9) % 3 <= 2) by (nonlinear_arith) requires 0 <= t < 54;
    assert(0 <= (t / 3) % 3 <= 2) by (nonlinear_arith) requires 0 <= t < 54;
    assert(0 <= t % 3 <= 2) by (nonlinear_arith) requires 0 <= t < 54;
    assert(0 <= t / 27) by (nonlinear_arith) requires 0 <= t < 54;
}

pub proof fn lemma_band_compositions_len(band: int, t: int)
    requires
        0 <= t <= 54,
    ensures
        band_compositions_upto(band, t).len() <= t,
        forall|i: int| 0 <= i < band_compositions_upto(band, t).len() ==> {
            let c = #[trigger] band_compositions_upto(band, t)[i];
            c.0 <= 1 && c.1 <= 2 && c.2 <= 2 && c.3 <= 2 && in_band(band, c)
        },
    decreases t,
{
    if t > 0 {
        lemma_band_compositions_len(band, t - 1);
        lemma_composition_bounds(t - 1);
    }
}

/// Count of starting-limit tuples whose value falls in the band's range.
pub fn wnp_band_composition_count(band_idx: u8) -> (n: u32)
    requires
        band_idx < 9,
    ensures
        n == band_compositions(band_idx as int).len(),
{
    let b = band(band_idx as usize);
    let mut n: u32 = 0;
    let mut t: u8 = 0;
    while t < 54
        invariant
            t <= 54,
            b == band_spec(band_idx as int),
            n == band_compositions_upto(band_idx as int, t as int).len(),
        decreases 54 - t,
    {
        proof {
            lemma_band_compositions_len(band_idx as int, t as int);
        }
        let c = composition_exec(t);
        let v = np_value_exec(c);
        if v >= b.lo && v <= b.hi {
            proof {
                lemma_push_drop_last(band_compositions_upto(band_idx as int, t as int), c);
            }
            n = n + 1;
        }
        t = t + 1;
    }
    n
}


/// Per-band statistics over the starting-limit tuples in a band, held as exact
/// ratios over `count`: P(queen present) = `queen_count / count`,
/// E[rook count] = `rook_sum / count`, P(rookless and at least two minors) =
/// `minor_count / count`.
#[derive(Debug, Clone, Copy, PartialEq, Eq, Structural)]
pub struct BandCompositionStats {
    pub count: u32,
    pub queen_count: u32,
    pub rook_sum: u32,
    pub minor_count: u32,
}

pub open spec fn has_queen() -> spec_fn(Composition) -> bool {
    |c: Composition| c.0 >= 1
}

pub open spec fn rookless_minor_pair() -> spec_fn(Composition) -> bool {
    |c: Composition| c.1 == 0 && c.2 + c.3 >= 2
}

pub open spec fn band_stats_spec(band: int) -> BandCompositionStats {
    let s = band_compositions(band);
    BandCompositionStats {
        count: s.len() as u32,
        queen_count: count_where(s, has_queen()) as u32,
        rook_sum: rook_sum(s) as u32,
        minor_count: count_where(s, rookless_minor_pair()) as u32,
    }
}

proof fn lemma_count_where_le<A>(s: Seq<A>, p: spec_fn(A) -> bool)
    ensures
        count_where(s, p) <= s.len(),
    decreases s.len(),
{
    if s.len() > 0 {
        lemma_count_where_le(s.drop_last(), p);
    }
}

proof fn lemma_rook_sum_le(s: Seq<Composition>)
    requires
        forall|i: int| 0 <= i < s.len() ==> (#[trigger] s[i]).1 <= 2,
    ensures
        rook_sum(s) <= 2 * s.len(),
    decreases s.len(),
{
    if s.len() > 0 {
        lemma_rook_sum_le(s.drop_last());
    }
}

/// The starting-limit tuples of a band, in enumeration order.
fn band_compositions_exec(band_idx: u8) -> (v: Vec<Composition>)
    requires
        band_idx < 9,
    ensures
        v@ == band_compositions(band_idx as int),
        v.len() <= 54,
{
    let b = band(band_idx as usize);
    let mut v: Vec<Composition> = Vec::new();
    let mut t: u8 = 0;
    while t < 54
        invariant
            t <= 54,
            b == band_spec(band_idx as int),
            v@ == band_compositions_upto(band_idx as int, t as int),
        decreases 54 - t,
    {
        let c = composition_exec(t);
        let val = np_value_exec(c);
        if val >= b.lo && val <= b.hi {
            v.push(c);
        }
        t = t + 1;
    }
    proof {
        lemma_band_compositions_len(band_idx as int, 54);
    }
    v
}

/// Composition statistics of one band.
pub fn band_stats(band_idx: u8) -> (st: BandCompositionStats)
    requires
        band_idx < 9,
    ensures
        st == band_stats_spec(band_idx as int),
{
    let comps = band_compositions_exec(band_idx);
    let ghost s = comps@;
    let mut count: u32 = 0;
    let mut queen_count: u32 = 0;
    let mut rook_total: u32 = 0;
    let mut minor_count: u32 = 0;
    let mut i: usize = 0;
    proof {
        lemma_band_compositions_len(band_idx as int, 54);
    }
    while i < comps.len()
        invariant
            i <= comps.len(),
            comps@ == s,
            s == band_compositions(band_idx as int),
            s.len() <= 54,
            forall|k: int| 0 <= k < s.len() ==> {
                let c = #[trigger] s[k];
                c.0 <= 1 && c.1 <= 2 && c.2 <= 2 && c.3 <= 2
            },
            count == i,
            queen_count == count_where(s.take(i as int), has_queen()),
            rook_total == rook_sum(s.take(i as int)),
            minor_count == count_where(s.take(i as int), rookless_minor_pair()),
        decreases comps.len() - i,
    {
        let c = comps[i];
        proof {
            let t = s.take(i as int);
            assert(s.take(i + 1) =~= t.push(c));
            lemma_push_drop_last(t, c);
            lemma_count_where_le(t, has_queen());
            lemma_count_where_le(t, rookless_minor_pair());
            assert forall|k: int| 0 <= k < t.len() implies (#[trigger] t[k]).1 <= 2 by {
                assert(t[k] == s[k]);
            }
            lemma_rook_sum_le(t);
        }
        count = count + 1;
        if c.0 >= 1 {
            queen_count = queen_count + 1;
        }
        rook_total = rook_total + c.1 as u32;
        if c.1 == 0 && c.2 + c.3 >= 2 {
            minor_count = minor_count + 1;
        }
        i = i + 1;
    }
    proof {
        assert(s.take(s.len() as int) =~= s);
    }
    BandCompositionStats { count, queen_count, rook_sum: rook_total, minor_count }
}

/// Composition statistics for all nine bands, indexed by band index.
pub fn band_composition_stats() -> (t: [BandCompositionStats; 9])
    ensures
        forall|i: int| 0 <= i < 9 ==> #[trigger] t[i] == band_stats_spec(i),
{
    [
        band_stats(0),
        band_stats(1),
        band_stats(2),
        band_stats(3),
        band_stats(4),
        band_stats(5),
        band_stats(6),
        band_stats(7),
        band_stats(8),
    ]
}

/// Number of pairs `(w, b)` with `b` drawn from `bs` that satisfy `p(w, b)`.
pub open spec fn row_count(w: Composition, bs: Seq<Composition>, p: spec_fn(Composition, Composition) -> bool) -> nat
    decreases bs.len(),
{
    if bs.len() == 0 {
        0
    } else {
        row_count(w, bs.drop_last(), p) + if p(w, bs.last()) { 1nat } else { 0nat }
    }
}

/// Number of pairs in `ws` x `bs` that satisfy `p`.
pub open spec fn pair_count(ws: Seq<Composition>, bs: Seq<Composition>, p: spec_fn(Composition, Composition) -> bool) -> nat
    decreases ws.len(),
{
    if ws.len() == 0 {
        0
    } else {
        pair_count(ws.drop_last(), bs, p) + row_count(ws.last(), bs, p)
    }
}

/// At least one queen on the board.
pub open spec fn queen_any() -> spec_fn(Composition, Composition) -> bool {
    |w: Composition, b: Composition| w.0 + b.0 > 0
}

/// At least one rook on the board.
pub open spec fn rook_any() -> spec_fn(Composition, Composition) -> bool {
    |w: Composition, b: Composition| w.1 + b.1 > 0
}

/// At least three minor pieces on the board.
pub open spec fn minor_rich() -> spec_fn(Composition, Composition) -> bool {
    |w: Composition, b: Composition| w.2 + w.3 + b.2 + b.3 >= 3
}

/// Some side keeps the bishop pair.
pub open spec fn bishop_pair_any() -> spec_fn(Composition, Composition) -> bool {
    |w: Composition, b: Composition| w.2 == 2 || b.2 == 2
}

/// Heavy-piece value exceeds minor-piece value.
pub open spec fn heavy_dominant() -> spec_fn(Composition, Composition) -> bool {
    |w: Composition, b: Composition| 5 * (w.1 + b.1) + 9 * (w.0 + b.0) > 3 * (w.2 + w.3 + b.2 + b.3)
}

/// The integer part of the strategic entropy of a family: the number of
/// admissible `(white tuple, black tuple)` realizations and, for each of the
/// five strategic indicators, how many realizations satisfy it.
#[derive(Debug, Clone, Copy, PartialEq, Eq, Structural)]
pub struct StrategicCounts {
    pub pairs: u32,
    pub queen_any: u32,
    pub rook_any: u32,
    pub minor_rich: u32,
    pub bishop_pair: u32,
    pub heavy_dominant: u32,
}

pub open spec fn strategic_counts_spec(wnp_band: int, bnp_band: int) -> StrategicCounts {
    let ws = band_compositions(wnp_band);
    let bs = band_compositions(bnp_band);
    StrategicCounts {
        pairs: (ws.len() * bs.len()) as u32,
        queen_any: pair_count(ws, bs, queen_any()) as u32,
        rook_any: pair_count(ws, bs, rook_any()) as u32,
        minor_rich: pair_count(ws, bs, minor_rich()) as u32,
        bishop_pair: pair_count(ws, bs, bishop_pair_any()) as u32,
        heavy_dominant: pair_count(ws, bs, heavy_dominant()) as u32,
    }
}

proof fn lemma_row_count_le(w: Composition, bs: Seq<Composition>, p: spec_fn(Composition, Composition) -> bool)
    ensures
        row_count(w, bs, p) <= bs.len(),
    decreases bs.len(),
{
    if bs.len() > 0 {
        lemma_row_count_le(w, bs.drop_last(), p);
    }
}

proof fn lemma_pair_count_le(ws: Seq<Composition>, bs: Seq<Composition>, p: spec_fn(Composition, Composition) -> bool)
    ensures
        pair_count(ws, bs, p) <= ws.len() * bs.len(),
    decreases ws.len(),
{
    if ws.len() > 0 {
        lemma_pair_count_le(ws.drop_last(), bs, p);
        lemma_row_count_le(ws.last(), bs, p);
        assert((ws.len() - 1) * bs.len() + bs.len() == ws.len() * bs.len()) by (nonlinear_arith);
    }
}

proof fn lemma_pair_step(ws: Seq<Composition>, bs: Seq<Composition>, i: int, j: int, p: spec_fn(Composition, Composition) -> bool)
    requires
        0 <= i < ws.len(),
        0 <= j < bs.len(),
    ensures
        row_count(ws[i], bs.take(j + 1), p) == row_count(ws[i], bs.take(j), p) + if p(ws[i], bs[j]) { 1nat } else { 0nat },
        pair_count(ws.take(i) , bs, p) + row_count(ws[i], bs.take(j), p) <= i * bs.len() + j,
{
    assert(bs.take(j + 1).drop_last() =~= bs.take(j));
    lemma_pair_count_le(ws.take(i), bs, p);
    lemma_row_count_le(ws[i], bs.take(j), p);
}

proof fn lemma_pair_row_done(ws: Seq<Composition>, bs: Seq<Composition>, i: int, p: spec_fn(Composition, Composition) -> bool)
    requires
        0 <= i < ws.len(),
    ensures
        pair_count(ws.take(i + 1), bs, p) == pair_count(ws.take(i), bs, p) + row_count(ws[i], bs.take(bs.len() as int), p),
{
    assert(ws.take(i + 1).drop_last() =~= ws.take(i));
    assert(bs.take(bs.len() as int) =~= bs);
}

/// Indicator counts over the admissible realizations of the family
/// `(wnp_band, bnp_band)`; they do not depend on the pawn counts.
pub fn strategic_counts(wnp_band: u8, bnp_band: u8) -> (sc: StrategicCounts)
    requires
        wnp_band < 9,
        bnp_band < 9,
    ensures
        sc == strategic_counts_spec(wnp_band as int, bnp_band as int),
{
    let white = band_compositions_exec(wnp_band);
    let black = band_compositions_exec(bnp_band);
    let ghost ws = white@;
    let ghost bs = black@;
    proof {
        lemma_band_compositions_len(wnp_band as int, 54);
        lemma_band_compositions_len(bnp_band as int, 54);
    }
    let mut q: u32 = 0;
    let mut r: u32 = 0;
    let mut m: u32 = 0;
    let mut bp: u32 = 0;
    let mut h: u32 = 0;
    let mut i: usize = 0;
    while i < white.len()
        invariant
            i <= white.len(),
            white@ == ws,
            black@ == bs,
            ws.len() <= 54,
            bs.len() <= 54,
            forall|k: int| 0 <= k < ws.len() ==> {
                let c = #[trigger] ws[k];
                c.0 <= 1 && c.1 <= 2 && c.2 <= 2 && c.3 <= 2
            },
            forall|k: int| 0 <= k < bs.len() ==> {
                let c = #[trigger] bs[k];
                c.0 <= 1 && c.1 <= 2 && c.2 <= 2 && c.3 <= 2
            },
            q == pair_count(ws.take(i as int), bs, queen_any()),
            r == pair_count(ws.take(i as int), bs, rook_any()),
            m == pair_count(ws.take(i as int), bs, minor_rich()),
            bp == pair_count(ws.take(i as int), bs, bishop_pair_any()),
            h == pair_count(ws.take(i as int), bs, heavy_dominant()),
        decreases white.len() - i,
    {
        let (wq, wr, wb, wn) = white[i];
        let mut j: usize = 0;
        while j < black.len()
            invariant
                i < white.len(),
                j <= black.len(),
                white@ == ws,
                black@ == bs,
                ws.len() <= 54,
                bs.len() <= 54,
                (wq, wr, wb, wn) == ws[i as int],
                wq <= 1 && wr <= 2 && wb <= 2 && wn <= 2,
                forall|k: int| 0 <= k < bs.len() ==> {
                    let c = #[trigger] bs[k];
                    c.0 <= 1 && c.1 <= 2 && c.2 <= 2 && c.3 <= 2
                },
                q == pair_count(ws.take(i as int), bs, queen_any()) + row_count(ws[i as int], bs.take(j as int), queen_any()),
                r == pair_count(ws.take(i as int), bs, rook_any()) + row_count(ws[i as int], bs.take(j as int), rook_any()),
                m == pair_count(ws.take(i as int), bs, minor_rich()) + row_count(ws[i as int], bs.take(j as int), minor_rich()),
                bp == pair_count(ws.take(i as int), bs, bishop_pair_any()) + row_count(ws[i as int], bs.take(j as int), bishop_pair_any()),
                h == pair_count(ws.take(i as int), bs, heavy_dominant()) + row_count(ws[i as int], bs.take(j as int), heavy_dominant()),
            decreases black.len() - j,
        {
            let (bq, br, bb, bn) = black[j];
            proof {
                lemma_pair_step(ws, bs, i as int, j as int, queen_any());
                lemma_pair_step(ws, bs, i as int, j as int, rook_any());
                lemma_pair_step(ws, bs, i as int, j as int, minor_rich());
                lemma_pair_step(ws, bs, i as int, j as int, bishop_pair_any());
                lemma_pair_step(ws, bs, i as int, j as int, heavy_dominant());
                assert(i * bs.len() + j < 54 * 54) by (nonlinear_arith)
                    requires i < 54, j < bs.len(), bs.len() <= 54;
            }
            if wq + bq > 0 {
                q = q + 1;
            }
            if wr + br > 0 {
                r = r + 1;
            }
            if (wb + wn + bb + bn) >= 3 {
                m = m + 1;
            }
            if wb == 2 || bb == 2 {
                bp = bp + 1;
            }
            let heavy = 5 * (wr + br) as u32 + 9 * (wq + bq) as u32;
            let minor = 3 * (wb + wn + bb + bn) as u32;
            if heavy > minor {
                h = h + 1;
            }
            j = j + 1;
        }
        proof {
            lemma_pair_row_done(ws, bs, i as int, queen_any());
            lemma_pair_row_done(ws, bs, i as int, rook_any());
            lemma_pair_row_done(ws, bs, i as int, minor_rich());
            lemma_pair_row_done(ws, bs, i as int, bishop_pair_any());
            lemma_pair_row_done(ws, bs, i as int, heavy_dominant());
        }
        i = i + 1;
    }
    proof {
        assert(ws.take(ws.len() as int) =~= ws);
        assert(ws.len() * bs.len() <= 54 * 54) by (nonlinear_arith)
            requires ws.len() <= 54, bs.len() <= 54;
    }
    let pairs = (white.len() * black.len()) as u32;
    StrategicCounts { pairs, queen_any: q, rook_any: r, minor_rich: m, bishop_pair: bp, heavy_dominant: h }
}


/// Minimum number of non-pawn pieces that must have been removed from the
/// starting seven (Q, R, R, B, B, N, N) to land in each band, removing the
/// highest-value piece first.
pub open spec fn min_pieces_removed_spec(band: int) -> int {
    if band == 0 { 7 } else if band <= 2 { 6 } else if band == 3 { 5 } else if band == 4 { 4 }
    else if band == 5 { 3 } else if band == 6 { 2 } else if band == 7 { 1 } else { 0 }
}

/// Minimum non-pawn pieces removed from the starting seven to land in `band`.
pub fn wnp_min_pieces_removed(band_idx: u8) -> (n: u32)
    requires
        band_idx < 9,
    ensures
        n == min_pieces_removed_spec(band_idx as int),
{
    match band_idx {
        0 => 7,
        1 => 6,
        2 => 6,
        3 => 5,
        4 => 4,
        5 => 3,
        6 => 2,
        7 => 1,
        _ => 0,
    }
}

/// Derived integer features of a family. Every value that the family layer
/// reads as a point total is held exactly in half points.
#[derive(Debug, Clone, Copy, PartialEq, Eq, Structural)]
pub struct FamilyFeatures {
    /// Band-center piece-value sum for white non-pawns, in half points.
    pub wnp_center_halves: u32,
    /// Band-center piece-value sum for black non-pawns, in half points.
    pub bnp_center_halves: u32,
    /// Total material (non-pawn centers plus pawns), in half points.
    pub total_material_halves: u32,
    /// Material imbalance `wnp_center - bnp_center`, in half points. Positive = white ahead.
    pub material_diff_halves: i32,
    /// Compositional depletion `(31 - wnp_center) + (31 - bnp_center) + (8 - wp) + (8 - bp)`,
    /// in half points. The phase estimate is `depletion_halves / 156`.
    pub depletion_halves: u32,
    /// Span of the wider non-pawn band.
    pub feature_span: u8,
    /// Product of the per-side counts of starting-limit tuples in each band.
    pub family_mass_prior: u32,
    /// Lower bound on the capture plies needed to reach the family from the start.
    pub min_capture_bound: u32,
    /// Indicator counts behind the strategic entropy of the family.
    pub strategic: StrategicCounts,
}

/// One row of the family table: key, derived features, and the composition
/// statistics of both sides' bands (the sources of the mode features).
#[derive(Debug, Clone, Copy, PartialEq, Eq, Structural)]
pub struct FamilyRecord {
    pub key: FamilyKey,
    pub features: FamilyFeatures,
    pub white_stats: BandCompositionStats,
    pub black_stats: BandCompositionStats,
}

pub open spec fn depletion_halves_spec(k: FamilyKey) -> int {
    (62 - band_center_halves(k.wnp_band as int)) + (62 - band_center_halves(k.bnp_band as int))
        + 2 * (8 - k.wp) + 2 * (8 - k.bp)
}

pub open spec fn min_capture_bound_spec(k: FamilyKey) -> int {
    min_pieces_removed_spec(k.wnp_band as int) + min_pieces_removed_spec(k.bnp_band as int)
        + (8 - k.wp) + (8 - k.bp)
}

pub open spec fn features_spec(k: FamilyKey) -> FamilyFeatures {
    let wc = band_center_halves(k.wnp_band as int);
    let bc = band_center_halves(k.bnp_band as int);
    let ws = band_span(k.wnp_band as int);
    let bs = band_span(k.bnp_band as int);
    FamilyFeatures {
        wnp_center_halves: wc as u32,
        bnp_center_halves: bc as u32,
        total_material_halves: (wc + bc + 2 * k.wp + 2 * k.bp) as u32,
        material_diff_halves: (wc - bc) as i32,
        depletion_halves: depletion_halves_spec(k) as u32,
        feature_span: (if ws >= bs { ws } else { bs }) as u8,
        family_mass_prior: (band_compositions(k.wnp_band as int).len()
            * band_compositions(k.bnp_band as int).len()) as u32,
        min_capture_bound: min_capture_bound_spec(k) as u32,
        strategic: strategic_counts_spec(k.wnp_band as int, k.bnp_band as int),
    }
}

pub open spec fn record_spec(k: FamilyKey) -> FamilyRecord {
    FamilyRecord {
        key: k,
        features: features_spec(k),
        white_stats: band_stats_spec(k.wnp_band as int),
        black_stats: band_stats_spec(k.bnp_band as int),
    }
}

fn build_record(key: FamilyKey, comp_counts: &[u32; 9], stats: &[BandCompositionStats; 9]) -> (rec: FamilyRecord)
    requires
        key.valid(),
        forall|i: int| 0 <= i < 9 ==> #[trigger] comp_counts[i] == band_compositions(i).len(),
        forall|i: int| 0 <= i < 9 ==> #[trigger] stats[i] == band_stats_spec(i),
    ensures
        rec == record_spec(key),
{
    let wb = band(key.wnp_band as usize);
    let bb = band(key.bnp_band as usize);
    let wnp_center = wb.center_halves as u32;
    let bnp_center = bb.center_halves as u32;
    let total_material = wnp_center + bnp_center + 2 * key.wp as u32 + 2 * key.bp as u32;
    let material_diff = wnp_center as i32 - bnp_center as i32;
    let depletion = (62 - wnp_center) + (62 - bnp_center) + 2 * (8 - key.wp as u32) + 2 * (8
        - key.bp as u32);
    let feature_span = if wb.span >= bb.span {
        wb.span
    } else {
        bb.span
    };
    let cw = comp_counts[key.wnp_band as usize];
    let cb = comp_counts[key.bnp_band as usize];
    proof {
        lemma_band_compositions_len(key.wnp_band as int, 54);
        lemma_band_compositions_len(key.bnp_band as int, 54);
        assert(cw * cb <= 54 * 54) by (nonlinear_arith)
            requires cw <= 54, cb <= 54;
    }
    let family_mass_prior = cw * cb;
    let min_capture_bound = wnp_min_pieces_removed(key.wnp_band) + wnp_min_pieces_removed(
        key.bnp_band,
    ) + (8 - key.wp) as u32 + (8 - key.bp) as u32;
    let strategic = strategic_counts(key.wnp_band, key.bnp_band);
    FamilyRecord {
        key,
        features: FamilyFeatures {
            wnp_center_halves: wnp_center,
            bnp_center_halves: bnp_center,
            total_material_halves: total_material,
            material_diff_halves: material_diff,
            depletion_halves: depletion,
            feature_span,
            family_mass_prior,
            min_capture_bound,
            strategic,
        },
        white_stats: stats[key.wnp_band as usize],
        black_stats: stats[key.bnp_band as usize],
    }
}

/// Build the complete 6561-entry family table, stored in `key.index()` order.
pub fn build_table() -> (table: Vec<FamilyRecord>)
    ensures
        table.len() == 6561,
        forall|i: int| 0 <= i < 6561 ==> #[trigger] table[i] == record_spec(key_of_index(i)),
{
    let comp_counts: [u32; 9] = [
        wnp_band_composition_count(0),
        wnp_band_composition_count(1),
        wnp_band_composition_count(2),
        wnp_band_composition_count(3),
        wnp_band_composition_count(4),
        wnp_band_composition_count(5),
        wnp_band_composition_count(6),
        wnp_band_composition_count(7),
        wnp_band_composition_count(8),
    ];
    let stats = band_composition_stats();
    let mut records: Vec<FamilyRecord> = Vec::with_capacity(6561);
    let mut idx: usize = 0;
    while idx < 6561
        invariant
            idx <= 6561,
            records.len() == idx,
            forall|i: int| 0 <= i < 9 ==> #[trigger] comp_counts[i] == band_compositions(i).len(),
            forall|i: int| 0 <= i < 9 ==> #[trigger] stats[i] == band_stats_spec(i),
            forall|i: int| 0 <= i < idx ==> #[trigger] records[i] == record_spec(key_of_index(i)),
        decreases 6561 - idx,
    {
        let key = FamilyKey::from_index(idx);
        let rec = build_record(key, &comp_counts, &stats);
        records.push(rec);
        idx = idx + 1;
    }
    records
}

/// Law: the depletion of a valid family lies in `[4, 78]` points, so the
/// phase estimate `depletion / 78` lies in `[0, 1]`.
pub proof fn lemma_depletion_bounds(k: FamilyKey)
    requires
        k.valid(),
    ensures
        8 <= depletion_halves_spec(k) <= 156,
        features_spec(k).depletion_halves == depletion_halves_spec(k),
{
}

/// Law: losing material never lowers depletion, and any loss raises it:
/// a family whose components are all at most those of another, and differ in
/// one, is strictly more depleted.
pub proof fn lemma_depletion_monotone(k1: FamilyKey, k2: FamilyKey)
    requires
        k1.valid(),
        k2.valid(),
        k2.wnp_band <= k1.wnp_band,
        k2.bnp_band <= k1.bnp_band,
        k2.wp <= k1.wp,
        k2.bp <= k1.bp,
        k1 != k2,
    ensures
        depletion_halves_spec(k2) > depletion_halves_spec(k1),
{
}

/// Law: the sign of the material imbalance follows the order of the two
/// non-pawn bands.
pub proof fn lemma_material_diff_sign(k: FamilyKey)
    requires
        k.valid(),
    ensures
        features_spec(k).material_diff_halves > 0 <==> k.wnp_band > k.bnp_band,
        features_spec(k).material_diff_halves < 0 <==> k.wnp_band < k.bnp_band,
{
}

/// Law: the capture bound never decreases as material is lost, and losing one
/// pawn costs exactly one capture ply.
pub proof fn lemma_min_capture_bound_monotone(k1: FamilyKey, k2: FamilyKey)
    requires
        k1.valid(),
        k2.valid(),
        k2.wnp_band <= k1.wnp_band,
        k2.bnp_band <= k1.bnp_band,
        k2.wp <= k1.wp,
        k2.bp <= k1.bp,
    ensures
        min_capture_bound_spec(k2) >= min_capture_bound_spec(k1),
        k2.wnp_band == k1.wnp_band && k2.bnp_band == k1.bnp_band ==>
            min_capture_bound_spec(k2) == min_capture_bound_spec(k1) + (k1.wp - k2.wp) + (k1.bp - k2.bp),
{
}

proof fn lemma_band_compositions_nonempty_from(band: int, t0: int, t: int)
    requires
        0 <= t0 < t <= 54,
        in_band(band, composition_at(t0)),
    ensures
        band_compositions_upto(band, t).len() >= 1,
    decreases t,
{
    if t - 1 > t0 {
        lemma_band_compositions_nonempty_from(band, t0, t - 1);
    }
}

/// Law: every band holds at least one starting-limit tuple, so every family
/// has a positive mass prior.
pub proof fn lemma_family_mass_prior_positive(k: FamilyKey)
    requires
        k.valid(),
    ensures
        band_compositions(k.wnp_band as int).len() >= 1,
        band_compositions(k.bnp_band as int).len() >= 1,
        features_spec(k).family_mass_prior >= 1,
{
    lemma_band_has_composition(k.wnp_band as int);
    lemma_band_has_composition(k.bnp_band as int);
    lemma_band_compositions_len(k.wnp_band as int, 54);
    lemma_band_compositions_len(k.bnp_band as int, 54);
    let a = band_compositions(k.wnp_band as int).len();
    let b = band_compositions(k.bnp_band as int).len();
    assert(1 <= a * b <= 54 * 54) by (nonlinear_arith)
        requires 1 <= a <= 54, 1 <= b <= 54;
}

proof fn lemma_band_has_composition(band: int)
    requires
        0 <= band < 9,
    ensures
        band_compositions(band).len() >= 1,
{
    let t0 = if band == 0 { 0 } else if band == 1 { 1 } else if band == 2 { 9 } else if band == 3 { 2 }
        else if band == 4 { 27 } else if band == 5 { 8 } else if band == 6 { 24 } else if band == 7 { 46 }
        else { 53 };
    if band == 0 { lemma_composition_at(0, 0, 0, 0); }
    else if band == 1 { lemma_composition_at(0, 0, 0, 1); }
    else if band == 2 { lemma_composition_at(0, 1, 0, 0); }
    else if band == 3 { lemma_composition_at(0, 0, 0, 2); }
    else if band == 4 { lemma_composition_at(1, 0, 0, 0); }
    else if band == 5 { lemma_composition_at(0, 0, 2, 2); }
    else if band == 6 { lemma_composition_at(0, 2, 2, 0); }
    else if band == 7 { lemma_composition_at(1, 2, 0, 1); }
    else { lemma_composition_at(1, 2, 2, 2); }
    lemma_band_compositions_nonempty_from(band, t0, 54);
}


/// Law: the strategic counts of a family depend only on its two non-pawn
/// bands; pawn counts do not affect them.
pub proof fn lemma_strategic_ignores_pawns(k1: FamilyKey, k2: FamilyKey)
    requires
        k1.wnp_band == k2.wnp_band,
        k1.bnp_band == k2.bnp_band,
    ensures
        features_spec(k1).strategic == features_spec(k2).strategic,
        features_spec(k1).family_mass_prior == features_spec(k2).family_mass_prior,
{
}


/// Number of `w` in `ws` with `p(w, x)`.
pub open spec fn column_count(ws: Seq<Composition>, x: Composition, p: spec_fn(Composition, Composition) -> bool) -> nat
    decreases ws.len(),
{
    if ws.len() == 0 {
        0
    } else {
        column_count(ws.drop_last(), x, p) + if p(ws.last(), x) { 1nat } else { 0nat }
    }
}

proof fn lemma_pair_count_push_column(ws: Seq<Composition>, bs: Seq<Composition>, x: Composition, p: spec_fn(Composition, Composition) -> bool)
    ensures
        pair_count(ws, bs.push(x), p) == pair_count(ws, bs, p) + column_count(ws, x, p),
    decreases ws.len(),
{
    if ws.len() > 0 {
        lemma_pair_count_push_column(ws.drop_last(), bs, x, p);
        lemma_push_drop_last(bs, x);
    }
}

proof fn lemma_column_is_row(ws: Seq<Composition>, x: Composition, p: spec_fn(Composition, Composition) -> bool)
    requires
        forall|a: Composition, b: Composition| #[trigger] p(a, b) == p(b, a),
    ensures
        column_count(ws, x, p) == row_count(x, ws, p),
    decreases ws.len(),
{
    if ws.len() > 0 {
        lemma_column_is_row(ws.drop_last(), x, p);
        assert(p(ws.last(), x) == p(x, ws.last()));
    }
}

proof fn lemma_pair_count_symmetric(ws: Seq<Composition>, bs: Seq<Composition>, p: spec_fn(Composition, Composition) -> bool)
    requires
        forall|a: Composition, b: Composition| #[trigger] p(a, b) == p(b, a),
    ensures
        pair_count(ws, bs, p) == pair_count(bs, ws, p),
    decreases bs.len(),
{
    if bs.len() == 0 {
        lemma_pair_count_empty(ws, p);
        assert(bs =~= Seq::<Composition>::empty());
    } else {
        let d = bs.drop_last();
        let x = bs.last();
        assert(d.push(x) =~= bs);
        lemma_pair_count_push_column(ws, d, x, p);
        lemma_pair_count_symmetric(ws, d, p);
        lemma_column_is_row(ws, x, p);
        assert(pair_count(ws, bs, p) == pair_count(ws, d, p) + column_count(ws, x, p));
        assert(pair_count(bs, ws, p) == pair_count(d, ws, p) + row_count(x, ws, p));
    }
}

proof fn lemma_pair_count_empty(ws: Seq<Composition>, p: spec_fn(Composition, Composition) -> bool)
    ensures
        pair_count(ws, Seq::empty(), p) == 0,
    decreases ws.len(),
{
    if ws.len() > 0 {
        lemma_pair_count_empty(ws.drop_last(), p);
    }
}

/// Law: the strategic indicator counts are symmetric in the two bands:
/// swapping the white and black bands gives the same counts.
pub proof fn lemma_strategic_counts_symmetric(a: int, b: int)
    ensures
        strategic_counts_spec(a, b) == strategic_counts_spec(b, a),
{
    let ws = band_compositions(a);
    let bs = band_compositions(b);
    assert forall|x: Composition, y: Composition| #[trigger] queen_any()(x, y) == queen_any()(y, x) by {}
    assert forall|x: Composition, y: Composition| #[trigger] rook_any()(x, y) == rook_any()(y, x) by {}
    assert forall|x: Composition, y: Composition| #[trigger] minor_rich()(x, y) == minor_rich()(y, x) by {}
    assert forall|x: Composition, y: Composition| #[trigger] bishop_pair_any()(x, y) == bishop_pair_any()(y, x) by {}
    assert forall|x: Composition, y: Composition| #[trigger] heavy_dominant()(x, y) == heavy_dominant()(y, x) by {}
    lemma_pair_count_symmetric(ws, bs, queen_any());
    lemma_pair_count_symmetric(ws, bs, rook_any());
    lemma_pair_count_symmetric(ws, bs, minor_rich());
    lemma_pair_count_symmetric(ws, bs, bishop_pair_any());
    lemma_pair_count_symmetric(ws, bs, heavy_dominant());
    assert(ws.len() * bs.len() == bs.len() * ws.len()) by (nonlinear_arith);
}


// ── Laws of the derived features ─────────────────────────────────────────────

/// The family with the colours exchanged.
pub open spec fn swap_colors(k: FamilyKey) -> FamilyKey {
    FamilyKey { wnp_band: k.bnp_band, bnp_band: k.wnp_band, wp: k.bp, bp: k.wp }
}

/// Law: the feature span is the wider of the two bands' spans; the total
/// material and the depletion of a family add up to the full starting
/// material (78 points, 156 half points); the material difference is the
/// difference of the two centers; each center lies within its band.
pub proof fn lemma_features_relations(k: FamilyKey)
    requires
        k.valid(),
    ensures
        features_spec(k).feature_span >= band_spec(k.wnp_band as int).span,
        features_spec(k).feature_span >= band_spec(k.bnp_band as int).span,
        features_spec(k).feature_span == band_spec(k.wnp_band as int).span
            || features_spec(k).feature_span == band_spec(k.bnp_band as int).span,
        features_spec(k).total_material_halves + features_spec(k).depletion_halves == 156,
        features_spec(k).total_material_halves == features_spec(k).wnp_center_halves
            + features_spec(k).bnp_center_halves + 2 * k.wp + 2 * k.bp,
        features_spec(k).material_diff_halves == features_spec(k).wnp_center_halves - features_spec(k).bnp_center_halves,
        features_spec(k).wnp_center_halves == band_spec(k.wnp_band as int).center_halves,
        features_spec(k).bnp_center_halves == band_spec(k.bnp_band as int).center_halves,
        2 * band_lo(k.wnp_band as int) <= features_spec(k).wnp_center_halves <= 2 * band_hi(k.wnp_band as int),
        2 * band_lo(k.bnp_band as int) <= features_spec(k).bnp_center_halves <= 2 * band_hi(k.bnp_band as int),
{
}

/// Law (colour symmetry): exchanging the colours exchanges the two centers,
/// negates the material difference and keeps every other feature.
pub proof fn lemma_features_color_swap(k: FamilyKey)
    requires
        k.valid(),
    ensures
        features_spec(swap_colors(k)).wnp_center_halves == features_spec(k).bnp_center_halves,
        features_spec(swap_colors(k)).bnp_center_halves == features_spec(k).wnp_center_halves,
        features_spec(swap_colors(k)).material_diff_halves == -features_spec(k).material_diff_halves,
        features_spec(swap_colors(k)).total_material_halves == features_spec(k).total_material_halves,
        features_spec(swap_colors(k)).depletion_halves == features_spec(k).depletion_halves,
        features_spec(swap_colors(k)).feature_span == features_spec(k).feature_span,
        features_spec(swap_colors(k)).family_mass_prior == features_spec(k).family_mass_prior,
        features_spec(swap_colors(k)).min_capture_bound == features_spec(k).min_capture_bound,
        features_spec(swap_colors(k)).strategic == features_spec(k).strategic,
{
    let a = band_compositions(k.wnp_band as int).len();
    let b = band_compositions(k.bnp_band as int).len();
    assert(a * b == b * a) by (nonlinear_arith);
    lemma_strategic_counts_symmetric(k.wnp_band as int, k.bnp_band as int);
}

/// Law: each strategic indicator counts the admissible (white, black)
/// composition pairs, tuples (queens, rooks, bishops, knights), on which it
/// holds: a queen on the board; a rook on the board; at least three bishops
/// and knights together; a side with both bishops; rooks (5) and queens (9)
/// together worth more than bishops and knights (3 each). No count exceeds
/// the number of pairs.
pub proof fn lemma_strategic_indicators(a: int, b: int)
    requires
        0 <= a < 9,
        0 <= b < 9,
    ensures
        strategic_counts_spec(a, b).pairs == band_compositions(a).len() * band_compositions(b).len(),
        strategic_counts_spec(a, b).queen_any == pair_count(band_compositions(a), band_compositions(b),
            |w: Composition, x: Composition| w.0 + x.0 >= 1),
        strategic_counts_spec(a, b).rook_any == pair_count(band_compositions(a), band_compositions(b),
            |w: Composition, x: Composition| w.1 + x.1 >= 1),
        strategic_counts_spec(a, b).minor_rich == pair_count(band_compositions(a), band_compositions(b),
            |w: Composition, x: Composition| w.2 + w.3 + x.2 + x.3 >= 3),
        strategic_counts_spec(a, b).bishop_pair == pair_count(band_compositions(a), band_compositions(b),
            |w: Composition, x: Composition| w.2 >= 2 || x.2 >= 2),
        strategic_counts_spec(a, b).heavy_dominant == pair_count(band_compositions(a), band_compositions(b),
            |w: Composition, x: Composition| 5 * (w.1 + x.1) + 9 * (w.0 + x.0) > 3 * (w.2 + w.3 + x.2 + x.3)),
        strategic_counts_spec(a, b).queen_any <= strategic_counts_spec(a, b).pairs,
        strategic_counts_spec(a, b).rook_any <= strategic_counts_spec(a, b).pairs,
        strategic_counts_spec(a, b).minor_rich <= strategic_counts_spec(a, b).pairs,
        strategic_counts_spec(a, b).bishop_pair <= strategic_counts_spec(a, b).pairs,
        strategic_counts_spec(a, b).heavy_dominant <= strategic_counts_spec(a, b).pairs,
{
    let ws = band_compositions(a);
    let bs = band_compositions(b);
    lemma_band_compositions_len(a, 54);
    lemma_band_compositions_len(b, 54);
    assert(ws.len() * bs.len() <= 54 * 54) by (nonlinear_arith)
        requires ws.len() <= 54, bs.len() <= 54;
    lemma_pair_count_le(ws, bs, queen_any());
    lemma_pair_count_le(ws, bs, rook_any());
    lemma_pair_count_le(ws, bs, minor_rich());
    lemma_pair_count_le(ws, bs, bishop_pair_any());
    lemma_pair_count_le(ws, bs, heavy_dominant());
    assert(queen_any() =~= (|w: Composition, x: Composition| w.0 + x.0 >= 1));
    assert(rook_any() =~= (|w: Composition, x: Composition| w.1 + x.1 >= 1));
    assert(minor_rich() =~= (|w: Composition, x: Composition| w.2 + w.3 + x.2 + x.3 >= 3));
    assert(heavy_dominant() =~= (|w: Composition, x: Composition| 5 * (w.1 + x.1) + 9 * (w.0 + x.0) > 3 * (w.2 + w.3 + x.2 + x.3)));
    lemma_bishop_pair_bounded(ws, bs);
}

proof fn lemma_bishop_pair_bounded(ws: Seq<Composition>, bs: Seq<Composition>)
    requires
        forall|i: int| 0 <= i < ws.len() ==> (#[trigger] ws[i]).2 <= 2,
        forall|i: int| 0 <= i < bs.len() ==> (#[trigger] bs[i]).2 <= 2,
    ensures
        pair_count(ws, bs, bishop_pair_any()) == pair_count(ws, bs, |w: Composition, x: Composition| w.2 >= 2 || x.2 >= 2),
    decreases ws.len(),
{
    if ws.len() > 0 {
        assert forall|i: int| 0 <= i < ws.drop_last().len() implies (#[trigger] ws.drop_last()[i]).2 <= 2 by {
            assert(ws.drop_last()[i] == ws[i]);
        }
        lemma_bishop_pair_bounded(ws.drop_last(), bs);
        assert(ws.last() == ws[ws.len() - 1]);
        lemma_bishop_row_bounded(ws.last(), bs);
    }
}

proof fn lemma_bishop_row_bounded(w: Composition, bs: Seq<Composition>)
    requires
        w.2 <= 2,
        forall|i: int| 0 <= i < bs.len() ==> (#[trigger] bs[i]).2 <= 2,
    ensures
        row_count(w, bs, bishop_pair_any()) == row_count(w, bs, |w: Composition, x: Composition| w.2 >= 2 || x.2 >= 2),
    decreases bs.len(),
{
    if bs.len() > 0 {
        assert forall|i: int| 0 <= i < bs.drop_last().len() implies (#[trigger] bs.drop_last()[i]).2 <= 2 by {
            assert(bs.drop_last()[i] == bs[i]);
        }
        lemma_bishop_row_bounded(w, bs.drop_last());
        assert(bs.last() == bs[bs.len() - 1]);
    }
}


// ── Which compositions a band holds ──────────────────────────────────────────

proof fn lemma_composition_index(t: int)
    requires
        0 <= t < 54,
    ensures
        t == 27 * composition_at(t).0 + 9 * composition_at(t).1 + 3 * composition_at(t).2 + composition_at(t).3,
{
    lemma_composition_bounds(t);
    vstd::arithmetic::div_mod::lemma_fundamental_div_mod(t, 3);
    vstd::arithmetic::div_mod::lemma_fundamental_div_mod(t / 3, 3);
    vstd::arithmetic::div_mod::lemma_div_denominator(t, 3, 3);
    vstd::arithmetic::div_mod::lemma_fundamental_div_mod(t / 9, 3);
    vstd::arithmetic::div_mod::lemma_div_denominator(t, 9, 3);
}

proof fn lemma_band_compositions_upto_members(band: int, t: int, c: Composition)
    requires
        0 <= t <= 54,
    ensures
        band_compositions_upto(band, t).contains(c) <==> (exists|s: int| 0 <= s < t && #[trigger] composition_at(s) == c && in_band(band, c)),
        forall|i: int, j: int| 0 <= i < j < band_compositions_upto(band, t).len() ==>
            27 * band_compositions_upto(band, t)[i].0 + 9 * band_compositions_upto(band, t)[i].1 + 3 * band_compositions_upto(band, t)[i].2 + band_compositions_upto(band, t)[i].3
            < 27 * band_compositions_upto(band, t)[j].0 + 9 * band_compositions_upto(band, t)[j].1 + 3 * band_compositions_upto(band, t)[j].2 + band_compositions_upto(band, t)[j].3,
        forall|i: int| 0 <= i < band_compositions_upto(band, t).len() ==>
            27 * band_compositions_upto(band, t)[i].0 + 9 * band_compositions_upto(band, t)[i].1 + 3 * band_compositions_upto(band, t)[i].2 + band_compositions_upto(band, t)[i].3 < t,
    decreases t,
{
    if t > 0 {
        lemma_band_compositions_upto_members(band, t - 1, c);
        lemma_composition_index(t - 1);
        let prev = band_compositions_upto(band, t - 1);
        let cur = band_compositions_upto(band, t);
        if in_band(band, composition_at(t - 1)) {
            assert(cur == prev.push(composition_at(t - 1)));
            if cur.contains(c) {
                let i = choose|i: int| 0 <= i < cur.len() && cur[i] == c;
                if i < prev.len() {
                    assert(prev[i] == c);
                    assert(prev.contains(c));
                }
            }
            if exists|s: int| 0 <= s < t && #[trigger] composition_at(s) == c && in_band(band, c) {
                let s = choose|s: int| 0 <= s < t && #[trigger] composition_at(s) == c && in_band(band, c);
                if s < t - 1 {
                    let i = choose|i: int| 0 <= i < prev.len() && prev[i] == c;
                    assert(cur[i] == c);
                } else {
                    assert(cur[cur.len() - 1] == c);
                }
            }
        } else {
            if exists|s: int| 0 <= s < t && #[trigger] composition_at(s) == c && in_band(band, c) {
                let s = choose|s: int| 0 <= s < t && #[trigger] composition_at(s) == c && in_band(band, c);
                assert(s != t - 1);
            }
        }
    }
}

/// Law: band `band` holds exactly the starting-limit tuples (at most one
/// queen and two each of rooks, bishops and knights) whose piece value
/// (Q=9, R=5, B=3, N=3) lies in the band's range, each once.
pub proof fn lemma_band_compositions_members(band: int, c: Composition)
    ensures
        band_compositions(band).contains(c) <==> (c.0 <= 1 && c.1 <= 2 && c.2 <= 2 && c.3 <= 2
            && band_lo(band) <= 9 * c.0 + 5 * c.1 + 3 * c.2 + 3 * c.3 <= band_hi(band)),
        forall|i: int, j: int| 0 <= i < j < band_compositions(band).len() ==> band_compositions(band)[i] != band_compositions(band)[j],
{
    lemma_band_compositions_upto_members(band, 54, c);
    lemma_band_compositions_len(band, 54);
    if c.0 <= 1 && c.1 <= 2 && c.2 <= 2 && c.3 <= 2 && band_lo(band) <= 9 * c.0 + 5 * c.1 + 3 * c.2 + 3 * c.3 <= band_hi(band) {
        let t = 27 * c.0 + 9 * c.1 + 3 * c.2 + c.3;
        lemma_composition_at(c.0 as int, c.1 as int, c.2 as int, c.3 as int);
        assert(composition_at(t) == c);
    }
    if band_compositions(band).contains(c) {
        let i = choose|i: int| 0 <= i < band_compositions(band).len() && band_compositions(band)[i] == c;
    }
}

/// Non-pawn value left after removing the `k` most valuable of the starting
/// seven pieces (Q=9, R=5, R=5, B=3, B=3, N=3, N=3).
pub open spec fn value_after_removals(k: int) -> int
    decreases k,
{
    if k <= 0 {
        31
    } else {
        value_after_removals(k - 1) - seq![9int, 5, 5, 3, 3, 3, 3][k - 1]
    }
}

/// Law: the minimum number of pieces removed to land in a band is the least
/// number of removals, most valuable first, that brings the starting value
/// down to the band's top.
pub proof fn lemma_min_pieces_removed_least(b: int)
    requires
        0 <= b < 9,
    ensures
        0 <= min_pieces_removed_spec(b) <= 7,
        value_after_removals(min_pieces_removed_spec(b)) <= band_hi(b),
        min_pieces_removed_spec(b) == 0 || value_after_removals(min_pieces_removed_spec(b) - 1) > band_hi(b),
{
    reveal_with_fuel(value_after_removals, 8);
}

/// Law: the statistics of a band count its tuples, those with a queen, its
/// rooks, and those without rooks holding at least two bishops and knights
/// together; none of the counts exceeds the number of tuples, and the rooks
/// number at most two per tuple.
pub proof fn lemma_band_stats_counts(band: int)
    requires
        0 <= band < 9,
    ensures
        band_stats_spec(band).count == band_compositions(band).len(),
        band_stats_spec(band).queen_count == count_where(band_compositions(band), |c: Composition| c.0 >= 1),
        band_stats_spec(band).rook_sum == rook_sum(band_compositions(band)),
        band_stats_spec(band).minor_count == count_where(band_compositions(band), |c: Composition| c.1 == 0 && c.2 + c.3 >= 2),
        band_stats_spec(band).queen_count <= band_stats_spec(band).count,
        band_stats_spec(band).minor_count <= band_stats_spec(band).count,
        band_stats_spec(band).rook_sum <= 2 * band_stats_spec(band).count,
{
    let s = band_compositions(band);
    lemma_band_compositions_len(band, 54);
    lemma_count_where_le(s, has_queen());
    lemma_count_where_le(s, rookless_minor_pair());
    lemma_rook_sum_le(s);
    assert(has_queen() =~= (|c: Composition| c.0 >= 1));
    assert(rookless_minor_pair() =~= (|c: Composition| c.1 == 0 && c.2 + c.3 >= 2));
}

} // verus!
