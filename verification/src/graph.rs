use vstd::prelude::*;

use crate::family::band;
use crate::family::band_hi;
use crate::family::band_index_of;
use crate::family::lemma_band_of_unique_monotone;
use crate::family::swap_colors;
use crate::family::band_lo;
use crate::family::key_of_index;
use crate::family::lemma_from_index_roundtrip;
use crate::family::lemma_index_roundtrip;
use crate::family::FamilyKey;
use crate::family::FamilyRecord;
use petgraph::graph::Graph;
use petgraph::graph::NodeIndex;
use petgraph::Undirected;

verus! {

/// Edge taxonomy of the family transition graph.
///
/// The distinction between B-minor and B-major determines which v0 weight
/// applies; the F variants combine promotion with a capture.
#[derive(Debug, Clone, Copy, PartialEq, Eq, Hash, Structural)]
pub enum EdgeType {
    /// Minor piece (B or N) captured, crossing a non-pawn band.
    BMinor,
    /// Major piece (R or Q) captured, crossing a non-pawn band.
    BMajor,
    /// Non-pawn piece (the king included) captures pawn.
    C,
    /// Pawn captures pawn.
    D,
    /// Non-capturing promotion.
    E,
    /// Capturing promotion combining E with BMinor.
    FWithBMinor,
    /// Capturing promotion combining E with BMajor.
    FWithBMajor,
    /// Capturing promotion combining E with C.
    FWithC,
}

impl EdgeType {
    /// The v0 weight in hundredths.
    pub open spec fn weight_spec(self) -> int {
        match self {
            EdgeType::D => 35,
            EdgeType::BMinor => 30,
            EdgeType::BMajor => 10,
            EdgeType::C => 8,
            _ => 2,
        }
    }

    /// V0 layout heuristic weight, in hundredths (D 0.35, B-minor 0.30,
    /// B-major 0.10, C 0.08, any promotion 0.02).
    pub fn v0_weight(self) -> (w: u8)
        ensures
            w == self.weight_spec(),
    {
        match self {
            EdgeType::D => 35,
            EdgeType::BMinor => 30,
            EdgeType::BMajor => 10,
            EdgeType::C => 8,
            EdgeType::E | EdgeType::FWithBMinor | EdgeType::FWithBMajor | EdgeType::FWithC => 2,
        }
    }
}

/// Largest v0 weight among `types` (0 for an empty list).
pub open spec fn max_weight(types: Seq<EdgeType>) -> int
    decreases types.len(),
{
    if types.len() == 0 {
        0
    } else {
        let m = max_weight(types.drop_last());
        let w = types.last().weight_spec();
        if w >= m { w } else { m }
    }
}

/// Law: `max_weight` of a non-empty list is the weight of one of its types
/// and no type in it weighs more.
pub proof fn lemma_max_weight(types: Seq<EdgeType>)
    requires
        types.len() > 0,
    ensures
        exists|i: int| 0 <= i < types.len() && max_weight(types) == (#[trigger] types[i]).weight_spec(),
        forall|i: int| 0 <= i < types.len() ==> (#[trigger] types[i]).weight_spec() <= max_weight(types),
    decreases types.len(),
{
    let d = types.drop_last();
    let n = types.len() - 1;
    assert(types[n] == types.last());
    if d.len() > 0 {
        lemma_max_weight(d);
        let i = choose|i: int| 0 <= i < d.len() && max_weight(d) == (#[trigger] d[i]).weight_spec();
        assert(types[i] == d[i]);
        assert forall|k: int| 0 <= k < types.len() implies (#[trigger] types[k]).weight_spec() <= max_weight(types) by {
            if k < d.len() {
                assert(types[k] == d[k]);
            }
        }
        if max_weight(types) == types.last().weight_spec() {
            assert(max_weight(types) == types[n].weight_spec());
        } else {
            assert(max_weight(types) == types[i].weight_spec());
        }
    } else {
        assert(max_weight(d) == 0);
        assert(max_weight(types) == types[n].weight_spec());
    }
}

/// Aggregated metadata on one undirected family edge.
#[derive(Debug, Clone)]
pub struct EdgeMeta {
    /// All edge types that contribute to this family pair transition.
    pub edge_types: Vec<EdgeType>,
    /// v0 layout weight in hundredths: the maximum of the contributing types' weights.
    pub layout_weight: u8,
}

impl EdgeMeta {
    /// Build `EdgeMeta` from a non-empty list of contributing types.
    pub fn from_types(types: Vec<EdgeType>) -> (m: Self)
        requires
            types.len() > 0,
        ensures
            m.edge_types@ == types@,
            m.layout_weight == max_weight(types@),
    {
        let mut w: u8 = 0;
        let mut i: usize = 0;
        while i < types.len()
            invariant
                i <= types.len(),
                w == max_weight(types@.take(i as int)),
                w <= 35,
            decreases types.len() - i,
        {
            proof {
                assert(types@.take(i + 1).drop_last() =~= types@.take(i as int));
            }
            let t = types[i].v0_weight();
            if t >= w {
                w = t;
            }
            i = i + 1;
        }
        proof {
            assert(types@.take(types.len() as int) =~= types@);
        }
        EdgeMeta { edge_types: types, layout_weight: w }
    }
}

// ── Band reachability ────────────────────────────────────────────────────────

/// `v` lies in the range of band `b`.
pub open spec fn value_in_band(b: int, v: int) -> bool {
    band_lo(b) <= v <= band_hi(b)
}

/// Removing `pv` points from some value in band `from` lands in band `to`.
pub open spec fn removal_reaches(from: int, to: int, pv: int) -> bool {
    exists|v: int| #[trigger] value_in_band(from, v) && v >= pv && value_in_band(to, v - pv)
}

/// Adding `pv` points to some value in band `from` lands in band `to`
/// without exceeding the non-pawn ceiling of 31.
pub open spec fn addition_reaches(from: int, to: int, pv: int) -> bool {
    exists|v: int| #[trigger] value_in_band(from, v) && v + pv <= 31 && value_in_band(to, v + pv)
}

/// A band-crossing minor capture (value 3) from band `from` to band `to`.
pub open spec fn minor_capture(from: int, to: int) -> bool {
    to < from && removal_reaches(from, to, 3)
}

/// A band-crossing major capture (R=5 or Q=9) from band `from` to band `to`.
pub open spec fn major_capture(from: int, to: int) -> bool {
    to < from && (removal_reaches(from, to, 5) || removal_reaches(from, to, 9))
}

/// A promotion (N/B=3, R=5, Q=9) raising band `from` to band `to`.
pub open spec fn promotion(from: int, to: int) -> bool {
    to > from && (addition_reaches(from, to, 3) || addition_reaches(from, to, 5)
        || addition_reaches(from, to, 9))
}

/// True if removing `pv` points from some value in band `from` can land in band `to`.
pub fn can_remove_piece(from: usize, to: usize, pv: u8) -> (r: bool)
    requires
        from < 9,
        to < 9,
    ensures
        r == removal_reaches(from as int, to as int, pv as int),
{
    let bf = band(from);
    let bt = band(to);
    if bf.hi < pv {
        return false;
    }
    let after_lo = if bf.lo >= pv { bf.lo - pv } else { 0 };
    let after_hi = bf.hi - pv;
    let r = after_lo <= bt.hi && bt.lo <= after_hi;
    proof {
        if r {
            let x = if after_lo >= bt.lo { after_lo as int } else { bt.lo as int };
            let v = x + pv;
            assert(value_in_band(from as int, v) && v >= pv && value_in_band(to as int, v - pv));
        }
    }
    r
}

/// True if adding `pv` points to some value in band `from` can land in band
/// `to`, capped at 31.
pub fn can_add_piece(from: usize, to: usize, pv: u8) -> (r: bool)
    requires
        from < 9,
        to < 9,
    ensures
        r == addition_reaches(from as int, to as int, pv as int),
{
    let bf = band(from);
    let bt = band(to);
    let after_lo = bf.lo as u32 + pv as u32;
    let after_hi = if bf.hi as u32 + pv as u32 <= 31 { bf.hi as u32 + pv as u32 } else { 31 };
    if after_lo > 31 {
        return false;
    }
    let r = after_lo <= bt.hi as u32 && bt.lo as u32 <= after_hi;
    proof {
        if r {
            let x = if after_lo >= bt.lo { after_lo as int } else { bt.lo as int };
            let v = x - pv;
            assert(value_in_band(from as int, v) && v + pv <= 31 && value_in_band(to as int, v + pv));
        }
    }
    r
}

/// True if a minor-piece capture crossing from band `from` to `to` is possible.
pub fn can_remove_minor(from: usize, to: usize) -> (r: bool)
    requires
        from < 9,
        to < 9,
    ensures
        r == minor_capture(from as int, to as int),
{
    to < from && can_remove_piece(from, to, 3)
}

/// True if a major-piece capture crossing from band `from` to `to` is possible.
pub fn can_remove_major(from: usize, to: usize) -> (r: bool)
    requires
        from < 9,
        to < 9,
    ensures
        r == major_capture(from as int, to as int),
{
    to < from && (can_remove_piece(from, to, 5) || can_remove_piece(from, to, 9))
}

/// True if promoting to any piece from band `from` can reach band `to`.
pub fn can_promote_to(from: usize, to: usize) -> (r: bool)
    requires
        from < 9,
        to < 9,
    ensures
        r == promotion(from as int, to as int),
{
    to > from && (can_add_piece(from, to, 3) || can_add_piece(from, to, 5) || can_add_piece(
        from,
        to,
        9,
    ))
}


// ── Coarse-delta reasons ─────────────────────────────────────────────────────

/// Edge `a -> c` of type `t` exists by the coarse-delta rules: some
/// conceivable single ply of that type, with the matching material-key
/// effect, turns a position of family `a` into one of family `c`.
pub open spec fn reason(a: FamilyKey, c: FamilyKey, t: EdgeType) -> bool {
    let w = a.wnp_band as int;
    let b = a.bnp_band as int;
    let wp = a.wp as int;
    let bp = a.bp as int;
    let w2 = c.wnp_band as int;
    let b2 = c.bnp_band as int;
    let wp2 = c.wp as int;
    let bp2 = c.bp as int;
    match t {
        EdgeType::BMinor => (b2 == b && wp2 == wp && bp2 == bp && minor_capture(w, w2)) || (w2 == w
            && wp2 == wp && bp2 == bp && minor_capture(b, b2)),
        EdgeType::BMajor => (b2 == b && wp2 == wp && bp2 == bp && major_capture(w, w2)) || (w2 == w
            && wp2 == wp && bp2 == bp && major_capture(b, b2)),
        EdgeType::C => w2 == w && b2 == b && ((wp2 == wp && bp > 0 && bp2 == bp - 1) || (bp2 == bp
            && wp > 0 && wp2 == wp - 1)),
        EdgeType::D => w2 == w && b2 == b && wp > 0 && bp > 0 && ((wp2 == wp && bp2 == bp - 1) || (
        bp2 == bp && wp2 == wp - 1)),
        EdgeType::E => (wp > 0 && wp2 == wp - 1 && bp2 == bp && b2 == b && w2 <= 8 && promotion(w, w2))
            || (bp > 0 && bp2 == bp - 1 && wp2 == wp && w2 == w && b2 <= 8 && promotion(b, b2)),
        EdgeType::FWithBMinor => (wp > 0 && wp2 == wp - 1 && bp2 == bp && w2 <= 8 && promotion(w, w2)
            && minor_capture(b, b2)) || (bp > 0 && bp2 == bp - 1 && wp2 == wp && b2 <= 8 && promotion(
            b,
            b2,
        ) && minor_capture(w, w2)),
        EdgeType::FWithBMajor => (wp > 0 && wp2 == wp - 1 && bp2 == bp && w2 <= 8 && promotion(w, w2)
            && major_capture(b, b2)) || (bp > 0 && bp2 == bp - 1 && wp2 == wp && b2 <= 8 && promotion(
            b,
            b2,
        ) && major_capture(w, w2)),
        EdgeType::FWithC => (wp > 0 && bp > 0 && wp2 == wp - 1 && bp2 == bp - 1 && b2 == b && w2 <= 8
            && promotion(w, w2)) || (bp > 0 && wp > 0 && bp2 == bp - 1 && wp2 == wp - 1 && w2 == w && b2
            <= 8 && promotion(b, b2)),
    }
}

/// The types of the `a -> c` edge, in the order of the taxonomy.
pub open spec fn reason_types(a: FamilyKey, c: FamilyKey) -> Seq<EdgeType> {
    let s0: Seq<EdgeType> = if reason(a, c, EdgeType::BMinor) { seq![EdgeType::BMinor] } else { seq![] };
    let s1 = if reason(a, c, EdgeType::BMajor) { s0.push(EdgeType::BMajor) } else { s0 };
    let s2 = if reason(a, c, EdgeType::C) { s1.push(EdgeType::C) } else { s1 };
    let s3 = if reason(a, c, EdgeType::D) { s2.push(EdgeType::D) } else { s2 };
    let s4 = if reason(a, c, EdgeType::E) { s3.push(EdgeType::E) } else { s3 };
    let s5 = if reason(a, c, EdgeType::FWithBMinor) { s4.push(EdgeType::FWithBMinor) } else { s4 };
    let s6 = if reason(a, c, EdgeType::FWithBMajor) { s5.push(EdgeType::FWithBMajor) } else { s5 };
    if reason(a, c, EdgeType::FWithC) { s6.push(EdgeType::FWithC) } else { s6 }
}

/// The aggregated types of the undirected edge between `x` and `y`.
pub open spec fn pair_types(x: FamilyKey, y: FamilyKey) -> Seq<EdgeType> {
    if reason_types(x, y).len() > 0 { reason_types(x, y) } else { reason_types(y, x) }
}

/// Law: a type is listed on the `a -> c` edge exactly when its rule applies.
pub proof fn lemma_reason_types_contains(a: FamilyKey, c: FamilyKey, t: EdgeType)
    ensures
        reason_types(a, c).contains(t) <==> reason(a, c, t),
        reason_types(a, c).len() == 0 <==> forall|u: EdgeType| !reason(a, c, u),
{
    let s = reason_types(a, c);
    if reason(a, c, t) {
        assert(exists|i: int| 0 <= i < s.len() && s[i] == t) by {
            let r0 = reason(a, c, EdgeType::BMinor);
            let r1 = reason(a, c, EdgeType::BMajor);
            let r2 = reason(a, c, EdgeType::C);
            let r3 = reason(a, c, EdgeType::D);
            let r4 = reason(a, c, EdgeType::E);
            let r5 = reason(a, c, EdgeType::FWithBMinor);
            let r6 = reason(a, c, EdgeType::FWithBMajor);
            let n0: int = if r0 { 1 } else { 0 };
            let n1: int = n0 + if r1 { 1int } else { 0int };
            let n2: int = n1 + if r2 { 1int } else { 0int };
            let n3: int = n2 + if r3 { 1int } else { 0int };
            let n4: int = n3 + if r4 { 1int } else { 0int };
            let n5: int = n4 + if r5 { 1int } else { 0int };
            let n6: int = n5 + if r6 { 1int } else { 0int };
            match t {
                EdgeType::BMinor => assert(s[0] == t),
                EdgeType::BMajor => assert(s[n0] == t),
                EdgeType::C => assert(s[n1] == t),
                EdgeType::D => assert(s[n2] == t),
                EdgeType::E => assert(s[n3] == t),
                EdgeType::FWithBMinor => assert(s[n4] == t),
                EdgeType::FWithBMajor => assert(s[n5] == t),
                EdgeType::FWithC => assert(s[n6] == t),
            }
        }
    }
}

/// Ordering potential: every reason strictly lowers it.
pub open spec fn potential(k: FamilyKey) -> int {
    (k.wp + k.bp) * 100 + k.wnp_band + k.bnp_band
}

/// Law: every reason leads from a valid family to a valid family with at
/// most one pawn fewer per side and strictly lower potential, so no family
/// pair has reasons in both directions and no family has an edge to itself.
pub proof fn lemma_reason_descends(a: FamilyKey, c: FamilyKey, t: EdgeType)
    requires
        a.valid(),
        reason(a, c, t),
    ensures
        c.valid(),
        potential(c) < potential(a),
        c.wp == a.wp || c.wp + 1 == a.wp,
        c.bp == a.bp || c.bp + 1 == a.bp,
        c != a,
{
}

/// Law: the rules never apply in both directions between two families.
pub proof fn lemma_reasons_one_way(x: FamilyKey, y: FamilyKey)
    requires
        x.valid(),
        reason_types(x, y).len() > 0,
    ensures
        reason_types(y, x).len() == 0,
        pair_types(x, y) == reason_types(x, y),
        pair_types(y, x) == reason_types(x, y),
        x != y,
{
    lemma_reason_types_contains(x, y, EdgeType::BMinor);
    let t = choose|t: EdgeType| reason(x, y, t);
    lemma_reason_descends(x, y, t);
    lemma_reason_types_contains(y, x, EdgeType::BMinor);
    if reason_types(y, x).len() > 0 {
        let u = choose|u: EdgeType| reason(y, x, u);
        lemma_reason_descends(y, x, u);
    }
}

fn reason_exec(a: FamilyKey, c: FamilyKey, t: EdgeType) -> (r: bool)
    requires
        a.valid(),
        c.valid(),
    ensures
        r == reason(a, c, t),
{
    let w = a.wnp_band as usize;
    let b = a.bnp_band as usize;
    let wp = a.wp;
    let bp = a.bp;
    let w2 = c.wnp_band as usize;
    let b2 = c.bnp_band as usize;
    let wp2 = c.wp;
    let bp2 = c.bp;
    match t {
        EdgeType::BMinor => (b2 == b && wp2 == wp && bp2 == bp && can_remove_minor(w, w2)) || (w2 == w
            && wp2 == wp && bp2 == bp && can_remove_minor(b, b2)),
        EdgeType::BMajor => (b2 == b && wp2 == wp && bp2 == bp && can_remove_major(w, w2)) || (w2 == w
            && wp2 == wp && bp2 == bp && can_remove_major(b, b2)),
        EdgeType::C => w2 == w && b2 == b && ((wp2 == wp && bp > 0 && bp2 + 1 == bp) || (bp2 == bp
            && wp > 0 && wp2 + 1 == wp)),
        EdgeType::D => w2 == w && b2 == b && wp > 0 && bp > 0 && ((wp2 == wp && bp2 + 1 == bp) || (bp2
            == bp && wp2 + 1 == wp)),
        EdgeType::E => (wp > 0 && wp2 + 1 == wp && bp2 == bp && b2 == b && can_promote_to(w, w2)) || (bp
            > 0 && bp2 + 1 == bp && wp2 == wp && w2 == w && can_promote_to(b, b2)),
        EdgeType::FWithBMinor => (wp > 0 && wp2 + 1 == wp && bp2 == bp && can_promote_to(w, w2)
            && can_remove_minor(b, b2)) || (bp > 0 && bp2 + 1 == bp && wp2 == wp && can_promote_to(b, b2)
            && can_remove_minor(w, w2)),
        EdgeType::FWithBMajor => (wp > 0 && wp2 + 1 == wp && bp2 == bp && can_promote_to(w, w2)
            && can_remove_major(b, b2)) || (bp > 0 && bp2 + 1 == bp && wp2 == wp && can_promote_to(b, b2)
            && can_remove_major(w, w2)),
        EdgeType::FWithC => (wp > 0 && bp > 0 && wp2 + 1 == wp && bp2 + 1 == bp && b2 == b
            && can_promote_to(w, w2)) || (bp > 0 && wp > 0 && bp2 + 1 == bp && wp2 + 1 == wp && w2 == w
            && can_promote_to(b, b2)),
    }
}

/// The types of the `a -> c` edge, in taxonomy order.
fn reason_types_exec(a: FamilyKey, c: FamilyKey) -> (v: Vec<EdgeType>)
    requires
        a.valid(),
        c.valid(),
    ensures
        v@ == reason_types(a, c),
{
    let mut v: Vec<EdgeType> = Vec::new();
    if reason_exec(a, c, EdgeType::BMinor) {
        v.push(EdgeType::BMinor);
    }
    if reason_exec(a, c, EdgeType::BMajor) {
        v.push(EdgeType::BMajor);
    }
    if reason_exec(a, c, EdgeType::C) {
        v.push(EdgeType::C);
    }
    if reason_exec(a, c, EdgeType::D) {
        v.push(EdgeType::D);
    }
    if reason_exec(a, c, EdgeType::E) {
        v.push(EdgeType::E);
    }
    if reason_exec(a, c, EdgeType::FWithBMinor) {
        v.push(EdgeType::FWithBMinor);
    }
    if reason_exec(a, c, EdgeType::FWithBMajor) {
        v.push(EdgeType::FWithBMajor);
    }
    if reason_exec(a, c, EdgeType::FWithC) {
        v.push(EdgeType::FWithC);
    }
    proof {
        assert(v@ =~= reason_types(a, c));
    }
    v
}


// ── The petgraph graph ───────────────────────────────────────────────────────

#[verifier::external_type_specification]
#[verifier::external_body]
#[verifier::reject_recursive_types(N)]
#[verifier::reject_recursive_types(E)]
#[verifier::reject_recursive_types(Ty)]
#[verifier::reject_recursive_types(Ix)]
pub struct ExGraph<N, E, Ty, Ix>(Graph<N, E, Ty, Ix>);

#[verifier::external_type_specification]
#[verifier::external_body]
pub struct ExUndirected(Undirected);

/// Undirected family transition graph.
/// Node weight: `FamilyKey`. Edge weight: `EdgeMeta`.
pub type FamilyGraph = Graph<FamilyKey, EdgeMeta, Undirected>;

/// The node weights of a family graph, in node-index order.
pub uninterp spec fn graph_nodes(g: Graph<FamilyKey, EdgeMeta, Undirected>) -> Seq<FamilyKey>;

/// The edges of a family graph, in edge-index order, as
/// `(first endpoint, second endpoint, weight)`.
pub uninterp spec fn graph_edges(g: Graph<FamilyKey, EdgeMeta, Undirected>) -> Seq<(usize, usize, EdgeMeta)>;

/// `petgraph::Graph::new_undirected`: an empty graph.
#[verifier::external_body]
fn graph_new_undirected() -> (g: FamilyGraph)
    ensures
        graph_nodes(g) == Seq::<FamilyKey>::empty(),
        graph_edges(g) == Seq::<(usize, usize, EdgeMeta)>::empty(),
{
    Graph::new_undirected()
}

/// `petgraph::Graph::add_node`: appends the node weight and returns its index.
/// The call panics when the node count reaches the `u32` index limit, so that
/// is excluded.
#[verifier::external_body]
fn graph_add_node(g: &mut FamilyGraph, weight: FamilyKey) -> (idx: usize)
    requires
        graph_nodes(*old(g)).len() < u32::MAX,
    ensures
        graph_nodes(*final(g)) == graph_nodes(*old(g)).push(weight),
        graph_edges(*final(g)) == graph_edges(*old(g)),
        idx == graph_nodes(*old(g)).len(),
{
    g.add_node(weight).index()
}

/// `petgraph::Graph::add_edge`: appends an edge between two existing nodes.
/// The call panics on an endpoint out of range or when the edge count reaches
/// the `u32` index limit, so those are excluded.
#[verifier::external_body]
fn graph_add_edge(g: &mut FamilyGraph, a: usize, b: usize, weight: EdgeMeta)
    requires
        a < graph_nodes(*old(g)).len(),
        b < graph_nodes(*old(g)).len(),
        graph_edges(*old(g)).len() < u32::MAX,
    ensures
        graph_nodes(*final(g)) == graph_nodes(*old(g)),
        graph_edges(*final(g)) == graph_edges(*old(g)).push((a, b, weight)),
{
    g.add_edge(NodeIndex::new(a), NodeIndex::new(b), weight);
}

// ── Graph construction ───────────────────────────────────────────────────────

/// The family table is in index order: row `i` holds a valid key of index `i`.
pub open spec fn index_ordered(fs: Seq<FamilyRecord>) -> bool {
    forall|i: int| 0 <= i < fs.len() ==> (#[trigger] fs[i]).key.valid() && fs[i].key.linear_index() == i
}

/// Every family that the rules reach from a row of the table is in the table.
pub open spec fn closed_under_reasons(fs: Seq<FamilyRecord>) -> bool {
    forall|i: int, c: FamilyKey, t: EdgeType|
        0 <= i < fs.len() && #[trigger] reason(fs[i].key, c, t) ==> c.linear_index() < fs.len()
}

pub open spec fn family_keys(fs: Seq<FamilyRecord>) -> Seq<FamilyKey> {
    fs.map_values(|r: FamilyRecord| r.key)
}

/// Edge `e` of a graph over `keys` joins `e.0 < e.1`, and carries the
/// aggregated types of that pair and their maximum weight.
pub open spec fn edge_matches(keys: Seq<FamilyKey>, e: (usize, usize, EdgeMeta)) -> bool {
    &&& e.0 < e.1 < keys.len()
    &&& pair_types(keys[e.0 as int], keys[e.1 as int]).len() > 0
    &&& e.2.edge_types@ == pair_types(keys[e.0 as int], keys[e.1 as int])
    &&& e.2.layout_weight == max_weight(pair_types(keys[e.0 as int], keys[e.1 as int]))
}

/// Candidate target number `cd` (0..324) of family `a`: any bands, and each
/// side's pawn count kept or lowered by one.
pub open spec fn candidate(a: FamilyKey, cd: int) -> FamilyKey {
    FamilyKey {
        wnp_band: (cd / 36) as u8,
        bnp_band: ((cd / 4) % 9) as u8,
        wp: (a.wp - (cd / 2) % 2) as u8,
        bp: (a.bp - cd % 2) as u8,
    }
}

pub open spec fn candidate_ok(a: FamilyKey, cd: int) -> bool {
    0 <= cd < 324 && (cd / 2) % 2 <= a.wp && cd % 2 <= a.bp
}

/// Row `p` of the table produces an edge from its candidate `cd`.
pub open spec fn produced(fs: Seq<FamilyRecord>, p: int, cd: int) -> bool {
    candidate_ok(fs[p].key, cd) && reason_types(fs[p].key, candidate(fs[p].key, cd)).len() > 0
}

proof fn lemma_candidate_valid(a: FamilyKey, cd: int)
    requires
        a.valid(),
        candidate_ok(a, cd),
    ensures
        candidate(a, cd).valid(),
        candidate(a, cd).wnp_band == cd / 36,
        candidate(a, cd).bnp_band == (cd / 4) % 9,
        candidate(a, cd).wp == a.wp - (cd / 2) % 2,
        candidate(a, cd).bp == a.bp - cd % 2,
{
    assert(0 <= cd / 36 <= 8) by (nonlinear_arith) requires 0 <= cd < 324;
    assert(0 <= (cd / 4) % 9 <= 8) by (nonlinear_arith) requires 0 <= cd < 324;
    assert(0 <= (cd / 2) % 2 <= 1) by (nonlinear_arith) requires 0 <= cd < 324;
    assert(0 <= cd % 2 <= 1) by (nonlinear_arith) requires 0 <= cd < 324;
}

/// Every reason target of `a` is one of its candidates, and candidates are
/// distinct.
proof fn lemma_candidate_code(a: FamilyKey, c: FamilyKey)
    requires
        a.valid(),
        c.valid(),
        c.wp == a.wp || c.wp + 1 == a.wp,
        c.bp == a.bp || c.bp + 1 == a.bp,
    ensures
        ({
            let cd = c.wnp_band * 36 + c.bnp_band * 4 + (a.wp - c.wp) * 2 + (a.bp - c.bp);
            candidate_ok(a, cd) && candidate(a, cd) == c
        }),
{
    let dw = a.wp - c.wp;
    let db = a.bp - c.bp;
    let cd = c.wnp_band * 36 + c.bnp_band * 4 + dw * 2 + db;
    assert(cd / 36 == c.wnp_band && (cd / 4) % 9 == c.bnp_band && (cd / 2) % 2 == dw && cd % 2 == db)
        by (nonlinear_arith)
        requires
            cd == c.wnp_band * 36 + c.bnp_band * 4 + dw * 2 + db,
            0 <= c.wnp_band <= 8,
            0 <= c.bnp_band <= 8,
            0 <= dw <= 1,
            0 <= db <= 1,
    ;
}

proof fn lemma_candidate_injective(a: FamilyKey, cd1: int, cd2: int)
    requires
        a.valid(),
        candidate_ok(a, cd1),
        candidate_ok(a, cd2),
        candidate(a, cd1) == candidate(a, cd2),
    ensures
        cd1 == cd2,
{
    lemma_candidate_valid(a, cd1);
    lemma_candidate_valid(a, cd2);
    assert(cd1 == (cd1 / 36) * 36 + ((cd1 / 4) % 9) * 4 + ((cd1 / 2) % 2) * 2 + cd1 % 2) by (nonlinear_arith)
        requires 0 <= cd1 < 324;
    assert(cd2 == (cd2 / 36) * 36 + ((cd2 / 4) % 9) * 4 + ((cd2 / 2) % 2) * 2 + cd2 % 2) by (nonlinear_arith)
        requires 0 <= cd2 < 324;
}

/// Two valid keys with the same index are equal.
proof fn lemma_index_injective(k1: FamilyKey, k2: FamilyKey)
    requires
        k1.valid(),
        k2.valid(),
        k1.linear_index() == k2.linear_index(),
    ensures
        k1 == k2,
{
    lemma_index_roundtrip(k1);
    lemma_index_roundtrip(k2);
}

/// Enumerate all family edges by the coarse-delta rules and build the graph:
/// one node per table row in row order, and one edge per unordered family pair
/// that some rule connects, carrying the aggregated types of the pair.
pub fn build_graph(families: &[FamilyRecord]) -> (g: FamilyGraph)
    requires
        index_ordered(families@),
        closed_under_reasons(families@),
    ensures
        graph_nodes(g) == family_keys(families@),
        forall|e: int| 0 <= e < graph_edges(g).len() ==> edge_matches(family_keys(families@), #[trigger] graph_edges(g)[e]),
        forall|i: int, j: int| 0 <= i < j < families@.len() && pair_types(families@[i].key, families@[j].key).len() > 0
            ==> exists|e: int| 0 <= e < graph_edges(g).len() && #[trigger] graph_edges(g)[e].0 == i && graph_edges(g)[e].1 == j,
        forall|e1: int, e2: int| 0 <= e1 < e2 < graph_edges(g).len() ==>
            (#[trigger] graph_edges(g)[e1].0, graph_edges(g)[e1].1) != (#[trigger] graph_edges(g)[e2].0, graph_edges(g)[e2].1),
{
    let ghost fs = families@;
    let n = families.len();
    proof {
        if n > 6561 {
            lemma_index_roundtrip(fs[6561].key);
        }
    }
    let mut g = graph_new_undirected();
    let mut i: usize = 0;
    while i < n
        invariant
            i <= n,
            n == fs.len(),
            n <= 6561,
            families@ == fs,
            graph_nodes(g) == family_keys(fs).take(i as int),
            graph_edges(g).len() == 0,
        decreases n - i,
    {
        proof {
            assert(family_keys(fs).take(i + 1) =~= family_keys(fs).take(i as int).push(fs[i as int].key));
        }
        graph_add_node(&mut g, families[i].key);
        i = i + 1;
    }
    proof {
        assert(family_keys(fs).take(n as int) =~= family_keys(fs));
    }
    let ghost mut origin: Seq<(int, int)> = Seq::empty();
    let mut p: usize = 0;
    while p < n
        invariant
            p <= n,
            n == fs.len(),
            n <= 6561,
            families@ == fs,
            index_ordered(fs),
            closed_under_reasons(fs),
            graph_nodes(g) == family_keys(fs),
            graph_edges(g).len() == origin.len(),
            origin.len() <= p * 324,
            forall|e: int| 0 <= e < origin.len() ==> {
                let o = #[trigger] origin[e];
                &&& 0 <= o.0 < p
                &&& origin_edge(fs, o, graph_edges(g)[e])
            },
            forall|e1: int, e2: int| 0 <= e1 < e2 < origin.len() ==> lex_less(#[trigger] origin[e1], #[trigger] origin[e2]),
            forall|q: int, cd: int| 0 <= q < p && #[trigger] produced(fs, q, cd) ==>
                exists|e: int| 0 <= e < origin.len() && #[trigger] origin[e] == (q, cd),
        decreases n - p,
    {
        let a = families[p].key;
        let mut cd: usize = 0;
        while cd < 324
            invariant
                p < n,
                cd <= 324,
                n == fs.len(),
                n <= 6561,
                families@ == fs,
                a == fs[p as int].key,
                a.valid(),
                index_ordered(fs),
                closed_under_reasons(fs),
                graph_nodes(g) == family_keys(fs),
                graph_edges(g).len() == origin.len(),
                origin.len() <= p * 324 + cd,
                forall|e: int| 0 <= e < origin.len() ==> {
                    let o = #[trigger] origin[e];
                    &&& 0 <= o.0 <= p
                    &&& (o.0 == p ==> o.1 < cd)
                    &&& origin_edge(fs, o, graph_edges(g)[e])
                },
                forall|e1: int, e2: int| 0 <= e1 < e2 < origin.len() ==> lex_less(#[trigger] origin[e1], #[trigger] origin[e2]),
                forall|q: int, c2: int| (0 <= q < p || (q == p && c2 < cd)) && #[trigger] produced(fs, q, c2) ==>
                    exists|e: int| 0 <= e < origin.len() && #[trigger] origin[e] == (q, c2),
            decreases 324 - cd,
        {
            let dw = ((cd / 2) % 2) as u8;
            let db = (cd % 2) as u8;
            proof {
                assert(0 <= cd / 36 <= 8) by (nonlinear_arith) requires 0 <= cd < 324;
                assert(0 <= (cd / 4) % 9 <= 8) by (nonlinear_arith) requires 0 <= cd < 324;
            }
            let ghost pushed = false;
            let ghost old_origin = origin;
            if dw <= a.wp && db <= a.bp {
                let c = FamilyKey {
                    wnp_band: (cd / 36) as u8,
                    bnp_band: ((cd / 4) % 9) as u8,
                    wp: a.wp - dw,
                    bp: a.bp - db,
                };
                proof {
                    lemma_candidate_valid(a, cd as int);
                    assert(c == candidate(a, cd as int));
                }
                let types = reason_types_exec(a, c);
                if types.len() > 0 {
                    proof {
                        lemma_reason_types_contains(a, c, EdgeType::BMinor);
                        let t = choose|t: EdgeType| reason(a, c, t);
                        assert(reason(fs[p as int].key, c, t));
                    }
                    let j = c.index();
                    let (lo, hi) = if p < j { (p, j) } else { (j, p) };
                    let ghost before = graph_edges(g);
                    let meta = EdgeMeta::from_types(types);
                    proof {
                        assert(origin.len() < u32::MAX) by (nonlinear_arith)
                            requires origin.len() <= p * 324 + cd, p < 6561, cd < 324;
                    }
                    graph_add_edge(&mut g, lo, hi, meta);
                    proof {
                        let ghost new_o = (p as int, cd as int);
                        assert(produced(fs, p as int, cd as int));
                        assert(origin_edge(fs, new_o, graph_edges(g)[origin.len() as int]));
                        assert forall|e: int| 0 <= e < origin.len() implies graph_edges(g)[e] == before[e] by {}
                        origin = origin.push(new_o);
                        pushed = true;
                    }
                } else {
                    assert(!produced(fs, p as int, cd as int));
                }
            } else {
                assert(!candidate_ok(a, cd as int));
            }
            proof {
                assert forall|q: int, c2: int| (0 <= q < p || (q == p && c2 < cd + 1)) && #[trigger] produced(fs, q, c2) implies
                    exists|e: int| 0 <= e < origin.len() && #[trigger] origin[e] == (q, c2) by {
                    if q == p && c2 == cd {
                        assert(pushed);
                        assert(origin[origin.len() - 1] == (q, c2));
                    } else {
                        let e = choose|e: int| 0 <= e < old_origin.len() && #[trigger] old_origin[e] == (q, c2);
                        assert(origin[e] == old_origin[e]);
                    }
                }
            }
            cd = cd + 1;
        }
        p = p + 1;
    }
    proof {
        lemma_build_graph_post(fs, graph_edges(g), origin);
    }
    g
}

pub open spec fn lex_less(x: (int, int), y: (int, int)) -> bool {
    x.0 < y.0 || (x.0 == y.0 && x.1 < y.1)
}

/// Edge `e` is the one that row `o.0`'s candidate `o.1` contributes.
pub open spec fn origin_edge(fs: Seq<FamilyRecord>, o: (int, int), e: (usize, usize, EdgeMeta)) -> bool {
    let a = fs[o.0].key;
    let c = candidate(a, o.1);
    let j = c.linear_index();
    &&& produced(fs, o.0, o.1)
    &&& e.0 == (if o.0 < j { o.0 } else { j })
    &&& e.1 == (if o.0 < j { j } else { o.0 })
    &&& e.2.edge_types@ == reason_types(a, c)
    &&& e.2.layout_weight == max_weight(reason_types(a, c))
}

proof fn lemma_origin_facts(fs: Seq<FamilyRecord>, o: (int, int))
    requires
        index_ordered(fs),
        closed_under_reasons(fs),
        0 <= o.0 < fs.len(),
        produced(fs, o.0, o.1),
    ensures
        ({
            let a = fs[o.0].key;
            let c = candidate(a, o.1);
            let j = c.linear_index();
            &&& 0 <= j < fs.len()
            &&& fs[j].key == c
            &&& j != o.0
            &&& pair_types(a, c) == reason_types(a, c)
            &&& pair_types(c, a) == reason_types(a, c)
            &&& reason_types(c, a).len() == 0
        }),
{
    let a = fs[o.0].key;
    assert(a.valid());
    let c = candidate(a, o.1);
    lemma_candidate_valid(a, o.1);
    lemma_reason_types_contains(a, c, EdgeType::BMinor);
    let t = choose|t: EdgeType| reason(a, c, t);
    assert(reason(fs[o.0].key, c, t));
    let j = c.linear_index();
    lemma_index_roundtrip(c);
    assert(fs[j].key.valid() && fs[j].key.linear_index() == j);
    lemma_index_injective(fs[j].key, c);
    lemma_reasons_one_way(a, c);
}

proof fn lemma_build_graph_post(fs: Seq<FamilyRecord>, edges: Seq<(usize, usize, EdgeMeta)>, origin: Seq<(int, int)>)
    requires
        index_ordered(fs),
        closed_under_reasons(fs),
        edges.len() == origin.len(),
        forall|e: int| 0 <= e < origin.len() ==> {
            let o = #[trigger] origin[e];
            &&& 0 <= o.0 < fs.len()
            &&& origin_edge(fs, o, edges[e])
        },
        forall|e1: int, e2: int| 0 <= e1 < e2 < origin.len() ==> lex_less(#[trigger] origin[e1], #[trigger] origin[e2]),
        forall|q: int, cd: int| 0 <= q < fs.len() && #[trigger] produced(fs, q, cd) ==>
            exists|e: int| 0 <= e < origin.len() && #[trigger] origin[e] == (q, cd),
    ensures
        forall|e: int| 0 <= e < edges.len() ==> edge_matches(family_keys(fs), #[trigger] edges[e]),
        forall|i: int, j: int| 0 <= i < j < fs.len() && pair_types(fs[i].key, fs[j].key).len() > 0
            ==> exists|e: int| 0 <= e < edges.len() && #[trigger] edges[e].0 == i && edges[e].1 == j,
        forall|e1: int, e2: int| 0 <= e1 < e2 < edges.len() ==>
            (#[trigger] edges[e1].0, edges[e1].1) != (#[trigger] edges[e2].0, edges[e2].1),
{
    let keys = family_keys(fs);
    assert forall|e: int| 0 <= e < edges.len() implies edge_matches(keys, #[trigger] edges[e]) by {
        let o = origin[e];
        lemma_origin_facts(fs, o);
        let a = fs[o.0].key;
        let c = candidate(a, o.1);
        let j = c.linear_index();
        assert(keys[o.0] == a);
        assert(keys[j] == c);
    }
    assert forall|i: int, j: int| 0 <= i < j < fs.len() && pair_types(fs[i].key, fs[j].key).len() > 0
        implies exists|e: int| 0 <= e < edges.len() && #[trigger] edges[e].0 == i && edges[e].1 == j by {
        let ki = fs[i].key;
        let kj = fs[j].key;
        assert(ki.valid() && ki.linear_index() == i);
        assert(kj.valid() && kj.linear_index() == j);
        if reason_types(ki, kj).len() > 0 {
            lemma_reason_types_contains(ki, kj, EdgeType::BMinor);
            let t = choose|t: EdgeType| reason(ki, kj, t);
            lemma_reason_descends(ki, kj, t);
            lemma_candidate_code(ki, kj);
            let cd = kj.wnp_band * 36 + kj.bnp_band * 4 + (ki.wp - kj.wp) * 2 + (ki.bp - kj.bp);
            assert(produced(fs, i, cd));
            let e = choose|e: int| 0 <= e < origin.len() && #[trigger] origin[e] == (i, cd);
            assert(edges[e].0 == i && edges[e].1 == j);
        } else {
            assert(reason_types(kj, ki).len() > 0);
            lemma_reason_types_contains(kj, ki, EdgeType::BMinor);
            let t = choose|t: EdgeType| reason(kj, ki, t);
            lemma_reason_descends(kj, ki, t);
            lemma_candidate_code(kj, ki);
            let cd = ki.wnp_band * 36 + ki.bnp_band * 4 + (kj.wp - ki.wp) * 2 + (kj.bp - ki.bp);
            assert(produced(fs, j, cd));
            let e = choose|e: int| 0 <= e < origin.len() && #[trigger] origin[e] == (j, cd);
            assert(edges[e].0 == i && edges[e].1 == j);
        }
    }
    assert forall|e1: int, e2: int| 0 <= e1 < e2 < edges.len() implies
        (#[trigger] edges[e1].0, edges[e1].1) != (#[trigger] edges[e2].0, edges[e2].1) by {
        let o1 = origin[e1];
        let o2 = origin[e2];
        assert(lex_less(o1, o2));
        lemma_origin_facts(fs, o1);
        lemma_origin_facts(fs, o2);
        let a1 = fs[o1.0].key;
        let a2 = fs[o2.0].key;
        let c1 = candidate(a1, o1.1);
        let c2 = candidate(a2, o2.1);
        let j1 = c1.linear_index();
        let j2 = c2.linear_index();
        if edges[e1].0 == edges[e2].0 && edges[e1].1 == edges[e2].1 {
            if o1.0 == o2.0 {
                assert(j1 == j2);
                lemma_candidate_valid(a1, o1.1);
                lemma_candidate_valid(a2, o2.1);
                lemma_index_injective(c1, c2);
                assert(a1.valid());
                lemma_candidate_injective(a1, o1.1, o2.1);
            } else {
                assert(o1.0 == j2 && o2.0 == j1);
                assert(fs[j1].key == a2);
                assert(reason_types(a1, a2).len() > 0);
                lemma_reasons_one_way(a2, c2);
                assert(c2 == a1);
            }
        }
    }
}


/// Law: the full family table in index order meets the graph builder's
/// requirements: every rule leads from a family of the table to a family of
/// the table.
pub proof fn lemma_full_table_graph_ready(fs: Seq<FamilyRecord>)
    requires
        fs.len() == 6561,
        forall|i: int| 0 <= i < 6561 ==> #[trigger] fs[i].key == key_of_index(i),
    ensures
        index_ordered(fs),
        closed_under_reasons(fs),
{
    assert forall|i: int| 0 <= i < fs.len() implies (#[trigger] fs[i]).key.valid() && fs[i].key.linear_index() == i by {
        lemma_from_index_roundtrip(i);
    }
    assert forall|i: int, c: FamilyKey, t: EdgeType| 0 <= i < fs.len() && #[trigger] reason(fs[i].key, c, t) implies c.linear_index() < fs.len() by {
        lemma_from_index_roundtrip(i);
        lemma_reason_descends(fs[i].key, c, t);
        lemma_index_roundtrip(c);
    }
}


// ── Laws of the edge rules ───────────────────────────────────────────────────

/// Law (promotion by value): a promotion raises band `from` to band `to`
/// exactly when some non-pawn value `v` of band `from` gains 3 (knight or
/// bishop), 5 (rook) or 9 (queen) and lands, at most 31, on a value `u` of
/// band `to`, a higher band.
pub proof fn lemma_promotion_by_value(from: int, to: int)
    requires
        0 <= from < 9,
        0 <= to < 9,
    ensures
        promotion(from, to) <==> from < to && exists|v: int, u: int|
            #![trigger band_index_of(v), band_index_of(u)]
            0 <= v < u <= 31 && (u - v == 3 || u - v == 5 || u - v == 9) && band_index_of(v) == from
                && band_index_of(u) == to,
{
    if promotion(from, to) {
        let p: int = if addition_reaches(from, to, 3) { 3 } else if addition_reaches(from, to, 5) { 5 } else { 9 };
        let v = choose|v: int| #[trigger] value_in_band(from, v) && v + p <= 31 && value_in_band(to, v + p);
        lemma_band_of_unique_monotone(v, v, from);
        lemma_band_of_unique_monotone(v + p, v + p, to);
        assert(band_index_of(v) == from && band_index_of(v + p) == to);
    }
    if from < to && exists|v: int, u: int|
        #![trigger band_index_of(v), band_index_of(u)]
        0 <= v < u <= 31 && (u - v == 3 || u - v == 5 || u - v == 9) && band_index_of(v) == from
            && band_index_of(u) == to {
        let (v, u) = choose|v: int, u: int|
            #![trigger band_index_of(v), band_index_of(u)]
            0 <= v < u <= 31 && (u - v == 3 || u - v == 5 || u - v == 9) && band_index_of(v) == from
                && band_index_of(u) == to;
        lemma_band_of_unique_monotone(v, v, from);
        lemma_band_of_unique_monotone(u, u, to);
        assert(value_in_band(from, v) && value_in_band(to, v + (u - v)));
        assert(addition_reaches(from, to, u - v));
    }
}

/// Law (capture by value): a minor capture lowers band `from` to band `to`
/// exactly when some non-pawn value `v` of band `from` loses 3 and lands on a
/// value of band `to`, a lower band; a major capture likewise with 5 (rook)
/// or 9 (queen).
pub proof fn lemma_capture_by_value(from: int, to: int)
    requires
        0 <= from < 9,
        0 <= to < 9,
    ensures
        minor_capture(from, to) <==> to < from && exists|v: int, u: int|
            #![trigger band_index_of(v), band_index_of(u)]
            0 <= u < v <= 31 && v - u == 3 && band_index_of(v) == from && band_index_of(u) == to,
        major_capture(from, to) <==> to < from && exists|v: int, u: int|
            #![trigger band_index_of(v), band_index_of(u)]
            0 <= u < v <= 31 && (v - u == 5 || v - u == 9) && band_index_of(v) == from
                && band_index_of(u) == to,
{
    assert forall|p: int| p == 3 || p == 5 || p == 9 implies (removal_reaches(from, to, p) <==> exists|v: int, u: int|
        #![trigger band_index_of(v), band_index_of(u)]
        0 <= u < v <= 31 && v - u == p && band_index_of(v) == from && band_index_of(u) == to) by {
        if removal_reaches(from, to, p) {
            let v = choose|v: int| #[trigger] value_in_band(from, v) && v >= p && value_in_band(to, v - p);
            lemma_band_of_unique_monotone(v, v, from);
            lemma_band_of_unique_monotone(v - p, v - p, to);
            assert(band_index_of(v) == from && band_index_of(v - p) == to);
        }
        if exists|v: int, u: int|
            #![trigger band_index_of(v), band_index_of(u)]
            0 <= u < v <= 31 && v - u == p && band_index_of(v) == from && band_index_of(u) == to {
            let (v, u) = choose|v: int, u: int|
                #![trigger band_index_of(v), band_index_of(u)]
                0 <= u < v <= 31 && v - u == p && band_index_of(v) == from && band_index_of(u) == to;
            lemma_band_of_unique_monotone(v, v, from);
            lemma_band_of_unique_monotone(u, u, to);
            assert(value_in_band(from, v) && value_in_band(to, v - p));
        }
    }
}

/// Law (colour symmetry): every edge rule treats white and black alike, so
/// exchanging the colours of both families keeps each edge and its types.
pub proof fn lemma_reason_color_symmetric(a: FamilyKey, c: FamilyKey, t: EdgeType)
    ensures
        reason(a, c, t) == reason(swap_colors(a), swap_colors(c), t),
        reason_types(a, c) == reason_types(swap_colors(a), swap_colors(c)),
{
    assert forall|u: EdgeType| reason(a, c, u) == reason(swap_colors(a), swap_colors(c), u) by {}
}

/// Law (pawn captures): a non-pawn piece, the king included, can take any
/// pawn, so a C edge leads from a family to the families with one pawn fewer
/// on one side and the same bands, and nowhere else; where both sides have a
/// pawn, a pawn can take a pawn of either side, so the same two families are
/// reached by D edges, and every D edge is also a C edge.
pub proof fn lemma_pawn_capture_edges(a: FamilyKey, c: FamilyKey)
    ensures
        reason(a, c, EdgeType::C) <==> (c.wnp_band == a.wnp_band && c.bnp_band == a.bnp_band && (
            (c.wp == a.wp && c.bp + 1 == a.bp) || (c.bp == a.bp && c.wp + 1 == a.wp))),
        reason(a, c, EdgeType::D) <==> (a.wp > 0 && a.bp > 0 && reason(a, c, EdgeType::C)),
{
}

} // verus!
