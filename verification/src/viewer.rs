use vstd::prelude::*;

use crate::graph::max_weight;
use crate::graph::EdgeType;

verus! {

/// How family glyphs are colored.
#[derive(Clone, Copy, PartialEq, Eq, Debug, Structural)]
pub enum ColorMode {
    /// Blue for the opening through red for the endgame (east axis driver).
    Depletion,
    /// Green when white is ahead, purple when black is ahead, gray when equal.
    MaterialDiff,
    /// Dark for the opening through bright for the endgame.
    PhaseEstimate,
    /// White non-pawn band 0..=8.
    WnpBand,
    /// Black non-pawn band 0..=8.
    BnpBand,
    /// White pawns 0..=8.
    WhitePawns,
    /// Black pawns 0..=8.
    BlackPawns,
}

/// The cycle order of the color modes.
pub open spec fn mode_position(m: ColorMode) -> int {
    match m {
        ColorMode::Depletion => 0,
        ColorMode::MaterialDiff => 1,
        ColorMode::PhaseEstimate => 2,
        ColorMode::WnpBand => 3,
        ColorMode::BnpBand => 4,
        ColorMode::WhitePawns => 5,
        ColorMode::BlackPawns => 6,
    }
}

pub open spec fn mode_at(i: int) -> ColorMode {
    if i == 0 { ColorMode::Depletion } else if i == 1 { ColorMode::MaterialDiff }
    else if i == 2 { ColorMode::PhaseEstimate } else if i == 3 { ColorMode::WnpBand }
    else if i == 4 { ColorMode::BnpBand } else if i == 5 { ColorMode::WhitePawns }
    else { ColorMode::BlackPawns }
}

impl ColorMode {
    /// All color modes, in cycle order.
    pub const ALL: [ColorMode; 7] = [
        ColorMode::Depletion,
        ColorMode::MaterialDiff,
        ColorMode::PhaseEstimate,
        ColorMode::WnpBand,
        ColorMode::BnpBand,
        ColorMode::WhitePawns,
        ColorMode::BlackPawns,
    ];

    /// Human-readable name of the mode.
    pub fn label(self) -> (s: &'static str)
        ensures
            self == ColorMode::Depletion ==> s@ == "depletion (east)"@,
            self == ColorMode::MaterialDiff ==> s@ == "material diff (north)"@,
            self == ColorMode::PhaseEstimate ==> s@ == "phase estimate (radial)"@,
            self == ColorMode::WnpBand ==> s@ == "white NP band"@,
            self == ColorMode::BnpBand ==> s@ == "black NP band"@,
            self == ColorMode::WhitePawns ==> s@ == "white pawns"@,
            self == ColorMode::BlackPawns ==> s@ == "black pawns"@,
    {
        match self {
            ColorMode::Depletion => "depletion (east)",
            ColorMode::MaterialDiff => "material diff (north)",
            ColorMode::PhaseEstimate => "phase estimate (radial)",
            ColorMode::WnpBand => "white NP band",
            ColorMode::BnpBand => "black NP band",
            ColorMode::WhitePawns => "white pawns",
            ColorMode::BlackPawns => "black pawns",
        }
    }

    /// The mode after this one in cycle order, wrapping around.
    pub fn next(self) -> (m: ColorMode)
        ensures
            m == mode_at((mode_position(self) + 1) % 7),
    {
        match self {
            ColorMode::Depletion => ColorMode::MaterialDiff,
            ColorMode::MaterialDiff => ColorMode::PhaseEstimate,
            ColorMode::PhaseEstimate => ColorMode::WnpBand,
            ColorMode::WnpBand => ColorMode::BnpBand,
            ColorMode::BnpBand => ColorMode::WhitePawns,
            ColorMode::WhitePawns => ColorMode::BlackPawns,
            ColorMode::BlackPawns => ColorMode::Depletion,
        }
    }
}

/// Law: stepping `next` seven times from any mode returns to it, and the
/// seven modes visited are all distinct.
pub proof fn lemma_next_cycles(m: ColorMode)
    ensures
        mode_at(mode_position(m)) == m,
        forall|k: int| 0 <= k < 7 ==> mode_position(#[trigger] mode_at(k)) == k,
{
}

/// The type that dominates a list of edge types: the last one of largest
/// v0 weight, and `E` for an empty list.
pub open spec fn dominant(types: Seq<EdgeType>) -> EdgeType
    decreases types.len(),
{
    if types.len() == 0 {
        EdgeType::E
    } else if types.len() == 1 {
        types[0]
    } else {
        let d = dominant(types.drop_last());
        if types.last().weight_spec() >= d.weight_spec() { types.last() } else { d }
    }
}

/// The edge type whose color an edge is drawn in.
pub fn dominant_edge_type(edge_types: &[EdgeType]) -> (t: EdgeType)
    ensures
        t == dominant(edge_types@),
{
    if edge_types.len() == 0 {
        return EdgeType::E;
    }
    let mut best = edge_types[0];
    let mut i: usize = 1;
    while i < edge_types.len()
        invariant
            1 <= i <= edge_types.len(),
            best == dominant(edge_types@.take(i as int)),
        decreases edge_types.len() - i,
    {
        proof {
            assert(edge_types@.take(i + 1).drop_last() =~= edge_types@.take(i as int));
        }
        let t = edge_types[i];
        if t.v0_weight() >= best.v0_weight() {
            best = t;
        }
        i = i + 1;
    }
    proof {
        assert(edge_types@.take(edge_types.len() as int) =~= edge_types@);
    }
    best
}


/// Law: the dominant type of a non-empty list is one of its types and carries
/// the list's maximum weight, the weight the layout uses for that edge.
pub proof fn lemma_dominant_is_heaviest(types: Seq<EdgeType>)
    requires
        types.len() > 0,
    ensures
        dominant(types).weight_spec() == max_weight(types),
        types.contains(dominant(types)),
    decreases types.len(),
{
    let n = types.len() - 1;
    assert(types[n] == types.last());
    if types.len() == 1 {
        assert(types.drop_last().len() == 0);
        assert(max_weight(types.drop_last()) == 0);
    } else {
        let d = types.drop_last();
        lemma_dominant_is_heaviest(d);
        let k = choose|k: int| 0 <= k < d.len() && d[k] == dominant(d);
        assert(types[k] == d[k]);
    }
}

} // verus!
