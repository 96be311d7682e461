use chessviz2::checksum::fnv64;
use chessviz2::graph::EdgeType;
use chessviz2::viewer::{dominant_edge_type, ColorMode};

#[test]
fn color_mode_labels() {
    assert_eq!(ColorMode::Depletion.label(), "depletion (east)");
    assert_eq!(ColorMode::MaterialDiff.label(), "material diff (north)");
    assert_eq!(ColorMode::PhaseEstimate.label(), "phase estimate (radial)");
    assert_eq!(ColorMode::WnpBand.label(), "white NP band");
    assert_eq!(ColorMode::BnpBand.label(), "black NP band");
    assert_eq!(ColorMode::WhitePawns.label(), "white pawns");
    assert_eq!(ColorMode::BlackPawns.label(), "black pawns");
}

#[test]
fn color_mode_next_cycles_through_all() {
    let mut m = ColorMode::Depletion;
    for expected in ColorMode::ALL.iter().skip(1) {
        m = m.next();
        assert_eq!(m, *expected);
    }
    assert_eq!(m.next(), ColorMode::Depletion);
}

#[test]
fn dominant_edge_type_is_last_heaviest() {
    assert_eq!(dominant_edge_type(&[]), EdgeType::E);
    assert_eq!(dominant_edge_type(&[EdgeType::C, EdgeType::D]), EdgeType::D);
    assert_eq!(dominant_edge_type(&[EdgeType::BMinor, EdgeType::BMajor]), EdgeType::BMinor);
    // Ties go to the later type.
    assert_eq!(dominant_edge_type(&[EdgeType::E, EdgeType::FWithC]), EdgeType::FWithC);
}

#[test]
fn fnv64_known_values() {
    assert_eq!(fnv64(b""), 0xcbf29ce484222325);
    assert_eq!(fnv64(b"a"), 0xaf63dc4c8601ec8c);
    assert_eq!(fnv64(b"foobar"), 0x85944171f73967e8);
}
