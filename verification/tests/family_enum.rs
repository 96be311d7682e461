use chessviz2::family::{
    band_composition_stats, band_of, band_stats, band_table, build_table, strategic_counts,
    wnp_band_composition_count, wnp_min_pieces_removed, FamilyKey,
};

fn points(halves: u32) -> f32 {
    halves as f32 / 2.0
}

// ── Basic count and structure ─────────────────────────────────────────────

#[test]
fn table_count_is_6561() {
    assert_eq!(build_table().len(), 6561);
}

#[test]
fn table_index_order_matches_key_index() {
    let table = build_table();
    for (i, rec) in table.iter().enumerate() {
        assert_eq!(rec.key.index(), i, "record at slot {i} has key.index()={}", rec.key.index());
    }
}

#[test]
fn index_round_trips() {
    for idx in 0..6561_usize {
        let key = FamilyKey::from_index(idx);
        assert_eq!(key.index(), idx, "round-trip failed at {idx}");
    }
}

// ── Band table coverage ───────────────────────────────────────────────────

#[test]
fn band_table_entries_are_consistent() {
    for b in &band_table() {
        assert_eq!(b.span, b.hi - b.lo, "span mismatch for band {}", b.index);
    }
}

#[test]
fn band_edges_applied_correctly() {
    for b in &band_table() {
        assert_eq!(band_of(b.lo), b.index, "lo edge failed for band {}", b.index);
        assert_eq!(band_of(b.hi), b.index, "hi edge failed for band {}", b.index);
    }
    assert_eq!(band_of(0), 0);
    assert_eq!(band_of(1), 1);
    assert_eq!(band_of(3), 1);
    assert_eq!(band_of(4), 2);
    assert_eq!(band_of(5), 2);
    assert_eq!(band_of(6), 3);
    assert_eq!(band_of(8), 3);
    assert_eq!(band_of(9), 4);
    assert_eq!(band_of(11), 4);
    assert_eq!(band_of(12), 5);
    assert_eq!(band_of(15), 5);
    assert_eq!(band_of(16), 6);
    assert_eq!(band_of(20), 6);
    assert_eq!(band_of(21), 7);
    assert_eq!(band_of(26), 7);
    assert_eq!(band_of(27), 8);
    assert_eq!(band_of(31), 8);
}

#[test]
fn band_of_is_exhaustive_and_monotone() {
    let mut last_band = 0u8;
    for v in 0u8..=31 {
        let b = band_of(v);
        assert!(b >= last_band, "band_of not monotone at v={v}");
        last_band = b;
    }
}

// ── Derived feature correctness ───────────────────────────────────────────

#[test]
fn band_centers_applied_correctly() {
    let table = build_table();

    let start = table[FamilyKey { wnp_band: 8, bnp_band: 8, wp: 8, bp: 8 }.index()];
    assert_eq!(points(start.features.wnp_center_halves), 29.0);
    assert_eq!(points(start.features.bnp_center_halves), 29.0);

    let bare = table[FamilyKey { wnp_band: 0, bnp_band: 0, wp: 0, bp: 0 }.index()];
    assert_eq!(points(bare.features.wnp_center_halves), 0.0);
    assert_eq!(points(bare.features.bnp_center_halves), 0.0);

    let mid = table[FamilyKey { wnp_band: 5, bnp_band: 5, wp: 4, bp: 4 }.index()];
    assert!((points(mid.features.wnp_center_halves) - 13.5).abs() < 1e-6);
}

#[test]
fn depletion_extremes() {
    let table = build_table();

    let start = table[FamilyKey { wnp_band: 8, bnp_band: 8, wp: 8, bp: 8 }.index()];
    let d = points(start.features.depletion_halves);
    assert!((d - 4.0).abs() < 1e-5, "expected 4.0 got {}", d);

    let bare = table[FamilyKey { wnp_band: 0, bnp_band: 0, wp: 0, bp: 0 }.index()];
    let d = points(bare.features.depletion_halves);
    assert!((d - 78.0).abs() < 1e-5, "expected 78.0 got {}", d);
}

#[test]
fn depletion_increases_with_material_loss() {
    let table = build_table();
    let f8 = table[FamilyKey { wnp_band: 8, bnp_band: 8, wp: 4, bp: 4 }.index()];
    let f7 = table[FamilyKey { wnp_band: 7, bnp_band: 8, wp: 4, bp: 4 }.index()];
    assert!(f7.features.depletion_halves > f8.features.depletion_halves);

    let p4 = table[FamilyKey { wnp_band: 5, bnp_band: 5, wp: 4, bp: 4 }.index()];
    let p3 = table[FamilyKey { wnp_band: 5, bnp_band: 5, wp: 3, bp: 4 }.index()];
    assert!(p3.features.depletion_halves > p4.features.depletion_halves);
    assert!((points(p3.features.depletion_halves) - points(p4.features.depletion_halves) - 1.0).abs() < 1e-5);
}

#[test]
fn phase_estimate_is_normalized() {
    let table = build_table();
    for rec in &table {
        let ph = rec.features.depletion_halves as f32 / 156.0;
        assert!(ph >= 0.0 && ph <= 1.0, "phase_estimate {ph} out of [0,1] for key {:?}", rec.key);
    }
}

#[test]
fn material_diff_sign_convention() {
    let table = build_table();
    let white_up = table[FamilyKey { wnp_band: 7, bnp_band: 3, wp: 4, bp: 4 }.index()];
    assert!(white_up.features.material_diff_halves > 0);

    let black_up = table[FamilyKey { wnp_band: 3, bnp_band: 7, wp: 4, bp: 4 }.index()];
    assert!(black_up.features.material_diff_halves < 0);

    let equal = table[FamilyKey { wnp_band: 5, bnp_band: 5, wp: 4, bp: 4 }.index()];
    assert!((equal.features.material_diff_halves as f32 / 2.0).abs() < 1e-6);
}

#[test]
fn family_mass_prior_starting_family_is_nine() {
    let table = build_table();
    let rec = table[FamilyKey { wnp_band: 8, bnp_band: 8, wp: 8, bp: 8 }.index()];
    assert_eq!(rec.features.family_mass_prior, 9,
        "starting family should have mass_prior=9, got {}", rec.features.family_mass_prior);
}

#[test]
fn family_mass_prior_bare_family_is_one() {
    let table = build_table();
    let rec = table[FamilyKey { wnp_band: 0, bnp_band: 0, wp: 0, bp: 0 }.index()];
    assert_eq!(rec.features.family_mass_prior, 1);
}

#[test]
fn family_mass_prior_is_nonzero_for_all_families() {
    let table = build_table();
    for rec in &table {
        assert!(rec.features.family_mass_prior > 0, "family_mass_prior is 0 for {:?}", rec.key);
    }
}

#[test]
fn family_mass_prior_peaks_at_middle_bands() {
    let table = build_table();
    let mid = table[FamilyKey { wnp_band: 5, bnp_band: 5, wp: 4, bp: 4 }.index()];
    let start = table[FamilyKey { wnp_band: 8, bnp_band: 8, wp: 8, bp: 8 }.index()];
    let bare = table[FamilyKey { wnp_band: 0, bnp_band: 0, wp: 0, bp: 0 }.index()];
    assert!(mid.features.family_mass_prior > start.features.family_mass_prior);
    assert!(mid.features.family_mass_prior > bare.features.family_mass_prior);
}

#[test]
fn min_capture_bound_starting_family_is_zero() {
    let table = build_table();
    let rec = table[FamilyKey { wnp_band: 8, bnp_band: 8, wp: 8, bp: 8 }.index()];
    assert_eq!(rec.features.min_capture_bound, 0,
        "starting family reachable at ply 0, got {}", rec.features.min_capture_bound);
}

#[test]
fn min_capture_bound_bare_family_is_30() {
    let table = build_table();
    let rec = table[FamilyKey { wnp_band: 0, bnp_band: 0, wp: 0, bp: 0 }.index()];
    assert_eq!(rec.features.min_capture_bound, 30,
        "bare family needs 30 captures, got {}", rec.features.min_capture_bound);
}

#[test]
fn min_capture_bound_increases_with_depletion() {
    let table = build_table();
    let f8 = table[FamilyKey { wnp_band: 8, bnp_band: 8, wp: 8, bp: 8 }.index()];
    let f7 = table[FamilyKey { wnp_band: 7, bnp_band: 8, wp: 8, bp: 8 }.index()];
    assert_eq!(f7.features.min_capture_bound, f8.features.min_capture_bound + 1);
    let fp = table[FamilyKey { wnp_band: 8, bnp_band: 8, wp: 7, bp: 8 }.index()];
    assert_eq!(fp.features.min_capture_bound, f8.features.min_capture_bound + 1);
}

#[test]
fn wnp_composition_counts_match_expected() {
    let expected: [u32; 9] = {
        let mut e = [0u32; 9];
        for i in 0..9 {
            e[i] = wnp_band_composition_count(i as u8);
        }
        e
    };
    assert_eq!(expected[0], 1);
    assert_eq!(expected[1], 2);
    assert_eq!(expected[2], 1);
    assert_eq!(expected[8], 3);
    for (i, &c) in expected.iter().enumerate() {
        assert!(c > 0, "band {i} has 0 compositions");
    }
}

#[test]
fn feature_span_is_max_of_band_spans() {
    let table = build_table();
    let rec = table[FamilyKey { wnp_band: 7, bnp_band: 3, wp: 0, bp: 0 }.index()];
    assert!((rec.features.feature_span as f32 - 5.0).abs() < 1e-6);

    let bare = table[FamilyKey { wnp_band: 0, bnp_band: 0, wp: 0, bp: 0 }.index()];
    assert!((bare.features.feature_span as f32 - 0.0).abs() < 1e-6);
}

// ── Further checks of the family layer ────────────────────────────────────

#[test]
fn from_index_decodes_components() {
    let k = FamilyKey::from_index(8 * 729 + 3 * 81 + 5 * 9 + 2);
    assert_eq!(k, FamilyKey { wnp_band: 8, bnp_band: 3, wp: 5, bp: 2 });
    assert_eq!(FamilyKey::from_index(6560), FamilyKey { wnp_band: 8, bnp_band: 8, wp: 8, bp: 8 });
}

#[test]
fn band_table_centers_in_half_points() {
    let centers: Vec<u8> = band_table().iter().map(|b| b.center_halves).collect();
    assert_eq!(centers, vec![0, 4, 9, 14, 20, 27, 36, 47, 58]);
}

#[test]
fn total_material_counts_pawns_as_points() {
    let table = build_table();
    let rec = table[FamilyKey { wnp_band: 5, bnp_band: 3, wp: 2, bp: 6 }.index()];
    // 13.5 + 7.0 + 2 + 6 = 28.5 points = 57 half points.
    assert_eq!(rec.features.total_material_halves, 57);
    assert_eq!(rec.features.material_diff_halves, 13);
}

#[test]
fn band_stats_of_top_band() {
    // Band 8 holds (Q, 2R, 2B, 2N) = 31, (Q, 2R, 2B, N) = 28 and (Q, 2R, B, 2N) = 28.
    let st = band_stats(8);
    assert_eq!(st.count, 3);
    assert_eq!(st.queen_count, 3);
    assert_eq!(st.rook_sum, 6);
    assert_eq!(st.minor_count, 0);
    let all = band_composition_stats();
    assert_eq!(all[8], st);
    // Band 1 holds a lone bishop and a lone knight.
    let b1 = band_stats(1);
    assert_eq!((b1.count, b1.queen_count, b1.rook_sum, b1.minor_count), (2, 0, 0, 0));
}

#[test]
fn strategic_counts_of_bare_and_start() {
    let bare = strategic_counts(0, 0);
    assert_eq!(bare.pairs, 1);
    assert_eq!(
        (bare.queen_any, bare.rook_any, bare.minor_rich, bare.bishop_pair, bare.heavy_dominant),
        (0, 0, 0, 0, 0)
    );
    let start = strategic_counts(8, 8);
    assert_eq!(start.pairs, 9);
    assert_eq!(start.queen_any, 9);
    assert_eq!(start.rook_any, 9);
    assert_eq!(start.minor_rich, 9);
    assert_eq!(start.heavy_dominant, 9);
    // Two of the three black tuples and two of the three white keep both bishops:
    // only (white B+2N, black B+2N) lacks the pair.
    assert_eq!(start.bishop_pair, 8);
}

#[test]
fn min_pieces_removed_table() {
    let v: Vec<u32> = (0u8..9).map(wnp_min_pieces_removed).collect();
    assert_eq!(v, vec![7, 6, 6, 5, 4, 3, 2, 1, 0]);
}

#[test]
fn strategic_counts_ignore_pawns() {
    let table = build_table();
    let a = table[FamilyKey { wnp_band: 6, bnp_band: 4, wp: 0, bp: 8 }.index()];
    let b = table[FamilyKey { wnp_band: 6, bnp_band: 4, wp: 7, bp: 1 }.index()];
    assert_eq!(a.features.strategic, b.features.strategic);
    assert_eq!(a.features.strategic, strategic_counts(6, 4));
    assert_eq!(a.features.family_mass_prior, b.features.family_mass_prior);
}

#[test]
fn strategic_counts_are_symmetric_in_the_bands() {
    for a in 0u8..9 {
        for b in 0u8..9 {
            assert_eq!(strategic_counts(a, b), strategic_counts(b, a));
        }
    }
    let c = strategic_counts(6, 4);
    assert_eq!(c.pairs, strategic_counts(4, 6).pairs);
}
