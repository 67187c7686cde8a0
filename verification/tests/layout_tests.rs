use textraster::layout::{layout, round_px_exec, GlyphStep, SUBUNITS};

fn px(n: i64) -> i32 {
    (n * SUBUNITS) as i32
}

#[test]
fn empty_run_yields_no_positions() {
    let steps: Vec<GlyphStep> = Vec::new();
    let pos = layout(1234, &steps);
    assert_eq!(pos.len(), 0);
}

#[test]
fn one_position_per_glyph() {
    let steps = vec![
        GlyphStep { advance: px(7), kern_with_prev: 0 },
        GlyphStep { advance: px(7), kern_with_prev: -64 },
        GlyphStep { advance: px(7), kern_with_prev: 32 },
    ];
    let pos = layout(0, &steps);
    assert_eq!(pos.len(), steps.len());
}

#[test]
fn first_glyph_sits_at_zero() {
    let steps = vec![
        GlyphStep { advance: px(12), kern_with_prev: 0 },
        GlyphStep { advance: px(3), kern_with_prev: -128 },
    ];
    let pos = layout(999, &steps);
    assert_eq!(pos[0].x, 0);
}

#[test]
fn every_glyph_carries_the_ascent() {
    let ascent: i64 = 13 * SUBUNITS + 57;
    let steps = vec![
        GlyphStep { advance: px(5), kern_with_prev: 0 },
        GlyphStep { advance: px(5), kern_with_prev: 0 },
        GlyphStep { advance: px(5), kern_with_prev: 0 },
    ];
    let pos = layout(ascent, &steps);
    for p in &pos {
        assert_eq!(p.y, ascent);
    }
}

#[test]
fn monospace_pair_advances_by_rounded_advance_plus_kerning() {
    // Monospace advance of 10 px; no kerning between the pair. The second
    // glyph must sit exactly at round(advance + kerning) = 10.
    let steps = vec![
        GlyphStep { advance: px(10), kern_with_prev: 0 },
        GlyphStep { advance: px(10), kern_with_prev: 0 },
    ];
    let pos = layout(64 * SUBUNITS, &steps);
    assert_eq!(pos[0].x, 0);
    assert_eq!(pos[1].x, 10);
}

#[test]
fn kerning_joins_the_advance_before_rounding() {
    // advance 10 px, kerning -0.75 px: the combined step 9.25 rounds once,
    // to 9 — not round(10) + round(-0.75) = 9, nor round(10) - 1 = 9 by
    // accident; check a case where rounding each term would differ:
    // advance 10.375 px (2656) + kerning 0.25 px (64) = 10.625 -> 11,
    // while round(10.375) + round(0.25) would give 10.
    let steps = vec![
        GlyphStep { advance: 2656, kern_with_prev: 0 },
        GlyphStep { advance: px(10), kern_with_prev: 64 },
    ];
    let pos = layout(0, &steps);
    assert_eq!(pos[1].x, 11);

    let steps = vec![
        GlyphStep { advance: px(10), kern_with_prev: 0 },
        GlyphStep { advance: px(10), kern_with_prev: -192 },
    ];
    let pos = layout(0, &steps);
    assert_eq!(pos[1].x, 9);
}

#[test]
fn half_pixel_rounds_away_from_zero() {
    assert_eq!(round_px_exec(128), 1);
    assert_eq!(round_px_exec(-128), -1);
    assert_eq!(round_px_exec(127), 0);
    assert_eq!(round_px_exec(-127), 0);
    assert_eq!(round_px_exec(0), 0);
    assert_eq!(round_px_exec(2560), 10);
    assert_eq!(round_px_exec(-2560), -10);
}

#[test]
fn positions_accumulate_over_a_longer_run() {
    let steps = vec![
        GlyphStep { advance: px(4), kern_with_prev: 0 },
        GlyphStep { advance: px(6), kern_with_prev: -256 },
        GlyphStep { advance: px(8), kern_with_prev: 128 },
    ];
    let pos = layout(0, &steps);
    // x1 = round(4 - 1) = 3; x2 = 3 + round(6 + 0.5) = 3 + 7 = 10.
    assert_eq!(pos[0].x, 0);
    assert_eq!(pos[1].x, 3);
    assert_eq!(pos[2].x, 10);
}
