use textraster::draw::{calc_text, draw_text, draw_text_mut};
use textraster::glyph::{RenderedGlyph, Sample};
use textraster::pixel::{Pix, COV_ONE};
use textraster::rect::{BBox, Rect};
use textraster::surface::Surface;

const WHITE: Pix = Pix { r: 255, g: 255, b: 255, a: 255 };
const RED: Pix = Pix { r: 255, g: 0, b: 0, a: 255 };
const BLACK: Pix = Pix { r: 0, g: 0, b: 0, a: 255 };

fn glyph(min_x: i32, min_y: i32, samples: Vec<Sample>) -> RenderedGlyph {
    RenderedGlyph {
        bbox: Some(BBox { min_x, min_y, max_x: min_x + 8, max_y: min_y + 8 }),
        samples,
    }
}

fn sample(gx: u32, gy: u32, cov: u32) -> Sample {
    Sample { gx, gy, cov }
}

fn surfaces_equal(a: &Surface, b: &Surface) -> bool {
    if a.width() != b.width() || a.height() != b.height() {
        return false;
    }
    for y in 0..a.height() {
        for x in 0..a.width() {
            if a.get_pixel(x, y) != b.get_pixel(x, y) {
                return false;
            }
        }
    }
    true
}

#[test]
fn full_coverage_sample_paints_the_draw_color() {
    let mut s = Surface::new(8, 8, WHITE);
    let glyphs = vec![glyph(1, 2, vec![sample(0, 0, COV_ONE)])];
    draw_text_mut(&mut s, RED, 3, 1, &glyphs);
    for y in 0..8 {
        for x in 0..8 {
            let expect = if (x, y) == (4, 3) { RED } else { WHITE };
            assert_eq!(s.get_pixel(x, y), expect);
        }
    }
}

#[test]
fn out_of_bounds_samples_are_clipped_not_drawn() {
    let mut s = Surface::new(4, 4, WHITE);
    // One sample lands at (3, 3), in bounds; the others at (4, 4), (-2, 0)
    // and far off the bottom edge, all skipped.
    let glyphs = vec![
        RenderedGlyph {
            bbox: Some(BBox { min_x: 3, min_y: 3, max_x: 9, max_y: 9 }),
            samples: vec![sample(0, 0, COV_ONE), sample(1, 1, COV_ONE), sample(3, 100, COV_ONE)],
        },
        RenderedGlyph {
            bbox: Some(BBox { min_x: -2, min_y: 0, max_x: 0, max_y: 2 }),
            samples: vec![sample(0, 0, COV_ONE)],
        },
    ];
    draw_text_mut(&mut s, BLACK, 0, 0, &glyphs);
    for y in 0..4 {
        for x in 0..4 {
            let expect = if (x, y) == (3, 3) { BLACK } else { WHITE };
            assert_eq!(s.get_pixel(x, y), expect);
        }
    }
}

#[test]
fn zero_coverage_run_leaves_the_surface_identical() {
    let before = Surface::new(6, 6, WHITE);
    let mut after = before.duplicate();
    let glyphs = vec![
        glyph(0, 0, vec![sample(0, 0, 0), sample(1, 1, 0), sample(2, 0, 0)]),
        glyph(3, 3, vec![sample(0, 0, 0)]),
    ];
    draw_text_mut(&mut after, RED, 0, 0, &glyphs);
    assert!(surfaces_equal(&before, &after));
    assert_eq!(calc_text(&before, 0, 0, &glyphs), None);
}

#[test]
fn empty_run_is_a_no_op_and_has_no_bounds() {
    let before = Surface::new(5, 5, WHITE);
    let mut after = before.duplicate();
    let glyphs: Vec<RenderedGlyph> = Vec::new();
    draw_text_mut(&mut after, RED, 2, 2, &glyphs);
    assert!(surfaces_equal(&before, &after));
    assert_eq!(calc_text(&before, 2, 2, &glyphs), None);
}

#[test]
fn whitespace_glyphs_have_no_box_and_leave_no_trace() {
    let before = Surface::new(5, 5, WHITE);
    let mut after = before.duplicate();
    let glyphs = vec![RenderedGlyph { bbox: None, samples: Vec::new() }];
    draw_text_mut(&mut after, RED, 1, 1, &glyphs);
    assert!(surfaces_equal(&before, &after));
    assert_eq!(calc_text(&before, 1, 1, &glyphs), None);
}

#[test]
fn origin_far_right_of_the_surface_clips_everything() {
    let before = Surface::new(20, 20, WHITE);
    let mut after = before.duplicate();
    let glyphs = vec![
        glyph(0, 0, vec![sample(0, 0, COV_ONE), sample(1, 0, COV_ONE)]),
        glyph(10, 0, vec![sample(0, 0, COV_ONE)]),
    ];
    let far = before.width() + 1000;
    draw_text_mut(&mut after, RED, far, 0, &glyphs);
    assert!(surfaces_equal(&before, &after));
    assert_eq!(calc_text(&before, far, 0, &glyphs), None);
}

#[test]
fn bounds_span_the_inked_extremes() {
    let s = Surface::new(10, 10, WHITE);
    // Ink lands at (2, 3) and (5, 6): the rectangle is anchored at the
    // minima and sized by the difference of the extremes.
    let glyphs = vec![glyph(2, 3, vec![sample(0, 0, COV_ONE), sample(3, 3, 1)])];
    let r = calc_text(&s, 0, 0, &glyphs);
    assert_eq!(r, Some(Rect { x: 2, y: 3, width: 3, height: 3 }));
}

#[test]
fn bounds_ignore_zero_coverage_and_clipped_samples() {
    let s = Surface::new(4, 4, WHITE);
    let glyphs = vec![
        glyph(2, 2, vec![sample(0, 0, 0)]),
        glyph(4, 4, vec![sample(0, 0, COV_ONE)]),
    ];
    assert_eq!(calc_text(&s, 0, 0, &glyphs), None);
}

#[test]
fn ink_only_on_column_zero_reports_no_bounds() {
    // The calculator's maxima start at 0 and only strictly larger
    // coordinates move them, so ink confined to column 0 (or row 0) is
    // reported as invisible.
    let s = Surface::new(6, 6, WHITE);
    let glyphs = vec![glyph(0, 5, vec![sample(0, 0, COV_ONE)])];
    assert_eq!(calc_text(&s, 0, 0, &glyphs), None);
}

#[test]
fn single_inked_pixel_gives_a_degenerate_rectangle() {
    let s = Surface::new(6, 6, WHITE);
    let glyphs = vec![glyph(3, 3, vec![sample(0, 0, COV_ONE)])];
    assert_eq!(calc_text(&s, 0, 0, &glyphs), Some(Rect { x: 3, y: 3, width: 0, height: 0 }));
}

#[test]
fn bounds_contain_every_changed_pixel_with_tight_edges() {
    let before = Surface::new(16, 12, WHITE);
    let mut after = before.duplicate();
    let glyphs = vec![
        glyph(1, 2, vec![sample(0, 0, COV_ONE), sample(2, 1, COV_ONE)]),
        glyph(6, 1, vec![sample(0, 3, COV_ONE), sample(4, 0, COV_ONE)]),
        RenderedGlyph { bbox: None, samples: Vec::new() },
        glyph(9, 5, vec![sample(1, 1, COV_ONE), sample(30, 30, COV_ONE)]),
    ];
    draw_text_mut(&mut after, RED, 2, 1, &glyphs);
    let r = calc_text(&before, 2, 1, &glyphs).expect("ink was drawn, bounds must exist");
    let (lo_x, lo_y) = (r.x as u32, r.y as u32);
    let (hi_x, hi_y) = (r.x as u32 + r.width, r.y as u32 + r.height);
    let mut on_left = false;
    let mut on_top = false;
    let mut on_right = false;
    let mut on_bottom = false;
    for y in 0..after.height() {
        for x in 0..after.width() {
            if after.get_pixel(x, y) != before.get_pixel(x, y) {
                assert!(lo_x <= x && x <= hi_x && lo_y <= y && y <= hi_y);
                on_left |= x == lo_x;
                on_top |= y == lo_y;
                on_right |= x == hi_x;
                on_bottom |= y == hi_y;
            }
        }
    }
    assert!(on_left && on_top && on_right && on_bottom);
}

#[test]
fn overlapping_glyphs_blend_in_run_order() {
    let mut s = Surface::new(3, 3, WHITE);
    // Two half-coverage black samples on the same pixel compound:
    // 255 -> 127 -> 63.
    let glyphs = vec![
        glyph(1, 1, vec![sample(0, 0, 128)]),
        glyph(1, 1, vec![sample(0, 0, 128)]),
    ];
    draw_text_mut(&mut s, BLACK, 0, 0, &glyphs);
    assert_eq!(s.get_pixel(1, 1), Pix { r: 63, g: 63, b: 63, a: 255 });
}

#[test]
fn draw_text_leaves_the_input_untouched() {
    let original = Surface::new(5, 5, WHITE);
    let glyphs = vec![glyph(1, 1, vec![sample(0, 0, COV_ONE)])];
    let drawn = draw_text(&original, BLACK, 0, 0, &glyphs);
    assert_eq!(original.get_pixel(1, 1), WHITE);
    assert_eq!(drawn.get_pixel(1, 1), BLACK);
    assert_eq!(drawn.get_pixel(2, 2), WHITE);
    assert_eq!(drawn.width(), 5);
    assert_eq!(drawn.height(), 5);
}
