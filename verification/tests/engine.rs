use rain2d::color::{white, Color};
use rain2d::engine::RainCore;

fn create_core(w: usize, h: usize) -> RainCore {
    RainCore::init(w, h, false)
}

fn painted(core: &RainCore, x: i32, y: i32, color: Color) -> bool {
    core.render_target.get_pixel(x, y) == Some(color)
}

fn count_painted(core: &RainCore, color: Color) -> usize {
    let mut n = 0;
    for y in 0..core.render_target.height as i32 {
        for x in 0..core.render_target.width as i32 {
            if painted(core, x, y, color) {
                n += 1;
            }
        }
    }
    n
}

#[test]
fn mod_test_clear() {
    let mut core = create_core(10, 10);

    core.clear(white());
    for p in core.render_target.data.clone() {
        assert_eq!(p, white().to_u32());
    }
}

#[test]
fn test_draw() {
    let mut core = create_core(10, 10);

    core.draw(5, 3, white());
    assert_eq!(core.render_target.get_pixel(5, 3), Some(white()));
}

#[test]
fn test_vertical_line_is_half_open() {
    let mut core = create_core(10, 10);
    core.draw_line(3, 2, 3, 6, white());
    assert!(painted(&core, 3, 2, white()));
    assert!(painted(&core, 3, 5, white()));
    assert!(!painted(&core, 3, 6, white()));
    assert_eq!(count_painted(&core, white()), 4);
}

#[test]
fn test_horizontal_line_is_half_open() {
    let mut core = create_core(10, 10);
    core.draw_line(6, 4, 2, 4, white());
    assert!(painted(&core, 2, 4, white()));
    assert!(painted(&core, 5, 4, white()));
    assert!(!painted(&core, 6, 4, white()));
    assert_eq!(count_painted(&core, white()), 4);
}

#[test]
fn test_general_line_steps_between_endpoints() {
    let mut core = create_core(10, 10);
    core.draw_line(0, 0, 5, 3, white());
    let expected = [(0, 0), (1, 1), (2, 1), (3, 2), (4, 2), (5, 3)];
    for (x, y) in expected {
        assert!(painted(&core, x, y, white()));
    }
    assert_eq!(count_painted(&core, white()), expected.len());
}

#[test]
fn test_degenerate_circles_write_nothing() {
    let mut core = create_core(10, 10);
    core.draw(4, 4, white());
    core.draw_circle(5, 5, 0, white());
    core.draw_circle(5, 5, -3, white());
    core.fill_circle(5, 5, 0, white());
    core.fill_circle(5, 5, -3, white());
    assert_eq!(count_painted(&core, white()), 1);
    assert!(painted(&core, 4, 4, white()));
}

#[test]
fn test_draw_circle_cardinal_points() {
    let mut core = create_core(21, 21);
    core.draw_circle(10, 10, 6, white());
    assert!(painted(&core, 10, 4, white()));
    assert!(painted(&core, 10, 16, white()));
    assert!(painted(&core, 4, 10, white()));
    assert!(painted(&core, 16, 10, white()));
    // nothing inside the ring
    assert!(!painted(&core, 10, 10, white()));
}

#[test]
fn test_fill_circle_center_row() {
    let mut core = create_core(21, 21);
    core.fill_circle(10, 10, 6, white());
    for x in 4..16 {
        assert!(painted(&core, x, 10, white()));
    }
    assert!(!painted(&core, 16, 10, white()));
    assert!(!painted(&core, 3, 10, white()));
    assert!(painted(&core, 10, 10, white()));
}

#[test]
fn test_fill_circle_stays_in_box() {
    let mut core = create_core(30, 30);
    core.fill_circle(14, 13, 6, white());
    for y in 0..30 {
        for x in 0..30 {
            if painted(&core, x, y, white()) {
                assert!((8..=20).contains(&x) && (7..=19).contains(&y));
            }
        }
    }
}

#[test]
fn test_draw_circle_symmetry() {
    let mut core = create_core(25, 25);
    core.draw_circle(12, 12, 7, white());
    for dy in -10..=10 {
        for dx in -10..=10 {
            let p = painted(&core, 12 + dx, 12 + dy, white());
            assert_eq!(p, painted(&core, 12 - dx, 12 + dy, white()));
            assert_eq!(p, painted(&core, 12 + dx, 12 - dy, white()));
            assert_eq!(p, painted(&core, 12 + dy, 12 + dx, white()));
        }
    }
}

#[test]
fn test_draw_rect_outline_pixels() {
    let mut core = create_core(30, 30);
    core.draw_rect(10, 10, 5, 5, white());
    let on_outline = |x: i32, y: i32| -> bool {
        (y == 10 && (10..15).contains(&x))
            || (x == 15 && (10..15).contains(&y))
            || (y == 15 && (10..15).contains(&x))
            || (x == 10 && (10..15).contains(&y))
    };
    let mut n = 0;
    for y in 0..30 {
        for x in 0..30 {
            assert_eq!(painted(&core, x, y, white()), on_outline(x, y));
            if on_outline(x, y) {
                n += 1;
            }
        }
    }
    // the four half-open edges cover the outline's ring except its last
    // corner, and share the first corner
    assert_eq!(n, 19);
}

#[test]
fn test_fill_rect_covers_area() {
    let mut core = create_core(30, 30);
    core.fill_rect(10, 10, 5, 5, white());
    for y in 0..30 {
        for x in 0..30 {
            let inside = (10..15).contains(&x) && (10..15).contains(&y);
            assert_eq!(painted(&core, x, y, white()), inside);
        }
    }
    assert_eq!(count_painted(&core, white()), 25);
}

#[test]
fn test_draw_triangle_paints_only_its_color() {
    let mut core = create_core(120, 120);
    core.draw_triangle(25, 100, 75, 100, 50, 0, white());
    assert!(count_painted(&core, white()) > 0);
    // corners lie on the edges
    assert!(painted(&core, 25, 100, white()));
    assert!(painted(&core, 75, 100, white()) || painted(&core, 74, 100, white()));
}

/// One horizontal span per scanline of a filled flat-bottom triangle, as
/// the half-open range `[lo, hi)`, or None when the row is empty.
fn row_span(core: &RainCore, y: i32, color: Color) -> Option<(i32, i32)> {
    let w = core.render_target.width as i32;
    let mut lo = None;
    let mut hi = None;
    for x in 0..w {
        if painted(core, x, y, color) {
            if lo.is_none() {
                lo = Some(x);
            }
            hi = Some(x + 1);
        }
    }
    match (lo, hi) {
        (Some(a), Some(b)) => {
            // contiguous: every cell between the ends is painted
            for x in a..b {
                assert!(painted(core, x, y, color));
            }
            Some((a, b))
        }
        _ => None,
    }
}

#[test]
fn test_fill_triangle_flat_bottom_spans() {
    let mut core = create_core(120, 120);
    core.fill_triangle(25, 100, 75, 100, 50, 0, white());

    // single span per scanline, none outside the vertex rows
    assert_eq!(row_span(&core, 101, white()), None);

    // the base row spans the full 50 pixels
    assert_eq!(row_span(&core, 100, white()), Some((25, 75)));

    // the span at the middle row covers 25 pixels centered on the apex
    // column: the edge positions 37.5 and 62.5 round half away from zero
    let (lo, hi) = row_span(&core, 50, white()).unwrap();
    assert_eq!((lo, hi), (38, 63));
    assert!((lo + hi - 1) / 2 - 50 <= 1 && 50 - (lo + hi - 1) / 2 <= 1);

    // span widths never shrink on the way down to the base
    let mut last_width = 0;
    for y in 0..=100 {
        let width = match row_span(&core, y, white()) {
            Some((a, b)) => b - a,
            None => 0,
        };
        assert!(width >= last_width);
        last_width = width;
    }
    assert_eq!(last_width, 50);
}

#[test]
fn test_fill_triangle_general_splits_cleanly() {
    let mut core = create_core(60, 60);
    core.fill_triangle(10, 40, 30, 5, 50, 25, white());
    // one contiguous span on every row between the vertex rows that paints
    for y in 6..40 {
        assert!(row_span(&core, y, white()).is_some());
    }
    assert_eq!(row_span(&core, 4, white()), None);
    assert_eq!(row_span(&core, 41, white()), None);
}

#[test]
fn test_init_state() {
    let core = RainCore::init(10, 5, true);
    assert!(core.exit_on_esc);
    assert!(core.is_active());
    assert_eq!(core.render_target.width, 10);
    assert_eq!(core.render_target.height, 5);
    assert_eq!(core.frame_count, 0);
    assert_eq!(core.frame_timer_micros, 1_000_000);
}

#[test]
fn test_exit_stops_the_loop_flag() {
    let mut core = create_core(4, 4);
    assert!(core.is_active());
    core.exit();
    assert!(!core.is_active());
}

#[test]
fn test_frame_tick_reports_fps_every_second() {
    let mut core = create_core(4, 4);
    // the timer starts a full second in, so the first tick reports at once
    assert_eq!(core.frame_tick(0), Some(1));
    assert_eq!(core.frame_timer_micros, 0);
    assert_eq!(core.frame_count, 0);

    assert_eq!(core.frame_tick(400_000), None);
    assert_eq!(core.frame_tick(400_000), None);
    // crossing the second reports the frames counted and keeps the remainder
    assert_eq!(core.frame_tick(300_000), Some(3));
    assert_eq!(core.frame_timer_micros, 100_000);
    assert_eq!(core.frame_count, 0);
}

#[test]
fn test_apply_window_state_exit_conditions() {
    let mut core = RainCore::init(4, 4, false);
    core.apply_window_state(true, true);
    assert!(core.is_active());
    core.apply_window_state(false, false);
    assert!(!core.is_active());

    let mut core = RainCore::init(4, 4, true);
    core.apply_window_state(true, false);
    assert!(core.is_active());
    core.apply_window_state(true, true);
    assert!(!core.is_active());
}
