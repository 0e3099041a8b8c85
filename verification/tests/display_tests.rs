use chip8::display::{Display, Plane};

fn pixel_at(p: &Plane, x: usize, y: usize) -> bool {
    let rb = p.width / 8;
    (p.cells[y * rb + x / 8] >> (7 - (x % 8))) & 1 == 1
}

#[test]
fn new_plane_is_blank() {
    let p = Plane::new(32, 64);
    assert_eq!(p.width, 64);
    assert_eq!(p.height, 32);
    for y in 0..32 {
        for x in 0..64 {
            assert!(!pixel_at(&p, x, y));
        }
    }
}

#[test]
fn sprite_draw_sets_pixels_without_collision() {
    let mut p = Plane::new(32, 64);
    let sprite = [0xF0u8, 0x90, 0x90, 0x90, 0xF0];
    let col = p.write_sprite(&sprite, 4, 2);
    assert!(!col);
    // the glyph's top row occupies columns 4..8
    assert!(pixel_at(&p, 4, 2));
    assert!(pixel_at(&p, 7, 2));
    assert!(!pixel_at(&p, 8, 2));
    assert!(pixel_at(&p, 4, 3));
    assert!(!pixel_at(&p, 5, 3));
}

#[test]
fn double_draw_restores_bitmap_and_collides() {
    let mut p = Plane::new(32, 64);
    let sprite = [0x3Cu8, 0x42, 0x42, 0x3C];
    let before = p.cells.clone();
    let first = p.write_sprite(&sprite, 17, 9);
    assert!(!first);
    let second = p.write_sprite(&sprite, 17, 9);
    assert!(second);
    assert_eq!(p.cells, before);
}

#[test]
fn sprite_wraps_horizontally_and_vertically() {
    let mut p = Plane::new(32, 64);
    let sprite = [0xFFu8, 0xFF];
    p.write_sprite(&sprite, 60, 31);
    // columns 60..64 then wrapping to 0..4; rows 31 then 0
    assert!(pixel_at(&p, 63, 31));
    assert!(pixel_at(&p, 0, 31));
    assert!(pixel_at(&p, 3, 31));
    assert!(pixel_at(&p, 60, 0));
    assert!(!pixel_at(&p, 4, 0));
}

#[test]
fn scroll_down_then_up_zero_fills_crossed_rows() {
    let mut p = Plane::new(32, 64);
    let sprite = [0xFFu8];
    p.write_sprite(&sprite, 0, 0);
    p.write_sprite(&sprite, 8, 30);
    let before = p.cells.clone();
    p.scroll_down(3);
    assert!(pixel_at(&p, 0, 3));
    assert!(!pixel_at(&p, 0, 0));
    p.scroll_up(3);
    // the original except the bottom three rows, which were crossed
    for y in 0..29 {
        for x in 0..64 {
            let rb = 8;
            let want = (before[y * rb + x / 8] >> (7 - (x % 8))) & 1 == 1;
            assert_eq!(pixel_at(&p, x, y), want);
        }
    }
    for x in 0..64 {
        assert!(!pixel_at(&p, x, 30));
    }
}

#[test]
fn scroll_left_then_right_zero_fills_crossed_columns() {
    let mut p = Plane::new(32, 64);
    let sprite = [0xFFu8];
    p.write_sprite(&sprite, 0, 5);
    p.write_sprite(&sprite, 56, 6);
    let before = p.cells.clone();
    p.scroll_left();
    assert!(pixel_at(&p, 52, 6));
    assert!(!pixel_at(&p, 60, 6));
    p.scroll_right();
    for y in 0..32 {
        for x in 4..64 {
            let rb = 8;
            let want = (before[y * rb + x / 8] >> (7 - (x % 8))) & 1 == 1;
            assert_eq!(pixel_at(&p, x, y), want);
        }
        for x in 0..4 {
            assert!(!pixel_at(&p, x, y));
        }
    }
}

#[test]
fn window_read_wraps_at_row_edge() {
    let mut p = Plane::new(32, 64);
    p.set_byte(60, 7, 0xFF);
    assert_eq!(p.get_byte(60, 7), 0xFF);
    // bits landed in columns 60..64 and 0..4 of row 7
    assert!(pixel_at(&p, 60, 7));
    assert!(pixel_at(&p, 63, 7));
    assert!(pixel_at(&p, 0, 7));
    assert!(pixel_at(&p, 3, 7));
    assert!(!pixel_at(&p, 4, 7));
}

#[test]
fn mode_switch_resizes_zeroes_and_keeps_mask() {
    let mut d = Display::new(32, 64);
    d.active_planes = 2;
    d.planes[1].write_sprite(&[0xFFu8], 0, 0);
    d.set_extended(true);
    assert_eq!(d.width, 128);
    assert_eq!(d.height, 64);
    assert!(d.extended);
    assert_eq!(d.active_planes, 2);
    for p in 0..2 {
        for &b in d.planes[p].cells.iter() {
            assert_eq!(b, 0);
        }
    }
    d.set_extended(false);
    assert_eq!(d.width, 64);
    assert_eq!(d.height, 32);
    assert!(!d.extended);
    assert_eq!(d.active_planes, 2);
}

#[test]
fn frame_uses_palette_through_both_planes() {
    let mut d = Display::new(32, 64);
    d.colors = [1, 2, 3, 4];
    d.active_planes = 3;
    // both planes active: an 8-byte sprite splits, 4 bytes per plane
    let sprite = [0xF0u8, 0xF0, 0x00, 0x00, 0x0F, 0x0F, 0x00, 0x00];
    d.write_sprite(&sprite, 0, 0);
    let buf = d.to_buf();
    assert_eq!(buf.len(), 64 * 32);
    // plane 0 set columns 0..4 of rows 0..2; plane 1 set columns 4..8
    assert_eq!(buf[0], 2);
    assert_eq!(buf[4], 3);
    assert_eq!(buf[8], 1);
    assert_eq!(buf[64 * 3], 1);
}

#[test]
fn drawing_flags_and_counts_updates() {
    let mut d = Display::new(32, 64);
    let updates0 = d.updates;
    d.updated = false;
    d.clear();
    assert!(d.updated);
    assert_eq!(d.updates, updates0 + 1);
    d.scroll_down(1);
    assert_eq!(d.updates, updates0 + 2);
}

#[test]
fn inactive_plane_is_untouched_by_draws() {
    let mut d = Display::new(32, 64);
    d.active_planes = 1;
    d.planes[1].write_sprite(&[0xAAu8], 0, 0);
    let plane1_before = d.planes[1].cells.clone();
    d.write_sprite(&[0xFFu8, 0xFF], 0, 0);
    d.scroll_left();
    d.clear();
    assert_eq!(d.planes[1].cells, plane1_before);
}

#[test]
fn sixteen_wide_sprite_draws_both_halves() {
    let mut p = Plane::new(32, 64);
    let mut sprite = [0u8; 32];
    sprite[0] = 0xFF; // even byte: left half of row 0
    sprite[1] = 0x80; // odd byte: right half of row 0
    let col = p.write_sprite16(&sprite, 0, 0);
    assert!(!col);
    for x in 0..8 {
        assert!(pixel_at(&p, x, 0));
    }
    assert!(pixel_at(&p, 8, 0));
    assert!(!pixel_at(&p, 9, 0));
}
