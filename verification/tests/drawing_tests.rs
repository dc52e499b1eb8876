use space_game::drawing::{
    draw_rect, draw_rect_outline, draw_sprite, draw_text, draw_text_centered, fill_square, set_pixel, COLOR_RED,
    COLOR_WHITE,
};

fn px(frame: &[u8], w: u32, x: u32, y: u32) -> [u8; 4] {
    let i = ((y * w + x) * 4) as usize;
    [frame[i], frame[i + 1], frame[i + 2], frame[i + 3]]
}

fn lit_pixels(frame: &[u8], w: u32, h: u32) -> Vec<(u32, u32)> {
    let mut v = Vec::new();
    for y in 0..h {
        for x in 0..w {
            if px(frame, w, x, y) != [0, 0, 0, 0] {
                v.push((x, y));
            }
        }
    }
    v
}

#[test]
fn set_pixel_writes_four_bytes() {
    let mut f = vec![0u8; 4 * 4 * 3];
    set_pixel(&mut f, 4, 2, 1, [1, 2, 3, 4]);
    assert_eq!(px(&f, 4, 2, 1), [1, 2, 3, 4]);
    assert_eq!(f.iter().filter(|b| **b != 0).count(), 4);
}

#[test]
fn set_pixel_outside_buffer_is_ignored() {
    let mut f = vec![0u8; 16];
    set_pixel(&mut f, 2, 0, 2, [9, 9, 9, 9]);
    assert_eq!(f, vec![0u8; 16]);
}

#[test]
fn fill_square_clips_to_frame() {
    let mut f = vec![0u8; 5 * 5 * 4];
    fill_square(&mut f, 5, 5, 3, 3, 4, COLOR_WHITE);
    assert_eq!(lit_pixels(&f, 5, 5), vec![(3, 3), (4, 3), (3, 4), (4, 4)]);
}

#[test]
fn fill_square_outside_draws_nothing() {
    let mut f = vec![0u8; 5 * 5 * 4];
    fill_square(&mut f, 5, 5, 5, 0, 3, COLOR_WHITE);
    fill_square(&mut f, 5, 5, 0, 7, 3, COLOR_WHITE);
    assert!(lit_pixels(&f, 5, 5).is_empty());
}

#[test]
fn draw_text_draws_upper_case_glyph() {
    // 'a' is drawn as the 'A' glyph: rows 0x18, 0x24, 0x42, 0x7E, 0x42, 0x42, 0x42, 0x00.
    let mut lower = vec![0u8; 8 * 8 * 4];
    draw_text(&mut lower, 8, 8, 0, 0, "a", 1, COLOR_WHITE);
    let mut upper = vec![0u8; 8 * 8 * 4];
    draw_text(&mut upper, 8, 8, 0, 0, "A", 1, COLOR_WHITE);
    assert_eq!(lower, upper);
    let rows = [0x18u8, 0x24, 0x42, 0x7E, 0x42, 0x42, 0x42, 0x00];
    for y in 0..8u32 {
        for x in 0..8u32 {
            let on = rows[y as usize] & (0x80 >> x) != 0;
            assert_eq!(px(&upper, 8, x, y) == COLOR_WHITE, on, "pixel {} {}", x, y);
        }
    }
}

#[test]
fn draw_text_scales_and_spaces_characters() {
    // ':' lights rows 1, 2, 4, 5 at columns 3 and 4; at scale 2 each dot is 2x2
    // and the second character starts 18 pixels further right.
    let mut f = vec![0u8; 40 * 16 * 4];
    draw_text(&mut f, 40, 16, 0, 0, "::", 2, COLOR_RED);
    let lit = lit_pixels(&f, 40, 16);
    assert_eq!(lit.len(), 2 * 8 * 4);
    assert!(lit.contains(&(6, 2)));
    assert!(lit.contains(&(7, 3)));
    assert!(lit.contains(&(6 + 18, 2)));
    assert!(!lit.contains(&(5, 2)));
}

#[test]
fn unknown_characters_are_blank() {
    let mut f = vec![0u8; 30 * 10 * 4];
    draw_text(&mut f, 30, 10, 0, 0, "HX?", 1, COLOR_WHITE);
    assert!(lit_pixels(&f, 30, 10).is_empty());
}

#[test]
fn draw_text_centered_places_text_in_middle() {
    // "1" (one byte) at scale 1 is 8 wide; centred in 20x10 it starts at (6, 1).
    let mut a = vec![0u8; 20 * 10 * 4];
    draw_text_centered(&mut a, 20, 10, "1", 1, COLOR_WHITE);
    let mut b = vec![0u8; 20 * 10 * 4];
    draw_text(&mut b, 20, 10, 6, 1, "1", 1, COLOR_WHITE);
    assert_eq!(a, b);
    assert!(!lit_pixels(&a, 20, 10).is_empty());
}

#[test]
fn draw_sprite_copies_skips_and_blends() {
    // A 3x1 sprite: opaque, transparent, half transparent.
    let sprite = [10u8, 20, 30, 255, 40, 50, 60, 0, 200, 100, 0, 128];
    let mut f = vec![100u8; 4 * 2 * 4];
    draw_sprite(&mut f, 4, 2, 1, 1, &sprite, 3, 1);
    assert_eq!(px(&f, 4, 1, 1), [10, 20, 30, 255]);
    assert_eq!(px(&f, 4, 2, 1), [100, 100, 100, 100]);
    let blend = |s: u32, d: u32| ((s * 128 + d * 127) >> 8) as u8;
    assert_eq!(px(&f, 4, 3, 1), [blend(200, 100), blend(100, 100), blend(0, 100), 255]);
    assert_eq!(blend(200, 100), 149);
    assert_eq!(px(&f, 4, 0, 0), [100, 100, 100, 100]);
}

#[test]
fn draw_sprite_clips_negative_positions() {
    let sprite = [1u8, 2, 3, 255, 4, 5, 6, 255];
    let mut f = vec![0u8; 2 * 1 * 4];
    draw_sprite(&mut f, 2, 1, -1, 0, &sprite, 2, 1);
    assert_eq!(px(&f, 2, 0, 0), [4, 5, 6, 255]);
    assert_eq!(px(&f, 2, 1, 0), [0, 0, 0, 0]);
}

#[test]
fn draw_rect_fills_clipped_area() {
    let mut f = vec![0u8; 4 * 4 * 4];
    draw_rect(&mut f, 4, 4, -1, 2, 3, 5, COLOR_WHITE);
    assert_eq!(lit_pixels(&f, 4, 4), vec![(0, 2), (1, 2), (0, 3), (1, 3)]);
}

#[test]
fn draw_rect_outline_leaves_inside_empty() {
    let mut f = vec![0u8; 6 * 6 * 4];
    draw_rect_outline(&mut f, 6, 6, 0, 0, 6, 6, 1, COLOR_WHITE);
    let lit = lit_pixels(&f, 6, 6);
    assert_eq!(lit.len(), 20);
    assert!(!lit.contains(&(2, 2)));
    assert!(lit.contains(&(5, 5)));
}

#[test]
fn opaque_sprite_drawn_twice_is_drawn_once() {
    let sprite = [10u8, 20, 30, 255, 40, 50, 60, 0, 7, 8, 9, 255];
    let mut once = vec![100u8; 4 * 2 * 4];
    draw_sprite(&mut once, 4, 2, 1, 0, &sprite, 3, 1);
    let mut twice = vec![100u8; 4 * 2 * 4];
    draw_sprite(&mut twice, 4, 2, 1, 0, &sprite, 3, 1);
    draw_sprite(&mut twice, 4, 2, 1, 0, &sprite, 3, 1);
    assert_eq!(once, twice);
}

#[test]
fn half_transparent_sprite_blends_again() {
    let sprite = [200u8, 100, 0, 128];
    let mut once = vec![100u8; 4];
    draw_sprite(&mut once, 1, 1, 0, 0, &sprite, 1, 1);
    let mut twice = once.clone();
    draw_sprite(&mut twice, 1, 1, 0, 0, &sprite, 1, 1);
    assert_ne!(once, twice);
}

#[test]
fn sprite_on_empty_frame_draws_nothing() {
    let sprite = [1u8, 2, 3, 255];
    let mut f: Vec<u8> = Vec::new();
    draw_sprite(&mut f, u32::MAX, 0, 0, 0, &sprite, 1, 1);
    assert!(f.is_empty());
    let mut g = vec![9u8; 8];
    draw_sprite(&mut g, 0, 5, 0, 0, &sprite, 1, 1);
    assert_eq!(g, vec![9u8; 8]);
}

#[test]
fn lower_case_text_draws_as_upper_case() {
    let mut lower = vec![0u8; 40 * 10 * 4];
    draw_text(&mut lower, 40, 10, 1, 1, "game over", 1, COLOR_WHITE);
    let mut upper = vec![0u8; 40 * 10 * 4];
    draw_text(&mut upper, 40, 10, 1, 1, "GAME OVER", 1, COLOR_WHITE);
    assert_eq!(lower, upper);
}
