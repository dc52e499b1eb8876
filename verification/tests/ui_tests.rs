use space_game::drawing::{draw_rect, draw_text, draw_text_centered, COLOR_SCORE_GOLD, COLOR_WHITE};
use space_game::ui::{draw_game_over_overlay, draw_hud, draw_name_entry_overlay, draw_start_menu, COLOR_GRAY_DARK};

const W: u32 = 800;
const H: u32 = 600;

fn frame() -> Vec<u8> {
    vec![0u8; (W * H * 4) as usize]
}

#[test]
fn start_menu_is_title_and_prompt() {
    let mut f = frame();
    draw_start_menu(&mut f, W, H);
    let mut g = frame();
    draw_text_centered(&mut g, W, H, "SPACE GAME", 8, COLOR_SCORE_GOLD);
    draw_text(&mut g, W, H, W / 2 - 150, H / 2 + 100, "PRESS SPACE TO START", 2, COLOR_WHITE);
    assert_eq!(f, g);
    assert!(f.iter().any(|b| *b != 0));
}

#[test]
fn name_entry_shows_name_with_cursor() {
    let mut f = frame();
    draw_name_entry_overlay(&mut f, W, H, "AB");
    let mut g = frame();
    draw_text_centered(&mut g, W, H, "NEW RECORD!", 6, COLOR_SCORE_GOLD);
    draw_text(&mut g, W, H, W / 2 - 60, H / 3 * 2, "AB_", 8, COLOR_WHITE);
    draw_text(&mut g, W, H, W / 2 - 180, H / 3 * 2 + 100, "TYPE 3 LETTERS & PRESS ENTER", 2, COLOR_WHITE);
    assert_eq!(f, g);
}

#[test]
fn game_over_lists_scores() {
    let scores = vec![("ACE".to_string(), 1234u32), ("BOB".to_string(), 7)];
    let mut f = frame();
    draw_game_over_overlay(&mut f, W, H, &scores);
    let mut g = frame();
    draw_text_centered(&mut g, W, H, "GAMEOVER", 10, [255, 0, 0, 255]);
    let y0 = (H as i32 / 3 * 2) - 40;
    draw_text(&mut g, W, H, W / 2 - 100, y0 as u32, "--- TOP 5 ---", 2, COLOR_SCORE_GOLD);
    draw_text(&mut g, W, H, W / 2 - 130, (y0 + 40) as u32, "#1 ACE ....   1234", 2, COLOR_SCORE_GOLD);
    draw_text(&mut g, W, H, W / 2 - 130, (y0 + 75) as u32, "#2 BOB ....      7", 2, COLOR_WHITE);
    draw_text(&mut g, W, H, W / 2 - 130, H - 80, "PRESS R TO RESTART", 2, COLOR_WHITE);
    assert_eq!(f, g);
    assert_eq!(format!("#{} {} .... {:>6}", 1, "ACE", 1234), "#1 ACE ....   1234");
}

#[test]
fn hud_draws_bar_and_score() {
    let mut f = frame();
    draw_hud(&mut f, W, H, 0, false, false, 0);
    let x = (W as i32 - 300) / 2;
    let i = ((20 * W + x as u32 + 1) * 4) as usize;
    assert_eq!(&f[i..i + 4], &COLOR_GRAY_DARK);
    let mut g = frame();
    draw_hud(&mut g, W, H, 150, true, false, 0);
    assert_eq!(&g[i..i + 4], &[255, 165, 0, 255]);
    let mut h = frame();
    draw_hud(&mut h, W, H, 150, true, true, 0);
    assert_eq!(&h[i..i + 4], &[220, 20, 20, 255]);
    let mut rect = frame();
    draw_rect(&mut rect, W, H, x, 20, 150, 30, [255, 165, 0, 255]);
    let j = ((30 * W + x as u32 + 149) * 4) as usize;
    assert_eq!(&g[j..j + 4], &rect[j..j + 4]);
}

#[test]
fn hud_score_text() {
    let mut a = frame();
    draw_hud(&mut a, W, H, 0, false, false, 90);
    let mut b = frame();
    draw_hud(&mut b, W, H, 0, false, false, 0);
    let mut s = frame();
    draw_text(&mut s, W, H, 20, 20, "SCORE: 90", 3, COLOR_WHITE);
    // Pixels of the digit '9' appear only with score 90.
    let idx = ((20 * W + 20 + 7 * 27 + 3) * 4) as usize;
    let _ = idx;
    assert_ne!(a, b);
}

#[test]
fn game_over_shows_only_top_five() {
    let seven: Vec<(String, u32)> = (0..7).map(|i| (format!("P{}", i), 70 - i)).collect();
    let mut f = frame();
    draw_game_over_overlay(&mut f, W, H, &seven);
    let mut g = frame();
    draw_game_over_overlay(&mut g, W, H, &seven[..5]);
    assert_eq!(f, g);
    let mut h = frame();
    draw_game_over_overlay(&mut h, W, H, &seven[..6]);
    assert_eq!(f, h);
    let mut four = frame();
    draw_game_over_overlay(&mut four, W, H, &seven[..4]);
    assert_ne!(f, four);
}
