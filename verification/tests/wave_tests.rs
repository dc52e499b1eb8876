use space_game::entities::{Enemy, Sprite};
use space_game::wave::{Wave, GRID_COLS};

fn enemy_sprite() -> Sprite {
    Sprite { pixels: vec![0; 32 * 20 * 4], width: 32, height: 20 }
}

#[test]
fn new_wave_marches_right() {
    let w = Wave::new();
    assert_eq!(w.count, 0);
    assert_eq!(w.direction, 1);
    assert_eq!(w.move_speed, 200);
    assert_eq!(w.drop_distance, 20);
}

#[test]
fn first_deploy_builds_three_centred_rows() {
    let mut w = Wave::new();
    let es = w.deploy(800, 600, &enemy_sprite());
    assert_eq!(w.count, 1);
    assert_eq!(w.move_speed, 230);
    assert_eq!(es.len(), 24);
    // gap 16 (half a sprite), step 48, grid 368 wide, left edge 216;
    // rows 30 apart from 75
    assert_eq!((es[0].x, es[0].y), (216, 75));
    assert_eq!((es[1].x, es[1].y), (264, 75));
    assert_eq!((es[8].x, es[8].y), (216, 105));
    assert_eq!((es[23].x, es[23].y), (552, 135));
    assert!(es.iter().all(|e| e.active && e.sprite_idx == 2));
    assert!(!w.is_extinct(&es));
}

#[test]
fn each_deploy_adds_a_row_up_to_six() {
    let mut w = Wave::new();
    let sizes: Vec<usize> = (0..6).map(|_| w.deploy(800, 600, &enemy_sprite()).len()).collect();
    assert_eq!(sizes, vec![24, 32, 40, 48, 48, 48]);
    assert_eq!(w.count, 6);
    assert_eq!(w.move_speed, 380);
    assert_eq!(GRID_COLS, 8);
}

#[test]
fn deploy_resets_direction() {
    let mut w = Wave::new();
    w.direction = -1;
    w.deploy(800, 600, &enemy_sprite());
    assert_eq!(w.direction, 1);
}

#[test]
fn grid_wider_than_screen_starts_at_left_edge() {
    let mut w = Wave::new();
    let es = w.deploy(100, 80, &enemy_sprite());
    assert_eq!((es[0].x, es[0].y), (0, 10));
    assert_eq!(es[7].x, 336);
}

#[test]
fn odd_sprite_gap_rounds_down() {
    let mut w = Wave::new();
    let s = Sprite { pixels: vec![0; 5 * 3 * 4], width: 5, height: 3 };
    let es = w.deploy(1000, 800, &s);
    // gap 2 (2.5 rounded down), step 7; gap 1 (1.5), row step 4
    assert_eq!(es[1].x - es[0].x, 7);
    assert_eq!(es[8].y - es[0].y, 4);
}

#[test]
fn wave_extinct_only_when_all_down() {
    let w = Wave::new();
    let e = |active| Enemy { x: 0, y: 0, active, sprite_idx: 2 };
    assert!(w.is_extinct(&[]));
    assert!(w.is_extinct(&[e(false), e(false)]));
    assert!(!w.is_extinct(&[e(false), e(true)]));
}

#[test]
fn ships_ten_wide_stand_half_a_ship_apart() {
    let mut w = Wave::new();
    let s = Sprite { pixels: vec![0; 400], width: 10, height: 10 };
    let es = w.deploy(800, 600, &s);
    assert_eq!(es.len(), 24);
    assert_eq!(es[1].x - es[0].x, 15);
    assert_eq!(es[9].x - es[8].x, 15);
    assert_eq!(w.count, 1);
    assert_eq!(w.move_speed, 230);
}
