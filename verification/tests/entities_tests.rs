use space_game::entities::{collides_with, Beam, Collidable, Enemy, Sprite};

fn sprite(w: u32, h: u32) -> Sprite {
    Sprite { pixels: vec![0; (w * h * 4) as usize], width: w, height: h }
}

#[test]
fn overlapping_boxes_collide() {
    let beam = Beam { x: 10, y: 10, sprite_idx: 1 };
    let enemy = Enemy { x: 12, y: 5, active: true, sprite_idx: 2 };
    assert!(collides_with(&beam, &enemy, &sprite(4, 10), &sprite(8, 8)));
    assert!(collides_with(&enemy, &beam, &sprite(8, 8), &sprite(4, 10)));
}

#[test]
fn touching_edges_do_not_collide() {
    let beam = Beam { x: 0, y: 0, sprite_idx: 1 };
    let enemy = Enemy { x: 4, y: 0, active: true, sprite_idx: 2 };
    assert!(!collides_with(&beam, &enemy, &sprite(4, 4), &sprite(4, 4)));
    let below = Enemy { x: 0, y: 4, active: true, sprite_idx: 2 };
    assert!(!collides_with(&beam, &below, &sprite(4, 4), &sprite(4, 4)));
}

#[test]
fn beam_above_screen_is_inactive() {
    let mut beam = Beam { x: 3, y: -99, sprite_idx: 1 };
    assert!(beam.is_active());
    beam.set_active(true);
    assert_eq!(beam.y, -99);
    beam.set_active(false);
    assert_eq!(beam.y, -1000);
    assert!(!beam.is_active());
    assert_eq!(beam.pos(), (3, -1000));
    let gone = Beam { x: 0, y: -100, sprite_idx: 1 };
    assert!(!gone.is_active());
}

#[test]
fn enemy_activity_follows_flag() {
    let mut e = Enemy { x: 1, y: 2, active: true, sprite_idx: 2 };
    assert_eq!(e.pos(), (1, 2));
    e.set_active(false);
    assert!(!e.is_active());
    e.set_active(true);
    assert!(e.is_active());
}
