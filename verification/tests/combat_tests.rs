use space_game::combat::{enemy_rams_ship, strike_enemies};
use space_game::entities::{boxes_touch, Beam, Collidable, Enemy, Ship, Sprite};

fn sprite(w: u32, h: u32) -> Sprite {
    Sprite { pixels: vec![0; (w * h * 4) as usize], width: w, height: h }
}

fn enemy(x: u32, y: u32, active: bool) -> Enemy {
    Enemy { x, y, active, sprite_idx: 2 }
}

fn beam(x: u32, y: i32) -> Beam {
    Beam { x, y, sprite_idx: 1 }
}

#[test]
fn each_beam_downs_first_active_enemy_it_touches() {
    let mut beams = vec![beam(110, 105), beam(110, 105), beam(500, 100)];
    let mut enemies = vec![enemy(100, 100, true), enemy(100, 100, true), enemy(200, 100, true)];
    let hits = strike_enemies(&mut beams, &mut enemies, &sprite(4, 10), &sprite(32, 20));
    assert_eq!(hits, vec![0, 1]);
    assert_eq!(beams[0].y, -1000);
    assert_eq!(beams[1].y, -1000);
    assert_eq!((beams[2].x, beams[2].y), (500, 100));
    assert!(!enemies[0].active && !enemies[1].active && enemies[2].active);
    assert_eq!((enemies[0].x, enemies[0].y), (100, 100));
}

#[test]
fn inactive_enemies_are_passed_over() {
    let mut beams = vec![beam(110, 105)];
    let mut enemies = vec![enemy(100, 100, false), enemy(105, 100, true)];
    let hits = strike_enemies(&mut beams, &mut enemies, &sprite(4, 10), &sprite(32, 20));
    assert_eq!(hits, vec![1]);
    assert!(!enemies[1].active);
}

#[test]
fn beam_that_misses_is_left_alone() {
    let mut beams = vec![beam(10, 5)];
    let mut enemies = vec![enemy(100, 100, true)];
    let hits = strike_enemies(&mut beams, &mut enemies, &sprite(4, 10), &sprite(32, 20));
    assert!(hits.is_empty());
    assert_eq!(beams[0].y, 5);
    assert!(enemies[0].active);
}

#[test]
fn touching_edges_do_not_overlap() {
    // beam right edge at 100 exactly meets the enemy's left edge
    assert!(!boxes_touch((96, 100), 4, 10, (100, 100), 32, 20));
    assert!(boxes_touch((97, 100), 4, 10, (100, 100), 32, 20));
    assert!(!boxes_touch((110, 120), 4, 10, (100, 100), 32, 20));
    assert!(boxes_touch((110, 91), 4, 10, (100, 100), 32, 20));
}

#[test]
fn active_enemy_over_ship_rams_it() {
    let ship = Ship { x: 100, y: 110, sprite_idx: 0, active: true };
    let s = sprite(32, 20);
    assert!(enemy_rams_ship(&[enemy(0, 0, true), enemy(110, 100, true)], &ship, &s, &s));
    assert!(!enemy_rams_ship(&[enemy(110, 100, false)], &ship, &s, &s));
    assert!(!enemy_rams_ship(&[enemy(300, 300, true)], &ship, &s, &s));
    assert!(!enemy_rams_ship(&[], &ship, &s, &s));
}

#[test]
fn ship_reports_its_corner_and_state() {
    let mut ship = Ship { x: 40, y: 300, sprite_idx: 0, active: true };
    assert_eq!(ship.pos(), (40, 300));
    assert!(ship.is_active());
    ship.set_active(false);
    assert!(!ship.is_active());
    assert_eq!((ship.x, ship.y), (40, 300));
}

#[test]
fn later_beam_hits_enemy_behind_a_downed_one() {
    // the first beam downs the front enemy; the second passes to the next in line
    let mut beams = vec![beam(100, 50), beam(100, 50), beam(100, 50)];
    let mut enemies = vec![enemy(98, 45, true), enemy(99, 48, true)];
    let hits = strike_enemies(&mut beams, &mut enemies, &sprite(4, 10), &sprite(32, 20));
    assert_eq!(hits, vec![0, 1]);
    assert_eq!(beams[2].y, 50);
    assert!(!enemies[0].active && !enemies[1].active);
}
