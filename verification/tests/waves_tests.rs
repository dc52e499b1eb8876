use space_game::entities::Enemy;
use space_game::rng::SimpleRng;
use space_game::waves::{pick_diver, WaveType};

fn enemy(active: bool) -> Enemy {
    Enemy { x: 0, y: 0, active, sprite_idx: 2 }
}

#[test]
fn every_third_wave_swoops() {
    assert_eq!(WaveType::for_wave(1), WaveType::Classic);
    assert_eq!(WaveType::for_wave(2), WaveType::Classic);
    assert_eq!(WaveType::for_wave(3), WaveType::Swoop);
    assert_eq!(WaveType::for_wave(6), WaveType::Swoop);
    assert_eq!(WaveType::for_wave(7), WaveType::Classic);
}

#[test]
fn extinct_when_no_enemy_active() {
    let w = WaveType::Classic;
    assert!(w.is_extinct(&[]));
    assert!(w.is_extinct(&[enemy(false), enemy(false)]));
    assert!(!w.is_extinct(&[enemy(false), enemy(true)]));
    assert!(!WaveType::Swoop.is_extinct(&[enemy(true)]));
}

#[test]
fn pick_diver_uses_next_value() {
    let mut rng = SimpleRng::from_state(42);
    let picked = pick_diver(&[3, 8, 11, 20], &mut rng);
    // The next state from 42 is 45454805674, and 45454805674 % 4 == 2.
    assert_eq!(picked, Some(11));
    assert_eq!(rng.state(), 45454805674);
}

#[test]
fn pick_diver_without_candidates() {
    let mut rng = SimpleRng::from_state(42);
    assert_eq!(pick_diver(&[], &mut rng), None);
    assert_eq!(rng.state(), 42);
}
