use space_game::rng::SimpleRng;
use space_game::stars::{random_star, MAX_STARS};

#[test]
fn star_draws_follow_generator() {
    let mut rng = SimpleRng::from_state(42);
    let mut check = SimpleRng::from_state(42);
    let star = random_star(&mut rng, 1920, 1080, true);
    let d = check.next_u32() % 4 + 1;
    let x = check.next_u32() % 1920;
    let y = check.next_u32() % 1080;
    let alpha = 100 + (check.next_u32() % 156) as u8;
    assert_eq!(star.diameter, d);
    assert_eq!(star.x, x);
    assert_eq!(star.y, y as i64);
    assert_eq!(star.color[3], alpha);
    assert_eq!(rng.state(), check.state());
    assert_eq!(d, 3);
    assert_eq!(star.color, [255, 255, 255, alpha]);
}

#[test]
fn star_from_top_starts_above_screen() {
    let mut rng = SimpleRng::from_state(7);
    for _ in 0..200 {
        let star = random_star(&mut rng, 800, 600, false);
        assert!(1 <= star.diameter && star.diameter <= 4);
        assert_eq!(star.y, -(star.diameter as i64));
        assert!(star.x < 800);
        assert!(star.color[3] >= 100);
        let expected = match star.diameter {
            1 => [150, 150, 220],
            2 => [200, 200, 255],
            3 => [255, 255, 255],
            _ => [255, 240, 150],
        };
        assert_eq!(&star.color[..3], &expected);
    }
    assert_eq!(MAX_STARS, 120);
}
