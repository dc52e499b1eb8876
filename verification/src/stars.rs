use vstd::prelude::*;
use crate::rng::{SimpleRng, next_state};

verus! {

/// How many stars the background holds.
pub const MAX_STARS: usize = 120;

/// Where a new star appears, how big it is and its colour.
#[derive(Clone, Copy)]
pub struct StarSeed {
    pub x: u32,
    /// The row; negative for a star placed just above the screen.
    pub y: i64,
    pub diameter: u32,
    pub color: [u8; 4],
}

/// The low 32 bits of a generator state, as `next_u32` hands them out.
pub open spec fn low32(v: u64) -> int {
    v as int % 0x1_0000_0000
}

/// The colour of a star of diameter `d` with opacity `alpha`: small stars
/// bluish, middle ones pale blue and white, the largest yellowish.
pub open spec fn star_color(d: u32, alpha: u8) -> Seq<u8> {
    if d == 1 {
        seq![150u8, 150, 220, alpha]
    } else if d == 2 {
        seq![200u8, 200, 255, alpha]
    } else if d == 3 {
        seq![255u8, 255, 255, alpha]
    } else {
        seq![255u8, 240, 150, alpha]
    }
}

/// A new star drawn from a generator in state `s`: its column, row,
/// diameter and opacity, and the generator's state afterwards. The draws, in order: the diameter (1 to 4), the column
/// (below `width`), the row (below `height`) when the star may start
/// anywhere, and the opacity (100 to 255). A star that must enter from the
/// top is placed its diameter above the screen.
pub open spec fn star_from(s: u64, width: u32, height: u32, start_anywhere: bool) -> (u32, int, u32, u8, u64) {
    let s1 = next_state(s);
    let s2 = next_state(s1);
    let s3 = if start_anywhere {
        next_state(s2)
    } else {
        s2
    };
    let s4 = next_state(s3);
    let d = (low32(s1) % 4 + 1) as u32;
    let x = (low32(s2) % (width as int)) as u32;
    let y = if start_anywhere {
        low32(s3) % (height as int)
    } else {
        -(d as int)
    };
    let alpha = (100 + low32(s4) % 156) as u8;
    (x, y, d, alpha, s4)
}

/// A new star's position, size and colour, drawn from `rng` (see
/// `star_from` and `star_color`).
pub fn random_star(rng: &mut SimpleRng, width: u32, height: u32, start_anywhere: bool) -> (r: StarSeed)
    requires
        width > 0,
        start_anywhere ==> height > 0,
    ensures
        ({
            let (x, y, d, alpha, s) = star_from(old(rng)@, width, height, start_anywhere);
            &&& r.x == x
            &&& r.y == y
            &&& r.diameter == d
            &&& r.color@ == star_color(d, alpha)
            &&& final(rng)@ == s
        }),
{
    let diameter = (rng.next_u32() % 4) + 1;
    let x = rng.next_u32() % width;
    let y: i64 = if start_anywhere {
        (rng.next_u32() % height) as i64
    } else {
        -(diameter as i64)
    };
    let alpha = 100 + (rng.next_u32() % 156) as u8;
    let color: [u8; 4] = match diameter {
        1 => [150, 150, 220, alpha],
        2 => [200, 200, 255, alpha],
        3 => [255, 255, 255, alpha],
        _ => [255, 240, 150, alpha],
    };
    assert(color@ =~= star_color(diameter, alpha));
    StarSeed { x, y, diameter, color }
}

} // verus!
