use vstd::prelude::*;
use crate::entities::{Enemy, Sprite};
use crate::waves::all_inactive;

verus! {

/// Enemy columns of a marching grid.
pub const GRID_COLS: u32 = 8;

/// A marching grid of enemies that grows a row with each wave: how many
/// waves were deployed, the marching direction (1 to the right, -1 to the
/// left), the marching speed in pixels per second and how far the grid
/// drops at an edge.
pub struct Wave {
    pub count: u32,
    pub direction: i32,
    pub move_speed: u64,
    pub drop_distance: i32,
}

/// The rows of the grid of wave number `count`: two more than the wave
/// number, at most six.
pub open spec fn wave_rows(count: u32) -> int {
    if 2 + count <= 6 {
        2 + count
    } else {
        6
    }
}

/// The gap left beside a sprite `w` pixels across: about half its size
/// (half, rounded down).
pub open spec fn grid_gap(w: u32) -> int {
    (w / 2) as int
}

/// The width of a grid row of sprites `w` pixels across.
pub open spec fn grid_width(w: u32) -> int {
    GRID_COLS * w + (GRID_COLS - 1) * grid_gap(w)
}

/// The left edge of the grid: centred on a screen `sw` pixels wide, or at
/// the left edge when the grid is wider than the screen.
pub open spec fn grid_left(sw: u32, w: u32) -> int {
    if sw >= grid_width(w) {
        (sw - grid_width(w)) / 2
    } else {
        0
    }
}

/// The enemy at `row`, `col` of the grid on a screen `sw` by `sh` pixels,
/// for enemy sprites `w` by `h` pixels: active, drawn with the enemy
/// sprite, one sprite and one gap apart in each direction, the top row an
/// eighth of the screen down.
pub open spec fn grid_enemy(sw: u32, sh: u32, w: u32, h: u32, row: int, col: int) -> Enemy {
    Enemy {
        x: (grid_left(sw, w) + col * (w + grid_gap(w))) as u32,
        y: (sh / 8 + row * (h + grid_gap(h))) as u32,
        active: true,
        sprite_idx: 2,
    }
}

proof fn lemma_step_bound(c: int, step: int, bound: int)
    requires
        0 <= c <= GRID_COLS - 1,
        0 <= step,
        (GRID_COLS - 1) * step <= bound,
    ensures
        c * step <= bound,
        c * step + step == (c + 1) * step,
{
    assert(c * step <= (GRID_COLS - 1) * step) by (nonlinear_arith)
        requires
            0 <= c <= GRID_COLS - 1,
            0 <= step,
    ;
    assert(c * step + step == (c + 1) * step) by (nonlinear_arith);
}

proof fn lemma_row_bound(r: int, rows: int, step: int)
    requires
        0 <= r < rows,
        0 <= step,
    ensures
        r * step <= (rows - 1) * step,
{
    assert(r * step <= (rows - 1) * step) by (nonlinear_arith)
        requires
            0 <= r <= rows - 1,
            0 <= step,
    ;
}

impl Wave {
    /// A grid that has not been deployed yet: no waves, marching right at
    /// 200 pixels per second, dropping 20 pixels at an edge.
    pub fn new() -> (r: Self)
        ensures
            r.count == 0,
            r.direction == 1,
            r.move_speed == 200,
            r.drop_distance == 20,
    {
        Wave { count: 0, direction: 1, move_speed: 200, drop_distance: 20 }
    }

    /// Deploys the next wave: counts it, marches right again at 30 pixels
    /// per second more for each wave (200 plus 30 times the wave number),
    /// and returns its enemies row by row, `GRID_COLS` to a row
    /// (see `grid_enemy` and `wave_rows`).
    pub fn deploy(&mut self, screen_width: u32, screen_height: u32, enemy_sprite: &Sprite) -> (r: Vec<Enemy>)
        requires
            old(self).count + 3 <= u32::MAX,
            grid_width(enemy_sprite.width) <= u32::MAX,
            enemy_sprite.height + grid_gap(enemy_sprite.height) <= u32::MAX,
            screen_height / 8 + (wave_rows((old(self).count + 1) as u32) - 1) * (enemy_sprite.height + grid_gap(
                enemy_sprite.height,
            )) <= u32::MAX,
        ensures
            final(self).count == old(self).count + 1,
            final(self).direction == 1,
            final(self).move_speed == 200 + 30 * final(self).count,
            final(self).drop_distance == old(self).drop_distance,
            r@.len() == GRID_COLS * wave_rows(final(self).count),
            forall|i: int|
                0 <= i < r@.len() ==> #[trigger] r@[i] == grid_enemy(
                    screen_width,
                    screen_height,
                    enemy_sprite.width,
                    enemy_sprite.height,
                    i / GRID_COLS as int,
                    i % GRID_COLS as int,
                ),
    {
        self.count = self.count + 1;
        self.direction = 1;
        self.move_speed = 200 + 30 * self.count as u64;

        let rows: u32 = if 2 + self.count <= 6 {
            2 + self.count
        } else {
            6
        };
        let w = enemy_sprite.width;
        let h = enemy_sprite.height;
        let gap_x: u32 = w / 2;
        let gap_y: u32 = h / 2;
        let step_x: u32 = w + gap_x;
        let step_y: u32 = h + gap_y;
        let grid_w: u32 = GRID_COLS * w + (GRID_COLS - 1) * gap_x;
        let start_x: u32 = screen_width.saturating_sub(grid_w) / 2;
        let top: u32 = screen_height / 8;
        let ghost sw = screen_width;
        let ghost sh = screen_height;
        assert(step_y == h + grid_gap(h));
        assert(start_x == grid_left(sw, w));
        assert(start_x + (GRID_COLS - 1) * step_x <= u32::MAX) by {
            assert(grid_w == (GRID_COLS - 1) * step_x + w);
        }

        let mut enemies: Vec<Enemy> = Vec::new();
        let mut r: u32 = 0;
        while r < rows
            invariant
                rows == wave_rows(self.count),
                3 <= rows <= 6,
                r <= rows,
                enemies@.len() == GRID_COLS * r,
                w == enemy_sprite.width,
                h == enemy_sprite.height,
                step_x == w + grid_gap(w),
                step_y == h + grid_gap(h),
                start_x == grid_left(sw, w),
                start_x + (GRID_COLS - 1) * step_x <= u32::MAX,
                top == sh / 8,
                top + (rows - 1) * step_y <= u32::MAX,
                forall|i: int|
                    0 <= i < enemies@.len() ==> #[trigger] enemies@[i] == grid_enemy(
                        sw,
                        sh,
                        w,
                        h,
                        i / GRID_COLS as int,
                        i % GRID_COLS as int,
                    ),
            decreases rows - r,
        {
            proof {
                lemma_row_bound(r as int, rows as int, step_y as int);
            }
            let y: u32 = top + r * step_y;
            let mut c: u32 = 0;
            while c < GRID_COLS
                invariant
                    rows == wave_rows(self.count),
                    3 <= rows <= 6,
                    r < rows,
                    c <= GRID_COLS,
                    enemies@.len() == GRID_COLS * r + c,
                    w == enemy_sprite.width,
                    h == enemy_sprite.height,
                    step_x == w + grid_gap(w),
                    step_y == h + grid_gap(h),
                    start_x == grid_left(sw, w),
                    start_x + (GRID_COLS - 1) * step_x <= u32::MAX,
                    top == sh / 8,
                    top + (rows - 1) * step_y <= u32::MAX,
                    y == top + r * step_y,
                    forall|i: int|
                        0 <= i < enemies@.len() ==> #[trigger] enemies@[i] == grid_enemy(
                            sw,
                            sh,
                            w,
                            h,
                            i / GRID_COLS as int,
                            i % GRID_COLS as int,
                        ),
                decreases GRID_COLS - c,
            {
                proof {
                    lemma_step_bound(c as int, step_x as int, (u32::MAX - start_x) as int);
                }
                let x: u32 = start_x + c * step_x;
                let ghost k = enemies@.len() as int;
                enemies.push(Enemy { x, y, active: true, sprite_idx: 2 });
                assert(k / GRID_COLS as int == r && k % GRID_COLS as int == c);
                c = c + 1;
            }
            r = r + 1;
        }
        enemies
    }

    /// Whether the wave is wiped out: none of its enemies is active.
    pub fn is_extinct(&self, enemies: &[Enemy]) -> (r: bool)
        ensures
            r == all_inactive(enemies@),
    {
        let mut i: usize = 0;
        while i < enemies.len()
            invariant
                i <= enemies@.len(),
                forall|j: int| 0 <= j < i ==> !(#[trigger] enemies@[j]).active,
            decreases enemies@.len() - i,
        {
            if enemies[i].active {
                return false;
            }
            i = i + 1;
        }
        true
    }
}

/// A freshly deployed wave is never already wiped out: every enemy of the
/// grid starts active, and the grid always has rows.
pub proof fn lemma_new_wave_alive(sw: u32, sh: u32, w: u32, h: u32, count: u32, es: Seq<Enemy>)
    requires
        es.len() == GRID_COLS * wave_rows(count),
        forall|i: int|
            0 <= i < es.len() ==> #[trigger] es[i] == grid_enemy(sw, sh, w, h, i / GRID_COLS as int, i % GRID_COLS as int),
    ensures
        !all_inactive(es),
{
    assert(es[0] == grid_enemy(sw, sh, w, h, 0, 0));
}

} // verus!
