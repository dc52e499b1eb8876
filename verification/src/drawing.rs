use vstd::prelude::*;
use vstd::string::*;
use vstd::arithmetic::div_mod::{lemma_fundamental_div_mod, lemma_fundamental_div_mod_converse};

verus! {

/// Opaque red.
pub const COLOR_RED: [u8; 4] = [255, 0, 0, 255];
/// Opaque white.
pub const COLOR_WHITE: [u8; 4] = [255, 255, 255, 255];
/// Opaque green.
pub const COLOR_GREEN: [u8; 4] = [0, 255, 0, 255];
/// The dark grey of the heat bar's background.
pub const COLOR_GRAY_DARK: [u8; 4] = [60, 60, 60, 255];
/// The light grey of the heat bar's outline.
pub const COLOR_GRAY_LIGHT: [u8; 4] = [180, 180, 180, 255];
/// The green of a cool gun.
pub const COLOR_HEALTH_GREEN: [u8; 4] = [0, 200, 0, 255];
/// The orange of a warm gun.
pub const COLOR_HEAT_ORANGE: [u8; 4] = [255, 165, 0, 255];
/// The red of an overheated gun.
pub const COLOR_OVERHEAT_RED: [u8; 4] = [220, 20, 20, 255];
/// The gold of titles and the best score.
pub const COLOR_SCORE_GOLD: [u8; 4] = [255, 215, 0, 255];

/// The first byte of pixel (`x`, `y`) in an RGBA frame `width` pixels wide.
pub open spec fn pixel_offset(width: int, x: int, y: int) -> int {
    (y * width + x) * 4
}

/// `frame` with the four bytes of pixel (`x`, `y`) replaced by `color`, when
/// those bytes lie inside the frame; otherwise `frame` unchanged.
pub open spec fn with_pixel(frame: Seq<u8>, width: u32, x: u32, y: u32, color: Seq<u8>) -> Seq<u8> {
    let i = pixel_offset(width as int, x as int, y as int);
    if i + 4 <= frame.len() {
        Seq::new(frame.len(), |k: int| if i <= k < i + 4 { color[k - i] } else { frame[k] })
    } else {
        frame
    }
}

/// Whether byte `k` of an RGBA frame of `len` bytes, `width` pixels wide and
/// `height` rows high, belongs to a whole pixel of the frame whose column
/// and row satisfy `lit`.
pub open spec fn byte_lit(len: int, width: u32, height: u32, lit: spec_fn(int, int) -> bool, k: int) -> bool {
    &&& width > 0
    &&& 0 <= k
    &&& 4 * (k / 4) + 4 <= len
    &&& (k / 4) / (width as int) < height
    &&& lit((k / 4) % (width as int), (k / 4) / (width as int))
}

/// `new` is `old` with every whole pixel whose column and row satisfy `lit`
/// (within `width` columns and `height` rows) set to `color`, and every
/// other byte left as it was.
pub open spec fn painted(
    old: Seq<u8>,
    new: Seq<u8>,
    width: u32,
    height: u32,
    color: Seq<u8>,
    lit: spec_fn(int, int) -> bool,
) -> bool {
    &&& new.len() == old.len()
    &&& forall|k: int|
        0 <= k < old.len() ==> #[trigger] new[k] == (if byte_lit(old.len() as int, width, height, lit, k) {
            color[k % 4]
        } else {
            old[k]
        })
}

/// `frame` with every whole pixel whose column and row satisfy `lit` set to
/// `color` (see `painted`).
pub open spec fn paint(frame: Seq<u8>, width: u32, height: u32, color: Seq<u8>, lit: spec_fn(int, int) -> bool) -> Seq<u8> {
    Seq::new(
        frame.len(),
        |k: int|
            if byte_lit(frame.len() as int, width, height, lit, k) {
                color[k % 4]
            } else {
                frame[k]
            },
    )
}

/// `painted` pins the new frame down: it is `paint` of the old one.
pub proof fn lemma_painted_is_paint(
    old: Seq<u8>,
    new: Seq<u8>,
    width: u32,
    height: u32,
    color: Seq<u8>,
    lit: spec_fn(int, int) -> bool,
)
    requires
        painted(old, new, width, height, color, lit),
    ensures
        new == paint(old, width, height, color, lit),
{
    assert(new =~= paint(old, width, height, color, lit));
}

/// Byte `k` lies in pixel (`x`, `y`) of a frame `w` pixels wide exactly when
/// its pixel number divides into row `y` and column `x`.
pub proof fn lemma_pixel_of_byte(w: int, x: int, y: int, k: int)
    requires
        w > 0,
        0 <= x < w,
        0 <= y,
        0 <= k,
    ensures
        (pixel_offset(w, x, y) <= k < pixel_offset(w, x, y) + 4) <==> ((k / 4) % w == x && (k / 4) / w == y),
{
    let p = y * w + x;
    if pixel_offset(w, x, y) <= k < pixel_offset(w, x, y) + 4 {
        lemma_fundamental_div_mod_converse(k, 4, p, k - 4 * p);
        lemma_fundamental_div_mod_converse(p, w, y, x);
    }
    if (k / 4) % w == x && (k / 4) / w == y {
        lemma_fundamental_div_mod(k / 4, w);
        lemma_fundamental_div_mod(k, 4);
        assert(k / 4 == p) by (nonlinear_arith)
            requires
                k / 4 == w * ((k / 4) / w) + (k / 4) % w,
                (k / 4) % w == x,
                (k / 4) / w == y,
                p == y * w + x,
        ;
    }
}

/// Painting one more pixel (`px`, `py`) inside the frame extends the painted
/// region by that pixel.
pub proof fn lemma_paint_pixel(
    old: Seq<u8>,
    cur: Seq<u8>,
    width: u32,
    height: u32,
    color: Seq<u8>,
    before: spec_fn(int, int) -> bool,
    after: spec_fn(int, int) -> bool,
    px: u32,
    py: u32,
)
    requires
        painted(old, cur, width, height, color, before),
        color.len() == 4,
        px < width,
        py < height,
        forall|x: int, y: int| #[trigger] after(x, y) == (before(x, y) || (x == px && y == py)),
    ensures
        painted(old, with_pixel(cur, width, px, py, color), width, height, color, after),
{
    let new = with_pixel(cur, width, px, py, color);
    let w = width as int;
    let i = pixel_offset(w, px as int, py as int);
    assert forall|k: int| 0 <= k < old.len() implies #[trigger] new[k] == (if byte_lit(
        old.len() as int,
        width,
        height,
        after,
        k,
    ) {
        color[k % 4]
    } else {
        old[k]
    }) by {
        lemma_pixel_of_byte(w, px as int, py as int, k);
        lemma_fundamental_div_mod(k, 4);
        if i <= k < i + 4 {
            assert(k / 4 == py * w + px) by {
                lemma_fundamental_div_mod_converse(k, 4, py * w + px, k - i);
            }
            assert(k % 4 == k - i) by {
                lemma_fundamental_div_mod_converse(k, 4, py * w + px, k - i);
            }
        }
    }
}

/// When the pixel (`px`, `py`) lies outside the frame, adding it to the
/// painted region changes nothing.
pub proof fn lemma_paint_outside(
    old: Seq<u8>,
    cur: Seq<u8>,
    width: u32,
    height: u32,
    color: Seq<u8>,
    before: spec_fn(int, int) -> bool,
    after: spec_fn(int, int) -> bool,
    px: u32,
    py: u32,
)
    requires
        painted(old, cur, width, height, color, before),
        !(px < width && py < height),
        forall|x: int, y: int| #[trigger] after(x, y) == (before(x, y) || (x == px && y == py)),
    ensures
        painted(old, cur, width, height, color, after),
{
    assert forall|k: int| 0 <= k < old.len() implies byte_lit(old.len() as int, width, height, after, k)
        == byte_lit(old.len() as int, width, height, before, k) by {
        if width > 0 && 0 <= k {
            let w = width as int;
            assert(0 <= (k / 4) % w < w) by {
                vstd::arithmetic::div_mod::lemma_mod_bound(k / 4, w);
            }
        }
    }
}

/// Whether (`x`, `y`) lies in the `d` by `d` square whose top-left pixel is
/// (`cx`, `cy`).
pub open spec fn in_square(cx: int, cy: int, d: int, x: int, y: int) -> bool {
    cx <= x < cx + d && cy <= y < cy + d
}

/// Whether every byte offset of a `width` by `height` RGBA frame can be
/// computed in 32-bit arithmetic.
pub open spec fn frame_fits(width: u32, height: u32) -> bool {
    width * height * 4 <= u32::MAX
}

/// A pixel inside a frame that fits 32-bit offsets has its offset in range.
pub proof fn lemma_offset_fits(width: u32, height: u32, x: u32, y: u32)
    requires
        frame_fits(width, height),
        x < width,
        y < height,
    ensures
        pixel_offset(width as int, x as int, y as int) + 4 <= width * height * 4,
{
    assert((y * width + x) * 4 + 4 <= width * height * 4) by (nonlinear_arith)
        requires
            x < width,
            y < height,
    ;
}

/// Paints the `d` by `d` square whose top-left pixel is (`cx`, `cy`) in
/// `color`, clipped to the frame; nothing is drawn when the top-left pixel
/// lies outside the frame.
pub fn fill_square(
    frame: &mut [u8],
    frame_width: u32,
    frame_height: u32,
    cx: u32,
    cy: u32,
    d: u32,
    color: [u8; 4],
)
    requires
        frame_fits(frame_width, frame_height),
        cx < frame_width && cy < frame_height ==> cx + d <= u32::MAX + 1 && cy + d <= u32::MAX + 1,
    ensures
        painted(
            old(frame)@,
            final(frame)@,
            frame_width,
            frame_height,
            color@,
            |x: int, y: int| in_square(cx as int, cy as int, d as int, x, y),
        ),
{
    let ghost old_frame = frame@;
    let ghost square = |x: int, y: int| in_square(cx as int, cy as int, d as int, x, y);
    if cx >= frame_width || cy >= frame_height {
        assert(painted(old_frame, frame@, frame_width, frame_height, color@, square)) by {
            assert forall|k: int| 0 <= k < old_frame.len() implies !#[trigger] byte_lit(
                old_frame.len() as int,
                frame_width,
                frame_height,
                square,
                k,
            ) by {
                if frame_width > 0 && 0 <= k {
                    vstd::arithmetic::div_mod::lemma_mod_bound(k / 4, frame_width as int);
                }
            }
        }
        return;
    }
    let mut dy: u32 = 0;
    while dy < d
        invariant
            frame_fits(frame_width, frame_height),
            cx < frame_width,
            cy < frame_height,
            cx + d <= u32::MAX + 1,
            cy + d <= u32::MAX + 1,
            dy <= d,
            painted(
                old_frame,
                frame@,
                frame_width,
                frame_height,
                color@,
                |x: int, y: int| in_square(cx as int, cy as int, d as int, x, y) && y < cy + dy,
            ),
        decreases d - dy,
    {
        let mut dx: u32 = 0;
        while dx < d
            invariant
                frame_fits(frame_width, frame_height),
                cx < frame_width,
                cy < frame_height,
                cx + d <= u32::MAX + 1,
                cy + d <= u32::MAX + 1,
                dy < d,
                dx <= d,
                painted(
                    old_frame,
                    frame@,
                    frame_width,
                    frame_height,
                    color@,
                    |x: int, y: int|
                        (in_square(cx as int, cy as int, d as int, x, y) && y < cy + dy) || (y == cy + dy
                            && cx <= x < cx + dx),
                ),
            decreases d - dx,
        {
            let px = cx + dx;
            let py = cy + dy;
            let ghost before = |x: int, y: int|
                (in_square(cx as int, cy as int, d as int, x, y) && y < cy + dy) || (y == cy + dy && cx
                    <= x < cx + dx);
            let ghost after = |x: int, y: int|
                (in_square(cx as int, cy as int, d as int, x, y) && y < cy + dy) || (y == cy + dy && cx
                    <= x < cx + dx + 1);
            if px < frame_width && py < frame_height {
                let ghost cur = frame@;
                proof {
                    lemma_offset_fits(frame_width, frame_height, px, py);
                    lemma_paint_pixel(old_frame, cur, frame_width, frame_height, color@, before, after, px, py);
                }
                set_pixel(frame, frame_width, px, py, color);
            } else {
                proof {
                    lemma_paint_outside(old_frame, frame@, frame_width, frame_height, color@, before, after, px, py);
                }
            }
            dx = dx + 1;
        }
        let ghost done_row = |x: int, y: int|
            (in_square(cx as int, cy as int, d as int, x, y) && y < cy + dy) || (y == cy + dy && cx <= x
                < cx + d);
        let ghost next = |x: int, y: int| in_square(cx as int, cy as int, d as int, x, y) && y < cy + dy + 1;
        assert(forall|x: int, y: int| #[trigger] next(x, y) == done_row(x, y));
        assert(next =~= done_row);
        dy = dy + 1;
    }
    let ghost full = |x: int, y: int| in_square(cx as int, cy as int, d as int, x, y);
    let ghost done = |x: int, y: int| in_square(cx as int, cy as int, d as int, x, y) && y < cy + dy;
    assert(full =~= done);
}

/// Writes `color` into pixel (`x`, `y`) of an RGBA frame `width` pixels wide,
/// when the pixel's four bytes lie inside the frame.
pub fn set_pixel(frame: &mut [u8], width: u32, x: u32, y: u32, color: [u8; 4])
    requires
        pixel_offset(width as int, x as int, y as int) <= u32::MAX,
        pixel_offset(width as int, x as int, y as int) + 4 <= usize::MAX,
    ensures
        final(frame)@ == with_pixel(old(frame)@, width, x, y, color@),
{
    let index = ((y * width + x) * 4) as usize;
    if index + 4 <= frame.len() {
        frame[index] = color[0];
        frame[index + 1] = color[1];
        frame[index + 2] = color[2];
        frame[index + 3] = color[3];
        assert(frame@ =~= with_pixel(old(frame)@, width, x, y, color@));
    }
}

} // verus!

verus! {

/// Painting a region and then a second one paints their union.
pub proof fn lemma_paint_compose(
    old: Seq<u8>,
    mid: Seq<u8>,
    new: Seq<u8>,
    width: u32,
    height: u32,
    color: Seq<u8>,
    first: spec_fn(int, int) -> bool,
    second: spec_fn(int, int) -> bool,
    both: spec_fn(int, int) -> bool,
)
    requires
        painted(old, mid, width, height, color, first),
        painted(mid, new, width, height, color, second),
        forall|x: int, y: int| #[trigger] both(x, y) == (first(x, y) || second(x, y)),
    ensures
        painted(old, new, width, height, color, both),
{
    assert forall|k: int| 0 <= k < old.len() implies #[trigger] new[k] == (if byte_lit(
        old.len() as int,
        width,
        height,
        both,
        k,
    ) {
        color[k % 4]
    } else {
        old[k]
    }) by {
        assert(mid[k] == (if byte_lit(old.len() as int, width, height, first, k) {
            color[k % 4]
        } else {
            old[k]
        }));
    }
}

/// Painting an empty region leaves the frame as it was.
pub proof fn lemma_paint_nothing(frame: Seq<u8>, width: u32, height: u32, color: Seq<u8>, lit: spec_fn(int, int) -> bool)
    requires
        forall|x: int, y: int| !#[trigger] lit(x, y),
    ensures
        painted(frame, frame, width, height, color, lit),
{
}

/// `a` lies in the `c`-th run of `s` consecutive values exactly when `a / s`
/// is `c`.
pub proof fn lemma_div_cell(a: int, s: int, c: int)
    requires
        s > 0,
        a >= 0,
        c >= 0,
    ensures
        (c * s <= a < c * s + s) <==> a / s == c,
{
    if c * s <= a < c * s + s {
        lemma_fundamental_div_mod_converse(a, s, c, a - c * s);
    }
    if a / s == c {
        lemma_fundamental_div_mod(a, s);
        vstd::arithmetic::div_mod::lemma_mod_bound(a, s);
        assert(c * s == s * (a / s)) by (nonlinear_arith)
            requires
                a / s == c,
        ;
    }
}

/// A value below `n` runs of `s` falls in a run numbered below `n`.
pub proof fn lemma_div_below(a: int, s: int, n: int)
    requires
        s > 0,
        0 <= a < n * s,
    ensures
        0 <= a / s < n,
{
    let q = a / s;
    vstd::arithmetic::div_mod::lemma_div_pos_is_pos(a, s);
    lemma_div_cell(a, s, q);
    if q >= n {
        assert(q * s >= n * s) by (nonlinear_arith)
            requires
                q >= n,
                s > 0,
        ;
    }
}

/// The 8 by 8 bitmap of a character: one byte per row, the most significant
/// bit leftmost. Characters without a glyph are blank.
pub open spec fn glyph_rows(c: char) -> Seq<u8> {
    if c == 'G' {
        seq![0x3Cu8, 0x42, 0x40, 0x5E, 0x42, 0x42, 0x3C, 0x00]
    } else if c == 'A' {
        seq![0x18u8, 0x24, 0x42, 0x7E, 0x42, 0x42, 0x42, 0x00]
    } else if c == 'M' {
        seq![0x42u8, 0x66, 0x5A, 0x42, 0x42, 0x42, 0x42, 0x00]
    } else if c == 'E' {
        seq![0x7Eu8, 0x40, 0x40, 0x78, 0x40, 0x40, 0x7E, 0x00]
    } else if c == 'O' {
        seq![0x3Cu8, 0x42, 0x42, 0x42, 0x42, 0x42, 0x3C, 0x00]
    } else if c == 'V' {
        seq![0x42u8, 0x42, 0x42, 0x42, 0x42, 0x24, 0x18, 0x00]
    } else if c == 'R' {
        seq![0x7Cu8, 0x42, 0x42, 0x7C, 0x48, 0x44, 0x42, 0x00]
    } else if c == 'S' {
        seq![0x3Cu8, 0x42, 0x40, 0x3C, 0x02, 0x42, 0x3C, 0x00]
    } else if c == 'C' {
        seq![0x3Cu8, 0x42, 0x40, 0x40, 0x40, 0x42, 0x3C, 0x00]
    } else if c == '0' {
        seq![0x3Cu8, 0x46, 0x4A, 0x52, 0x62, 0x42, 0x3C, 0x00]
    } else if c == '1' {
        seq![0x18u8, 0x28, 0x08, 0x08, 0x08, 0x08, 0x3E, 0x00]
    } else if c == '2' {
        seq![0x3Cu8, 0x42, 0x02, 0x3C, 0x40, 0x40, 0x7E, 0x00]
    } else if c == '3' {
        seq![0x3Cu8, 0x42, 0x02, 0x1C, 0x02, 0x42, 0x3C, 0x00]
    } else if c == '4' {
        seq![0x08u8, 0x18, 0x28, 0x48, 0x7E, 0x08, 0x08, 0x00]
    } else if c == '5' {
        seq![0x7Eu8, 0x40, 0x7C, 0x02, 0x02, 0x42, 0x3C, 0x00]
    } else if c == '6' {
        seq![0x3Cu8, 0x40, 0x40, 0x7C, 0x42, 0x42, 0x3C, 0x00]
    } else if c == '7' {
        seq![0x7Eu8, 0x02, 0x04, 0x08, 0x10, 0x10, 0x10, 0x00]
    } else if c == '8' {
        seq![0x3Cu8, 0x42, 0x42, 0x3C, 0x42, 0x42, 0x3C, 0x00]
    } else if c == '9' {
        seq![0x3Cu8, 0x42, 0x42, 0x3E, 0x02, 0x02, 0x3C, 0x00]
    } else if c == ':' {
        seq![0x00u8, 0x18, 0x18, 0x00, 0x18, 0x18, 0x00, 0x00]
    } else {
        seq![0x00u8, 0x00, 0x00, 0x00, 0x00, 0x00, 0x00, 0x00]
    }
}

/// The bitmap of `c`.
fn get_glyph(c: char) -> (g: [u8; 8])
    ensures
        g@ == glyph_rows(c),
{
    let g: [u8; 8] = match c {
        'G' => [0x3C, 0x42, 0x40, 0x5E, 0x42, 0x42, 0x3C, 0x00],
        'A' => [0x18, 0x24, 0x42, 0x7E, 0x42, 0x42, 0x42, 0x00],
        'M' => [0x42, 0x66, 0x5A, 0x42, 0x42, 0x42, 0x42, 0x00],
        'E' => [0x7E, 0x40, 0x40, 0x78, 0x40, 0x40, 0x7E, 0x00],
        'O' => [0x3C, 0x42, 0x42, 0x42, 0x42, 0x42, 0x3C, 0x00],
        'V' => [0x42, 0x42, 0x42, 0x42, 0x42, 0x24, 0x18, 0x00],
        'R' => [0x7C, 0x42, 0x42, 0x7C, 0x48, 0x44, 0x42, 0x00],
        'S' => [0x3C, 0x42, 0x40, 0x3C, 0x02, 0x42, 0x3C, 0x00],
        'C' => [0x3C, 0x42, 0x40, 0x40, 0x40, 0x42, 0x3C, 0x00],
        '0' => [0x3C, 0x46, 0x4A, 0x52, 0x62, 0x42, 0x3C, 0x00],
        '1' => [0x18, 0x28, 0x08, 0x08, 0x08, 0x08, 0x3E, 0x00],
        '2' => [0x3C, 0x42, 0x02, 0x3C, 0x40, 0x40, 0x7E, 0x00],
        '3' => [0x3C, 0x42, 0x02, 0x1C, 0x02, 0x42, 0x3C, 0x00],
        '4' => [0x08, 0x18, 0x28, 0x48, 0x7E, 0x08, 0x08, 0x00],
        '5' => [0x7E, 0x40, 0x7C, 0x02, 0x02, 0x42, 0x3C, 0x00],
        '6' => [0x3C, 0x40, 0x40, 0x7C, 0x42, 0x42, 0x3C, 0x00],
        '7' => [0x7E, 0x02, 0x04, 0x08, 0x10, 0x10, 0x10, 0x00],
        '8' => [0x3C, 0x42, 0x42, 0x3C, 0x42, 0x42, 0x3C, 0x00],
        '9' => [0x3C, 0x42, 0x42, 0x3E, 0x02, 0x02, 0x3C, 0x00],
        ':' => [0x00, 0x18, 0x18, 0x00, 0x18, 0x18, 0x00, 0x00],
        _ => [0x00; 8],
    };
    assert(g@ =~= glyph_rows(c));
    g
}

/// `c` with ASCII lower-case letters turned into upper-case ones.
pub open spec fn ascii_upper(c: char) -> char {
    if 'a' <= c && c <= 'z' {
        ((c as u8) - 32) as char
    } else {
        c
    }
}

/// `char::to_ascii_uppercase`.
fn to_ascii_upper(c: char) -> (r: char)
    ensures
        r == ascii_upper(c),
{
    if 'a' <= c && c <= 'z' {
        ((c as u8) - 32) as char
    } else {
        c
    }
}


/// Whether bit `col` (counted from the most significant end) of a glyph row
/// is set.
pub open spec fn glyph_bit(row_bits: u8, col: u32) -> bool {
    (row_bits & (0x80u8 >> col)) != 0
}

/// A blended channel is weighted by the sprite pixel's own alpha: it lies
/// within `alpha` (plus one for rounding down) of the frame's channel, and
/// within `256 - alpha` of the sprite's. So a faint pixel barely changes
/// the frame and a nearly opaque one nearly replaces it.
pub proof fn lemma_blend_weighted(src: u8, dst: u8, alpha: u8)
    ensures
        dst - alpha - 1 <= blend(src, dst, alpha) <= dst + alpha,
        src - (256 - alpha) <= blend(src, dst, alpha) <= src + (256 - alpha),
{
    let s = src as int;
    let d = dst as int;
    let a = alpha as int;
    let t = s * a + d * (255 - a);
    assert(0 <= t <= 255 * 255 && d * 256 - 256 * (a + 1) <= t <= d * 256 + a * 256 && s * 256 - 256 * (256 - a)
        <= t <= s * 256 + 256 * (256 - a)) by (nonlinear_arith)
        requires
            0 <= s <= 255,
            0 <= d <= 255,
            0 <= a <= 255,
            t == s * a + d * (255 - a),
    ;
    assert(t / 256 <= 254);
}

/// Blending by a larger alpha moves a channel further toward the sprite's:
/// when the sprite's channel is at least the frame's, more alpha never
/// gives less.
pub proof fn lemma_blend_monotone(src: u8, dst: u8, a1: u8, a2: u8)
    requires
        a1 <= a2,
        src >= dst,
    ensures
        blend(src, dst, a1) <= blend(src, dst, a2),
{
    let s = src as int;
    let d = dst as int;
    let t1 = s * a1 + d * (255 - a1);
    let t2 = s * a2 + d * (255 - a2);
    assert(t1 <= t2 && 0 <= t1 && t2 <= 255 * 255) by (nonlinear_arith)
        requires
            0 <= d <= s <= 255,
            0 <= a1 <= a2 <= 255,
            t1 == s * a1 + d * (255 - a1),
            t2 == s * a2 + d * (255 - a2),
    ;
    vstd::arithmetic::div_mod::lemma_div_is_ordered(t1, t2, 256);
}

/// Glyph rows are read most significant bit first: column `col` of a row
/// is lit exactly when bit `7 - col` of the row's byte is set, so the bit
/// `0x80 >> c` lights column `c` and no other.
pub proof fn lemma_glyph_bit_msb_first(row_bits: u8, col: u32, c: u32)
    requires
        col < 8,
        c < 8,
    ensures
        glyph_bit(row_bits, col) == ((row_bits >> ((7 - col) as u8)) & 1u8 == 1u8),
        glyph_bit(0x80u8 >> c, col) == (c == col),
{
    assert(((row_bits & (0x80u8 >> col)) != 0) == ((row_bits >> ((7 - col) as u8)) & 1u8 == 1u8)) by (bit_vector)
        requires
            col < 8,
    ;
    assert((((0x80u8 >> c) & (0x80u8 >> col)) != 0) == (c == col)) by (bit_vector)
        requires
            col < 8,
            c < 8,
    ;
}

/// Whether pixel (`x`, `y`) is lit when glyph `g` is drawn with its top-left
/// corner at (`x0`, `y0`), each glyph dot a `s` by `s` square.
pub open spec fn glyph_lit(g: Seq<u8>, x0: int, y0: int, s: int, x: int, y: int) -> bool {
    &&& s > 0
    &&& x0 <= x < x0 + 8 * s
    &&& y0 <= y < y0 + 8 * s
    &&& glyph_bit(g[(y - y0) / s], ((x - x0) / s) as u32)
}

/// Whether dot (`r`, `c`) of a glyph comes before dot (`row`, `col`) in
/// row-major order.
pub open spec fn dot_before(r: int, c: int, row: int, col: int) -> bool {
    r < row || (r == row && c < col)
}

/// Draws glyph `g` with its top-left corner at (`x0`, `y0`), each dot a
/// `scale` by `scale` square, clipped to the frame.
fn draw_glyph(
    frame: &mut [u8],
    width: u32,
    height: u32,
    x0: u32,
    y0: u32,
    g: [u8; 8],
    scale: u32,
    color: [u8; 4],
)
    requires
        frame_fits(width, height),
        x0 + 8 * scale <= u32::MAX + 1,
        y0 + 8 * scale <= u32::MAX + 1,
    ensures
        painted(
            old(frame)@,
            final(frame)@,
            width,
            height,
            color@,
            |x: int, y: int| glyph_lit(g@, x0 as int, y0 as int, scale as int, x, y),
        ),
{
    let ghost old_frame = frame@;
    let ghost s = scale as int;
    let mut row: u32 = 0;
    while row < 8
        invariant
            frame_fits(width, height),
            x0 + 8 * scale <= u32::MAX + 1,
            y0 + 8 * scale <= u32::MAX + 1,
            s == scale,
            row <= 8,
            painted(
                old_frame,
                frame@,
                width,
                height,
                color@,
                |x: int, y: int|
                    glyph_lit(g@, x0 as int, y0 as int, s, x, y) && dot_before(
                        (y - y0) / s,
                        (x - x0) / s,
                        row as int,
                        0,
                    ),
            ),
        decreases 8 - row,
    {
        let mut col: u32 = 0;
        while col < 8
            invariant
                frame_fits(width, height),
                x0 + 8 * scale <= u32::MAX + 1,
                y0 + 8 * scale <= u32::MAX + 1,
                s == scale,
                row < 8,
                col <= 8,
                painted(
                    old_frame,
                    frame@,
                    width,
                    height,
                    color@,
                    |x: int, y: int|
                        glyph_lit(g@, x0 as int, y0 as int, s, x, y) && dot_before(
                            (y - y0) / s,
                            (x - x0) / s,
                            row as int,
                            col as int,
                        ),
                ),
            decreases 8 - col,
        {
            let ghost before = |x: int, y: int|
                glyph_lit(g@, x0 as int, y0 as int, s, x, y) && dot_before(
                    (y - y0) / s,
                    (x - x0) / s,
                    row as int,
                    col as int,
                );
            let ghost after = |x: int, y: int|
                glyph_lit(g@, x0 as int, y0 as int, s, x, y) && dot_before(
                    (y - y0) / s,
                    (x - x0) / s,
                    row as int,
                    col + 1,
                );
            assert(col * scale + scale <= 8 * scale) by (nonlinear_arith)
                requires
                    col < 8,
            ;
            assert(row * scale + scale <= 8 * scale) by (nonlinear_arith)
                requires
                    row < 8,
            ;
            let cx = x0 + col * scale;
            let cy = y0 + row * scale;
            let ghost square = |x: int, y: int| in_square(cx as int, cy as int, s, x, y);
            if (g[row as usize] & (0x80u8 >> col)) != 0 {
                let ghost mid = frame@;
                fill_square(frame, width, height, cx, cy, scale, color);
                proof {
                    assert forall|x: int, y: int| #[trigger] after(x, y) == (before(x, y) || square(x, y)) by {
                        if s > 0 && x >= x0 && y >= y0 {
                            lemma_div_cell(x - x0, s, col as int);
                            lemma_div_cell(y - y0, s, row as int);
                        }
                    }
                    lemma_paint_compose(old_frame, mid, frame@, width, height, color@, before, square, after);
                }
            } else {
                proof {
                    assert forall|x: int, y: int| #[trigger] after(x, y) == before(x, y) by {
                        if s > 0 && x >= x0 && y >= y0 && glyph_lit(g@, x0 as int, y0 as int, s, x, y) {
                            vstd::arithmetic::div_mod::lemma_div_pos_is_pos(x - x0, s);
                            vstd::arithmetic::div_mod::lemma_div_pos_is_pos(y - y0, s);
                        }
                    }
                    assert(after =~= before);
                }
            }
            col = col + 1;
        }
        proof {
            let done_row = |x: int, y: int|
                glyph_lit(g@, x0 as int, y0 as int, s, x, y) && dot_before(
                    (y - y0) / s,
                    (x - x0) / s,
                    row as int,
                    8,
                );
            let next = |x: int, y: int|
                glyph_lit(g@, x0 as int, y0 as int, s, x, y) && dot_before(
                    (y - y0) / s,
                    (x - x0) / s,
                    row + 1,
                    0,
                );
            assert forall|x: int, y: int| #[trigger] next(x, y) == done_row(x, y) by {
                if glyph_lit(g@, x0 as int, y0 as int, s, x, y) {
                    lemma_div_below(x - x0, s, 8);
                }
            }
            assert(next =~= done_row);
        }
        row = row + 1;
    }
    proof {
        let full = |x: int, y: int| glyph_lit(g@, x0 as int, y0 as int, s, x, y);
        let done = |x: int, y: int|
            glyph_lit(g@, x0 as int, y0 as int, s, x, y) && dot_before((y - y0) / s, (x - x0) / s, 8, 0);
        assert forall|x: int, y: int| #[trigger] full(x, y) == done(x, y) by {
            if glyph_lit(g@, x0 as int, y0 as int, s, x, y) {
                lemma_div_below(y - y0, s, 8);
            }
        }
        assert(full =~= done);
    }
}

/// Whether pixel (`tx`, `ty`) is lit by character `i` of `chars` when the
/// text starts at (`x`, `y`) with dots of size `s`: characters stand `9 * s`
/// pixels apart and are drawn in upper case.
pub open spec fn char_lit(chars: Seq<char>, x: int, y: int, s: int, i: int, tx: int, ty: int) -> bool {
    glyph_lit(glyph_rows(ascii_upper(chars[i])), x + i * (9 * s), y, s, tx, ty)
}

/// The pixels lit by `chars` drawn at (`x`, `y`) with dots of size `s`.
pub open spec fn text_region(chars: Seq<char>, x: int, y: int, s: int) -> spec_fn(int, int) -> bool {
    |tx: int, ty: int| text_lit(chars, x, y, s, tx, ty)
}

/// Whether pixel (`tx`, `ty`) is lit by some character of `chars`.
pub open spec fn text_lit(chars: Seq<char>, x: int, y: int, s: int, tx: int, ty: int) -> bool {
    exists|i: int| 0 <= i < chars.len() && #[trigger] char_lit(chars, x, y, s, i, tx, ty)
}

/// Turning letters upper case twice is turning them once.
proof fn lemma_ascii_upper_idempotent(c: char)
    ensures
        ascii_upper(ascii_upper(c)) == ascii_upper(c),
{
}

/// Text is drawn blind to case: a string lights exactly the pixels that
/// the same string with its ASCII lower-case letters made upper case
/// lights.
pub proof fn lemma_text_case_blind(chars: Seq<char>, x: int, y: int, s: int)
    ensures
        forall|tx: int, ty: int|
            #[trigger] text_lit(chars, x, y, s, tx, ty) == text_lit(
                chars.map_values(|c: char| ascii_upper(c)),
                x,
                y,
                s,
                tx,
                ty,
            ),
{
    let up = chars.map_values(|c: char| ascii_upper(c));
    assert forall|i: int, tx: int, ty: int| 0 <= i < chars.len() implies #[trigger] char_lit(chars, x, y, s, i, tx, ty)
        == char_lit(up, x, y, s, i, tx, ty) by {
        lemma_ascii_upper_idempotent(chars[i]);
        assert(up[i] == ascii_upper(chars[i]));
    }
    assert forall|tx: int, ty: int| #[trigger] text_lit(chars, x, y, s, tx, ty) == text_lit(up, x, y, s, tx, ty) by {
        if text_lit(chars, x, y, s, tx, ty) {
            let i = choose|i: int| 0 <= i < chars.len() && #[trigger] char_lit(chars, x, y, s, i, tx, ty);
            assert(char_lit(up, x, y, s, i, tx, ty));
        }
        if text_lit(up, x, y, s, tx, ty) {
            let i = choose|i: int| 0 <= i < up.len() && #[trigger] char_lit(up, x, y, s, i, tx, ty);
            assert(char_lit(chars, x, y, s, i, tx, ty));
        }
    }
}

/// Drawing a string and drawing it with its ASCII lower-case letters made
/// upper case, on the same frame in the same place, size and colour, give
/// the same frame.
pub proof fn lemma_text_frames_case_blind(
    frame: Seq<u8>,
    a: Seq<u8>,
    b: Seq<u8>,
    width: u32,
    height: u32,
    color: Seq<u8>,
    chars: Seq<char>,
    x: int,
    y: int,
    s: int,
)
    requires
        painted(frame, a, width, height, color, |tx: int, ty: int| text_lit(chars, x, y, s, tx, ty)),
        painted(
            frame,
            b,
            width,
            height,
            color,
            |tx: int, ty: int| text_lit(chars.map_values(|c: char| ascii_upper(c)), x, y, s, tx, ty),
        ),
    ensures
        a == b,
{
    lemma_text_case_blind(chars, x, y, s);
    assert forall|k: int| 0 <= k < a.len() implies a[k] == b[k] by {
        assert(a[k] == (if byte_lit(frame.len() as int, width, height, |tx: int, ty: int| text_lit(chars, x, y, s, tx, ty), k) {
            color[k % 4]
        } else {
            frame[k]
        }));
    }
    assert(a =~= b);
}

/// Whether text of `n` characters at (`x`, `y`) with dots of size `s` can be
/// laid out in 32-bit coordinates.
pub open spec fn text_fits(x: u32, y: u32, n: int, s: u32) -> bool {
    n == 0 || (x + n * (9 * s) <= u32::MAX + 1 && y + 8 * s <= u32::MAX + 1)
}

/// Draws `text` in the bitmap font with its top-left corner at (`x`, `y`),
/// each font dot a `scale` by `scale` square, in `color`, clipped to the
/// frame. Letters are drawn in upper case; characters without a glyph leave
/// a blank cell.
pub fn draw_text(
    frame: &mut [u8],
    width: u32,
    height: u32,
    x: u32,
    y: u32,
    text: &str,
    scale: u32,
    color: [u8; 4],
)
    requires
        frame_fits(width, height),
        text_fits(x, y, text@.len() as int, scale),
    ensures
        painted(
            old(frame)@,
            final(frame)@,
            width,
            height,
            color@,
            |tx: int, ty: int| text_lit(text@, x as int, y as int, scale as int, tx, ty),
        ),
{
    let ghost old_frame = frame@;
    let ghost chars = text@;
    let ghost s = scale as int;
    let n = text.unicode_len();
    let mut i: usize = 0;
    proof {
        let none = |tx: int, ty: int|
            exists|j: int| 0 <= j < 0 && #[trigger] char_lit(chars, x as int, y as int, s, j, tx, ty);
        lemma_paint_nothing(old_frame, width, height, color@, none);
    }
    while i < n
        invariant
            frame_fits(width, height),
            text_fits(x, y, chars.len() as int, scale),
            chars == text@,
            n == chars.len(),
            s == scale,
            i <= n,
            painted(
                old_frame,
                frame@,
                width,
                height,
                color@,
                |tx: int, ty: int|
                    exists|j: int| 0 <= j < i && #[trigger] char_lit(chars, x as int, y as int, s, j, tx, ty),
            ),
        decreases n - i,
    {
        let c = text.get_char(i);
        let g = get_glyph(to_ascii_upper(c));
        proof {
            assert(n * (9 * s) >= 9 * s) by (nonlinear_arith)
                requires
                    n >= 1,
                    s >= 0,
            ;
            if s > 0 {
                assert(n * (9 * s) >= n) by (nonlinear_arith)
                    requires
                        n >= 1,
                        s >= 1,
                ;
                assert(i * (9 * s) <= (n - 1) * (9 * s)) by (nonlinear_arith)
                    requires
                        i <= n - 1,
                        s >= 1,
                ;
                assert((n - 1) * (9 * s) == n * (9 * s) - 9 * s) by (nonlinear_arith);
                assert(i < 0x1_0000_0000);
                assert(x + i * (9 * s) <= u32::MAX);
            }
        }
        let step = 8 * scale + scale;
        let x_offset = if scale == 0 { x } else { x + (i as u32 * step) };
        proof {
            if scale > 0 {
                assert(x + i * (9 * s) + 8 * s <= x + n * (9 * s)) by (nonlinear_arith)
                    requires
                        i < n,
                        s > 0,
                ;
                assert(i * (9 * s) >= 0) by (nonlinear_arith)
                    requires
                        s > 0,
                ;
                assert(x_offset == x + i * (9 * s));
            }
        }
        let ghost mid = frame@;
        draw_glyph(frame, width, height, x_offset, y, g, scale, color);
        proof {
            let before = |tx: int, ty: int|
                exists|j: int| 0 <= j < i && #[trigger] char_lit(chars, x as int, y as int, s, j, tx, ty);
            let this = |tx: int, ty: int| glyph_lit(g@, x_offset as int, y as int, s, tx, ty);
            let after = |tx: int, ty: int|
                exists|j: int| 0 <= j < i + 1 && #[trigger] char_lit(chars, x as int, y as int, s, j, tx, ty);
            assert forall|tx: int, ty: int| #[trigger] after(tx, ty) == (before(tx, ty) || this(tx, ty)) by {
                if this(tx, ty) {
                    assert(char_lit(chars, x as int, y as int, s, i as int, tx, ty));
                }
                if after(tx, ty) {
                    let j = choose|j: int| 0 <= j < i + 1 && #[trigger] char_lit(chars, x as int, y as int, s, j, tx, ty);
                    if j == i {
                        assert(this(tx, ty));
                    } else {
                        assert(before(tx, ty));
                    }
                }
            }
            lemma_paint_compose(old_frame, mid, frame@, width, height, color@, before, this, after);
        }
        i = i + 1;
    }
    proof {
        let full = |tx: int, ty: int| text_lit(chars, x as int, y as int, s, tx, ty);
        let done = |tx: int, ty: int|
            exists|j: int| 0 <= j < i && #[trigger] char_lit(chars, x as int, y as int, s, j, tx, ty);
        assert(full =~= done);
    }
}

/// The width in pixels that `draw_text_centered` reserves for a text of
/// `len` bytes at dot size `s`: `len` glyphs of `8 * s` and the `len - 1`
/// gaps of `s` between them.
pub open spec fn centered_text_width(len: int, s: int) -> int {
    len * (8 * s) + (len - 1) * s
}

/// The column where `draw_text_centered` starts a text of `len` bytes.
pub open spec fn centered_x(width: u32, len: int, s: int) -> int {
    if width >= centered_text_width(len, s) {
        (width - centered_text_width(len, s)) / 2
    } else {
        0
    }
}

/// The row where `draw_text_centered` starts a text at dot size `s`.
pub open spec fn centered_y(height: u32, s: int) -> int {
    if height >= 8 * s {
        (height - 8 * s) / 2
    } else {
        0
    }
}

/// Draws `text` centred in the frame (see `draw_text`). The width it centres
/// on counts the text's bytes, as `str::len` does.
pub fn draw_text_centered(frame: &mut [u8], width: u32, height: u32, text: &str, scale: u32, color: [u8; 4])
    requires
        frame_fits(width, height),
        1 <= text.spec_bytes().len() <= u32::MAX,
        centered_text_width(text.spec_bytes().len() as int, scale as int) <= u32::MAX,
        8 * scale <= u32::MAX,
        text_fits(
            centered_x(width, text.spec_bytes().len() as int, scale as int) as u32,
            centered_y(height, scale as int) as u32,
            text@.len() as int,
            scale,
        ),
    ensures
        painted(
            old(frame)@,
            final(frame)@,
            width,
            height,
            color@,
            |tx: int, ty: int|
                text_lit(
                    text@,
                    centered_x(width, text.spec_bytes().len() as int, scale as int),
                    centered_y(height, scale as int),
                    scale as int,
                    tx,
                    ty,
                ),
        ),
{
    let ghost b = text.spec_bytes().len() as int;
    let ghost s = scale as int;
    proof {
        assert(b * (8 * s) <= centered_text_width(b, s)) by (nonlinear_arith)
            requires
                b >= 1,
                s >= 0,
        ;
        assert((b - 1) * s <= centered_text_width(b, s)) by (nonlinear_arith)
            requires
                b >= 1,
                s >= 0,
        ;
    }
    let char_w = 8 * scale;
    let spacing = scale;
    let len = text.len() as u32;
    let total_w = (len * char_w) + ((len - 1) * spacing);
    let start_x = (width.saturating_sub(total_w)) / 2;
    let start_y = (height.saturating_sub(8 * scale)) / 2;
    draw_text(frame, width, height, start_x, start_y, text, scale, color);
}

/// A sprite channel `src` laid with opacity `alpha` over a frame channel
/// `dst`: `(src * alpha + dst * (255 - alpha)) / 256`.
pub open spec fn blend(src: u8, dst: u8, alpha: u8) -> u8 {
    ((src * alpha + dst * (255 - alpha)) / 256) as u8
}

/// The offset of the first byte of sprite pixel (`row`, `col`) in a sprite
/// `sw` pixels wide.
pub open spec fn source_offset(row: int, col: int, sw: int) -> int {
    (row * sw + col) * 4
}

/// Every sprite pixel that lands inside the frame has its four bytes in the
/// sprite data, at an offset that 32-bit arithmetic can compute.
pub open spec fn sprite_source_ok(fw: u32, fh: u32, dx: i32, dy: i32, spr_len: int, sw: u32, sh: u32) -> bool {
    forall|row: int, col: int|
        0 <= row < sh && 0 <= col < sw && 0 <= dx + col < fw && 0 <= dy + row < fh
            ==> #[trigger] source_offset(row, col, sw as int) + 4 <= spr_len && source_offset(
            row,
            col,
            sw as int,
        ) <= u32::MAX
}

/// Byte `k` of a frame of `old.len()` bytes, `fw` pixels wide and `fh` rows
/// high, after the RGBA sprite `spr` (`sw` by `sh` pixels) is drawn with its
/// top-left corner at (`dx`, `dy`). A frame pixel under a sprite pixel of
/// alpha 0 keeps its bytes; under alpha 255 it takes the sprite pixel's
/// bytes; under any other alpha its colour channels are blended (see
/// `blend`) and its alpha becomes 255. Pixels outside the sprite, outside
/// the frame's rows, or whose four bytes do not all lie in the frame keep
/// their bytes.
pub open spec fn sprite_byte(
    old: Seq<u8>,
    fw: u32,
    fh: u32,
    dx: i32,
    dy: i32,
    spr: Seq<u8>,
    sw: u32,
    sh: u32,
    k: int,
) -> u8 {
    let p = k / 4;
    let c = k % 4;
    let row = p / (fw as int) - dy;
    let col = p % (fw as int) - dx;
    if fw > 0 && 4 * p + 4 <= old.len() && p / (fw as int) < fh && 0 <= row < sh && 0 <= col < sw {
        let si = source_offset(row, col, sw as int);
        let a = spr[si + 3];
        if a == 0 {
            old[k]
        } else if a == 255 {
            spr[si + c]
        } else if c == 3 {
            255
        } else {
            blend(spr[si + c], old[k], a)
        }
    } else {
        old[k]
    }
}

/// Whether byte `k`'s pixel lies at a sprite position before (`row`, `col`)
/// in row-major order.
pub open spec fn sprite_done(fw: u32, dx: i32, dy: i32, row: int, col: int, k: int) -> bool {
    fw > 0 && dot_before((k / 4) / (fw as int) - dy, (k / 4) % (fw as int) - dx, row, col)
}

/// The frame holds `sprite_byte` at every byte whose pixel comes before
/// sprite position (`row`, `col`), and its old byte elsewhere.
pub open spec fn sprite_progress(
    old: Seq<u8>,
    cur: Seq<u8>,
    fw: u32,
    fh: u32,
    dx: i32,
    dy: i32,
    spr: Seq<u8>,
    sw: u32,
    sh: u32,
    row: int,
    col: int,
) -> bool {
    &&& cur.len() == old.len()
    &&& forall|k: int|
        0 <= k < old.len() ==> #[trigger] cur[k] == (if sprite_done(fw, dx, dy, row, col, k) {
            sprite_byte(old, fw, fh, dx, dy, spr, sw, sh, k)
        } else {
            old[k]
        })
}

/// Channel blending in 32-bit arithmetic stays below 256 and its shift by 8
/// is the division by 256.
proof fn lemma_blend(s: u32, d: u32, a: u32)
    requires
        s <= 255,
        d <= 255,
        a <= 255,
    ensures
        s * a + d * (255 - a) <= 255 * 255,
        ((s * a + d * (255 - a)) as u32) >> 8u32 == (s * a + d * (255 - a)) / 256,
{
    assert(s * a + d * (255 - a) <= 255 * 255) by (nonlinear_arith)
        requires
            s <= 255,
            d <= 255,
            a <= 255,
    ;
    let v = (s * a + d * (255 - a)) as u32;
    assert(v >> 8u32 == v / 256) by (bit_vector);
}

/// Moving past sprite position (`row`, `col`) without writing is right when
/// that position's pixel lies outside the frame, is transparent, or has
/// bytes beyond the frame's end.
proof fn lemma_sprite_skip(
    old: Seq<u8>,
    cur: Seq<u8>,
    fw: u32,
    fh: u32,
    dx: i32,
    dy: i32,
    spr: Seq<u8>,
    sw: u32,
    sh: u32,
    row: int,
    col: int,
)
    requires
        sprite_progress(old, cur, fw, fh, dx, dy, spr, sw, sh, row, col),
        0 <= row < sh,
        0 <= col < sw,
        ({
            let tx = dx + col;
            let ty = dy + row;
            ||| !(0 <= tx < fw && 0 <= ty < fh)
            ||| spr[source_offset(row, col, sw as int) + 3] == 0
            ||| 4 * (ty * fw + tx) + 4 > old.len()
        }),
    ensures
        sprite_progress(old, cur, fw, fh, dx, dy, spr, sw, sh, row, col + 1),
{
    assert forall|k: int| 0 <= k < old.len() implies #[trigger] cur[k] == (if sprite_done(
        fw,
        dx,
        dy,
        row,
        col + 1,
        k,
    ) {
        sprite_byte(old, fw, fh, dx, dy, spr, sw, sh, k)
    } else {
        old[k]
    }) by {
        if fw > 0 {
            let w = fw as int;
            let p = k / 4;
            if p / w - dy == row && p % w - dx == col {
                vstd::arithmetic::div_mod::lemma_mod_bound(p, w);
                vstd::arithmetic::div_mod::lemma_div_pos_is_pos(p, w);
                vstd::arithmetic::div_mod::lemma_div_pos_is_pos(k, 4);
                lemma_fundamental_div_mod(p, w);
                assert(p == (dy + row) * w + (dx + col)) by (nonlinear_arith)
                    requires
                        p == w * (p / w) + p % w,
                        p / w == dy + row,
                        p % w == dx + col,
                ;
            }
        }
    }
}

/// The bytes of one sprite pixel's frame pixel, written as `draw_sprite`
/// writes them.
pub open spec fn written_byte(cur: Seq<u8>, spr: Seq<u8>, si: int, di: int, alpha: u8, i: int) -> u8 {
    if alpha == 255 {
        spr[si + i]
    } else if i == 3 {
        255
    } else {
        blend(spr[si + i], cur[di + i], alpha)
    }
}

/// Writing sprite position (`row`, `col`)'s pixel into the frame pixel
/// (`tx`, `ty`) moves the drawing one position on.
proof fn lemma_sprite_write(
    old: Seq<u8>,
    cur: Seq<u8>,
    new: Seq<u8>,
    fw: u32,
    fh: u32,
    dx: i32,
    dy: i32,
    spr: Seq<u8>,
    sw: u32,
    sh: u32,
    row: int,
    col: int,
    tx: int,
    ty: int,
)
    requires
        sprite_progress(old, cur, fw, fh, dx, dy, spr, sw, sh, row, col),
        0 <= row < sh,
        0 <= col < sw,
        tx == dx + col,
        ty == dy + row,
        0 <= tx < fw,
        0 <= ty < fh,
        4 * (ty * fw + tx) + 4 <= old.len(),
        spr[source_offset(row, col, sw as int) + 3] != 0,
        new.len() == cur.len(),
        forall|j: int|
            0 <= j < cur.len() && !(4 * (ty * fw + tx) <= j < 4 * (ty * fw + tx) + 4) ==> #[trigger] new[j]
                == cur[j],
        forall|i: int|
            0 <= i < 4 ==> #[trigger] new[4 * (ty * fw + tx) + i] == written_byte(
                cur,
                spr,
                source_offset(row, col, sw as int),
                4 * (ty * fw + tx),
                spr[source_offset(row, col, sw as int) + 3],
                i,
            ),
    ensures
        sprite_progress(old, new, fw, fh, dx, dy, spr, sw, sh, row, col + 1),
{
    let w = fw as int;
    let di = 4 * (ty * w + tx);
    assert forall|k: int| 0 <= k < old.len() implies #[trigger] new[k] == (if sprite_done(
        fw,
        dx,
        dy,
        row,
        col + 1,
        k,
    ) {
        sprite_byte(old, fw, fh, dx, dy, spr, sw, sh, k)
    } else {
        old[k]
    }) by {
        lemma_pixel_of_byte(w, tx, ty, k);
        if di <= k < di + 4 {
            lemma_fundamental_div_mod_converse(k, 4, ty * w + tx, k - di);
            assert(new[di + (k - di)] == written_byte(
                cur,
                spr,
                source_offset(row, col, sw as int),
                di,
                spr[source_offset(row, col, sw as int) + 3],
                k - di,
            ));
            assert(cur[k] == old[k]);
        }
    }
}

/// Drawing a sprite that has no partly transparent pixel (every alpha byte
/// is 0 or 255) a second time over its own result changes nothing: each
/// frame byte already holds what the sprite would write there.
pub proof fn lemma_opaque_sprite_idempotent(
    old: Seq<u8>,
    mid: Seq<u8>,
    fw: u32,
    fh: u32,
    dx: i32,
    dy: i32,
    spr: Seq<u8>,
    sw: u32,
    sh: u32,
)
    requires
        sprite_source_ok(fw, fh, dx, dy, spr.len() as int, sw, sh),
        forall|i: int| 0 <= i < spr.len() && i % 4 == 3 ==> #[trigger] spr[i] == 0 || spr[i] == 255,
        mid.len() == old.len(),
        forall|k: int| 0 <= k < old.len() ==> #[trigger] mid[k] == sprite_byte(old, fw, fh, dx, dy, spr, sw, sh, k),
    ensures
        forall|k: int| 0 <= k < mid.len() ==> #[trigger] sprite_byte(mid, fw, fh, dx, dy, spr, sw, sh, k) == mid[k],
{
    assert forall|k: int| 0 <= k < mid.len() implies #[trigger] sprite_byte(mid, fw, fh, dx, dy, spr, sw, sh, k)
        == mid[k] by {
        assert(mid[k] == sprite_byte(old, fw, fh, dx, dy, spr, sw, sh, k));
        if fw > 0 {
            let w = fw as int;
            let p = k / 4;
            let row = p / w - dy;
            let col = p % w - dx;
            if 4 * p + 4 <= old.len() && p / w < fh && 0 <= row < sh && 0 <= col < sw {
                vstd::arithmetic::div_mod::lemma_div_pos_is_pos(k, 4);
                vstd::arithmetic::div_mod::lemma_div_pos_is_pos(p, w);
                vstd::arithmetic::div_mod::lemma_mod_bound(p, w);
                let si = source_offset(row, col, sw as int);
                assert(si + 4 <= spr.len());
                assert((si + 3) % 4 == 3);
                assert(spr[si + 3] == 0 || spr[si + 3] == 255);
            }
        }
    }
}


/// Draws an RGBA sprite of `sprite_w` by `sprite_h` pixels with its top-left
/// corner at (`dest_x`, `dest_y`), clipped to the frame: transparent pixels
/// are skipped, opaque ones copied, and the others blended (see
/// `sprite_byte`).
pub fn draw_sprite(
    frame: &mut [u8],
    frame_width: u32,
    frame_height: u32,
    dest_x: i32,
    dest_y: i32,
    sprite_pixels: &[u8],
    sprite_w: u32,
    sprite_h: u32,
)
    requires
        frame_width == 0 || frame_height == 0 || (frame_width <= i32::MAX && frame_height <= i32::MAX
            && frame_width * frame_height * 4 <= i32::MAX),
        sprite_w <= i32::MAX + 1,
        sprite_h <= i32::MAX + 1,
        dest_x + sprite_w <= i32::MAX + 1,
        dest_y + sprite_h <= i32::MAX + 1,
        sprite_source_ok(
            frame_width,
            frame_height,
            dest_x,
            dest_y,
            sprite_pixels@.len() as int,
            sprite_w,
            sprite_h,
        ),
    ensures
        final(frame)@.len() == old(frame)@.len(),
        forall|k: int|
            0 <= k < old(frame)@.len() ==> #[trigger] final(frame)@[k] == sprite_byte(
                old(frame)@,
                frame_width,
                frame_height,
                dest_x,
                dest_y,
                sprite_pixels@,
                sprite_w,
                sprite_h,
                k,
            ),
{
    if frame_width == 0 || frame_height == 0 {
        proof {
            assert forall|k: int| 0 <= k < frame@.len() implies #[trigger] frame@[k] == sprite_byte(
                frame@,
                frame_width,
                frame_height,
                dest_x,
                dest_y,
                sprite_pixels@,
                sprite_w,
                sprite_h,
                k,
            ) by {
                if frame_width > 0 {
                    vstd::arithmetic::div_mod::lemma_div_pos_is_pos(k, 4);
                    vstd::arithmetic::div_mod::lemma_div_pos_is_pos(k / 4, frame_width as int);
                }
            }
        }
        return;
    }
    let ghost old_frame = frame@;
    let ghost spr = sprite_pixels@;
    let mut row: u32 = 0;
    while row < sprite_h
        invariant
            frame_width <= i32::MAX,
            frame_height <= i32::MAX,
            frame_width * frame_height * 4 <= i32::MAX,
            sprite_w <= i32::MAX + 1,
            sprite_h <= i32::MAX + 1,
            dest_x + sprite_w <= i32::MAX + 1,
            dest_y + sprite_h <= i32::MAX + 1,
            sprite_source_ok(frame_width, frame_height, dest_x, dest_y, spr.len() as int, sprite_w, sprite_h),
            spr == sprite_pixels@,
            row <= sprite_h,
            sprite_progress(
                old_frame,
                frame@,
                frame_width,
                frame_height,
                dest_x,
                dest_y,
                spr,
                sprite_w,
                sprite_h,
                row as int,
                0,
            ),
        decreases sprite_h - row,
    {
        let mut col: u32 = 0;
        while col < sprite_w
            invariant
                frame_width <= i32::MAX,
                frame_height <= i32::MAX,
                frame_width * frame_height * 4 <= i32::MAX,
                sprite_w <= i32::MAX + 1,
                sprite_h <= i32::MAX + 1,
                dest_x + sprite_w <= i32::MAX + 1,
                dest_y + sprite_h <= i32::MAX + 1,
                sprite_source_ok(frame_width, frame_height, dest_x, dest_y, spr.len() as int, sprite_w, sprite_h),
                spr == sprite_pixels@,
                row < sprite_h,
                col <= sprite_w,
                sprite_progress(
                    old_frame,
                    frame@,
                    frame_width,
                    frame_height,
                    dest_x,
                    dest_y,
                    spr,
                    sprite_w,
                    sprite_h,
                    row as int,
                    col as int,
                ),
            decreases sprite_w - col,
        {
            let ghost cur = frame@;
            let tx = dest_x + col as i32;
            let ty = dest_y + row as i32;
            if tx < 0 || tx >= frame_width as i32 || ty < 0 || ty >= frame_height as i32 {
                proof {
                    lemma_sprite_skip(old_frame, cur, frame_width, frame_height, dest_x, dest_y, spr, sprite_w, sprite_h, row as int, col as int);
                }
                col = col + 1;
                continue;
            }
            proof {
                assert(source_offset(row as int, col as int, sprite_w as int) + 4 <= spr.len());
            }
            let src_idx = ((row * sprite_w + col) * 4) as usize;
            let src_alpha = sprite_pixels[src_idx + 3];
            if src_alpha == 0 {
                proof {
                    lemma_sprite_skip(old_frame, cur, frame_width, frame_height, dest_x, dest_y, spr, sprite_w, sprite_h, row as int, col as int);
                }
                col = col + 1;
                continue;
            }
            proof {
                assert(ty * frame_width + tx < frame_width * frame_height) by (nonlinear_arith)
                    requires
                        0 <= tx < frame_width,
                        0 <= ty < frame_height,
                ;
                assert(0 <= ty * frame_width + tx) by (nonlinear_arith)
                    requires
                        0 <= tx,
                        0 <= ty,
                        frame_width >= 0,
                ;
            }
            let dst_idx = ((ty * frame_width as i32 + tx) * 4) as usize;
            if dst_idx + 4 > frame.len() {
                proof {
                    lemma_sprite_skip(old_frame, cur, frame_width, frame_height, dest_x, dest_y, spr, sprite_w, sprite_h, row as int, col as int);
                }
                col = col + 1;
                continue;
            }
            if src_alpha == 255 {
                frame[dst_idx] = sprite_pixels[src_idx];
                frame[dst_idx + 1] = sprite_pixels[src_idx + 1];
                frame[dst_idx + 2] = sprite_pixels[src_idx + 2];
                frame[dst_idx + 3] = sprite_pixels[src_idx + 3];
            } else {
                let alpha = src_alpha as u32;
                let mut i: usize = 0;
                while i < 3
                    invariant
                        i <= 3,
                        frame@.len() == cur.len(),
                        dst_idx + 4 <= cur.len(),
                        src_idx + 4 <= sprite_pixels@.len(),
                        alpha == src_alpha,
                        sprite_pixels@.len() <= usize::MAX,
                        cur.len() <= usize::MAX,
                        forall|j: int| 0 <= j < cur.len() && !(dst_idx <= j < dst_idx + i) ==> #[trigger] frame@[j] == cur[j],
                        forall|j: int|
                            0 <= j < i ==> #[trigger] frame@[dst_idx + j] == blend(
                                sprite_pixels@[src_idx + j],
                                cur[dst_idx + j],
                                src_alpha,
                            ),
                    decreases 3 - i,
                {
                    let src = sprite_pixels[src_idx + i] as u32;
                    let dst = frame[dst_idx + i] as u32;
                    proof {
                        lemma_blend(src, dst, alpha);
                    }
                    frame[dst_idx + i] = ((src * alpha + dst * (255 - alpha)) >> 8) as u8;
                    i = i + 1;
                }
                frame[dst_idx + 3] = 255;
            }
            proof {
                let di = dst_idx as int;
                let si = src_idx as int;
                assert(di == 4 * (ty * frame_width + tx));
                assert(si == source_offset(row as int, col as int, sprite_w as int));
                assert forall|i: int| 0 <= i < 4 implies #[trigger] frame@[di + i] == written_byte(
                    cur,
                    spr,
                    si,
                    di,
                    src_alpha,
                    i,
                ) by {}
                lemma_sprite_write(old_frame, cur, frame@, frame_width, frame_height, dest_x, dest_y, spr, sprite_w, sprite_h, row as int, col as int, tx as int, ty as int);
            }
            col = col + 1;
        }
        proof {
            assert forall|k: int| 0 <= k < old_frame.len() implies sprite_done(frame_width, dest_x, dest_y, row + 1, 0, k)
                == (sprite_done(frame_width, dest_x, dest_y, row as int, sprite_w as int, k) || (frame_width > 0 && (k / 4) / (frame_width as int) - dest_y == row && (k / 4) % (frame_width as int) - dest_x >= sprite_w) || (frame_width > 0 && (k / 4) / (frame_width as int) - dest_y == row + 1 && (k / 4) % (frame_width as int) - dest_x < 0)) by {}
            assert forall|k: int| 0 <= k < old_frame.len() implies #[trigger] frame@[k] == (if sprite_done(frame_width, dest_x, dest_y, row + 1, 0, k) {
                sprite_byte(old_frame, frame_width, frame_height, dest_x, dest_y, spr, sprite_w, sprite_h, k)
            } else {
                old_frame[k]
            }) by {}
        }
        row = row + 1;
    }
    proof {
        assert forall|k: int| 0 <= k < old_frame.len() implies #[trigger] frame@[k] == sprite_byte(
            old_frame, frame_width, frame_height, dest_x, dest_y, spr, sprite_w, sprite_h, k) by {}
    }
}

/// Whether (`tx`, `ty`) lies in the `rw` by `rh` rectangle whose top-left
/// corner is (`x`, `y`).
pub open spec fn in_rect(x: int, y: int, rw: int, rh: int, tx: int, ty: int) -> bool {
    x <= tx < x + rw && y <= ty < y + rh
}

/// Fills the `rw` by `rh` rectangle whose top-left corner is (`x`, `y`)
/// with `color`, clipped to the frame; the corner may lie outside it.
pub fn draw_rect(frame: &mut [u8], width: u32, height: u32, x: i32, y: i32, rw: u32, rh: u32, color: [u8; 4])
    requires
        frame_fits(width, height),
    ensures
        painted(
            old(frame)@,
            final(frame)@,
            width,
            height,
            color@,
            |tx: int, ty: int| in_rect(x as int, y as int, rw as int, rh as int, tx, ty),
        ),
{
    let ghost old_frame = frame@;
    let x0: i64 = if x < 0 { 0 } else { x as i64 };
    let y0: i64 = if y < 0 { 0 } else { y as i64 };
    let x_end: i64 = if x as i64 + rw as i64 > width as i64 { width as i64 } else { x as i64 + rw as i64 };
    let y_end: i64 = if y as i64 + rh as i64 > height as i64 { height as i64 } else { y as i64 + rh as i64 };
    let mut py: i64 = y0;
    proof {
        let none = |tx: int, ty: int| in_rect(x as int, y as int, rw as int, rh as int, tx, ty) && ty < y0;
        assert forall|k: int| 0 <= k < old_frame.len() implies !#[trigger] byte_lit(old_frame.len() as int, width, height, none, k) by {
            if width > 0 && 0 <= k {
                vstd::arithmetic::div_mod::lemma_mod_bound(k / 4, width as int);
                vstd::arithmetic::div_mod::lemma_div_pos_is_pos(k / 4, width as int);
            }
        }
    }
    while py < y_end
        invariant
            frame_fits(width, height),
            0 <= x0,
            0 <= y0 <= py,
            x0 == (if x < 0 { 0 } else { x as int }),
            y0 == (if y < 0 { 0 } else { y as int }),
            x_end == (if x + rw > width { width as int } else { x + rw }),
            y_end == (if y + rh > height { height as int } else { y + rh }),
            py <= y_end || y_end < y0,
            painted(old_frame, frame@, width, height, color@, |tx: int, ty: int| in_rect(x as int, y as int, rw as int, rh as int, tx, ty) && ty < py),
        decreases y_end - py,
    {
        let mut px: i64 = x0;
        proof {
            if x_end < x0 {
                assert(true);
            }
        }
        while px < x_end
            invariant
                frame_fits(width, height),
                0 <= x0 <= px,
                0 <= y0 <= py < y_end,
                x0 == (if x < 0 { 0 } else { x as int }),
                x_end == (if x + rw > width { width as int } else { x + rw }),
                y_end == (if y + rh > height { height as int } else { y + rh }),
                y0 == (if y < 0 { 0 } else { y as int }),
                painted(
                    old_frame,
                    frame@,
                    width,
                    height,
                    color@,
                    |tx: int, ty: int| (in_rect(x as int, y as int, rw as int, rh as int, tx, ty) && ty < py) || (ty == py && x0 <= tx < px && in_rect(x as int, y as int, rw as int, rh as int, tx, ty)),
                ),
            decreases x_end - px,
        {
            let ghost before = |tx: int, ty: int| (in_rect(x as int, y as int, rw as int, rh as int, tx, ty) && ty < py) || (ty == py && x0 <= tx < px && in_rect(x as int, y as int, rw as int, rh as int, tx, ty));
            let ghost after = |tx: int, ty: int| (in_rect(x as int, y as int, rw as int, rh as int, tx, ty) && ty < py) || (ty == py && x0 <= tx < px + 1 && in_rect(x as int, y as int, rw as int, rh as int, tx, ty));
            let ghost cur = frame@;
            proof {
                assert(in_rect(x as int, y as int, rw as int, rh as int, px as int, py as int));
                assert forall|a: int, b: int| #[trigger] after(a, b) == (before(a, b) || (a == px && b == py)) by {}
                lemma_offset_fits(width, height, px as u32, py as u32);
                lemma_paint_pixel(old_frame, cur, width, height, color@, before, after, px as u32, py as u32);
            }
            set_pixel(frame, width, px as u32, py as u32, color);
            px = px + 1;
        }
        proof {
            let done_row = |tx: int, ty: int| (in_rect(x as int, y as int, rw as int, rh as int, tx, ty) && ty < py) || (ty == py && x0 <= tx < px && in_rect(x as int, y as int, rw as int, rh as int, tx, ty));
            let next = |tx: int, ty: int| in_rect(x as int, y as int, rw as int, rh as int, tx, ty) && ty < py + 1;
            assert forall|k: int| 0 <= k < old_frame.len() implies #[trigger] byte_lit(old_frame.len() as int, width, height, next, k)
                == byte_lit(old_frame.len() as int, width, height, done_row, k) by {
                if width > 0 && 0 <= k {
                    vstd::arithmetic::div_mod::lemma_mod_bound(k / 4, width as int);
                    let tx = (k / 4) % (width as int);
                    let ty = (k / 4) / (width as int);
                    if ty == py && in_rect(x as int, y as int, rw as int, rh as int, tx, ty) {
                        assert(x0 <= tx);
                        assert(tx < x_end);
                        assert(tx < px);
                    }
                }
            }
            assert(painted(old_frame, frame@, width, height, color@, next));
        }
        py = py + 1;
    }
    proof {
        let done = |tx: int, ty: int| in_rect(x as int, y as int, rw as int, rh as int, tx, ty) && ty < py;
        let full = |tx: int, ty: int| in_rect(x as int, y as int, rw as int, rh as int, tx, ty);
        assert forall|k: int| 0 <= k < old_frame.len() implies #[trigger] byte_lit(old_frame.len() as int, width, height, full, k)
            == byte_lit(old_frame.len() as int, width, height, done, k) by {
            if width > 0 && 0 <= k {
                vstd::arithmetic::div_mod::lemma_div_pos_is_pos(k / 4, width as int);
            }
        }
    }
}

/// The border of thickness `t` around the inside of the `rw` by `rh`
/// rectangle at (`x`, `y`): its top, bottom, left and right strips.
pub open spec fn in_outline(x: int, y: int, rw: int, rh: int, t: int, tx: int, ty: int) -> bool {
    ||| in_rect(x, y, rw, t, tx, ty)
    ||| in_rect(x, y + rh - t, rw, t, tx, ty)
    ||| in_rect(x, y, t, rh, tx, ty)
    ||| in_rect(x + rw - t, y, t, rh, tx, ty)
}

/// Draws the border of thickness `t` of the `rw` by `rh` rectangle at
/// (`x`, `y`) in `color`, clipped to the frame (see `in_outline`).
pub fn draw_rect_outline(
    frame: &mut [u8],
    width: u32,
    height: u32,
    x: i32,
    y: i32,
    rw: u32,
    rh: u32,
    t: u32,
    color: [u8; 4],
)
    requires
        frame_fits(width, height),
        rw <= i32::MAX,
        rh <= i32::MAX,
        t <= i32::MAX,
        i32::MIN <= x + rw - t <= i32::MAX,
        i32::MIN <= y + rh - t <= i32::MAX,
        x + rw <= i32::MAX,
        y + rh <= i32::MAX,
    ensures
        painted(
            old(frame)@,
            final(frame)@,
            width,
            height,
            color@,
            |tx: int, ty: int| in_outline(x as int, y as int, rw as int, rh as int, t as int, tx, ty),
        ),
{
    let ghost f0 = frame@;
    let bottom = y + rh as i32 - t as i32;
    let right = x + rw as i32 - t as i32;
    draw_rect(frame, width, height, x, y, rw, t, color);
    let ghost f1 = frame@;
    draw_rect(frame, width, height, x, bottom, rw, t, color);
    let ghost f2 = frame@;
    draw_rect(frame, width, height, x, y, t, rh, color);
    let ghost f3 = frame@;
    draw_rect(frame, width, height, right, y, t, rh, color);
    proof {
        let a = |tx: int, ty: int| in_rect(x as int, y as int, rw as int, t as int, tx, ty);
        let b = |tx: int, ty: int| in_rect(x as int, bottom as int, rw as int, t as int, tx, ty);
        let c = |tx: int, ty: int| in_rect(x as int, y as int, t as int, rh as int, tx, ty);
        let d = |tx: int, ty: int| in_rect(right as int, y as int, t as int, rh as int, tx, ty);
        let ab = |tx: int, ty: int| a(tx, ty) || b(tx, ty);
        let abc = |tx: int, ty: int| ab(tx, ty) || c(tx, ty);
        let all = |tx: int, ty: int| in_outline(x as int, y as int, rw as int, rh as int, t as int, tx, ty);
        lemma_paint_compose(f0, f1, f2, width, height, color@, a, b, ab);
        lemma_paint_compose(f0, f2, f3, width, height, color@, ab, c, abc);
        lemma_paint_compose(f0, f3, frame@, width, height, color@, abc, d, all);
    }
}

} // verus!
