use vstd::prelude::*;
use vstd::string::*;
use crate::text::{push_char, push_decimal, decimal, parse_u32, lemma_parse_decimal};
use crate::leaderboard::TABLE_SIZE;
use crate::drawing::{
    draw_text, draw_text_centered, frame_fits, paint, text_region, centered_x, centered_y, lemma_painted_is_paint,
    draw_rect, draw_rect_outline, in_rect, in_outline,
};
pub use crate::drawing::{
    COLOR_GRAY_DARK, COLOR_GRAY_LIGHT, COLOR_HEALTH_GREEN, COLOR_HEAT_ORANGE, COLOR_OVERHEAT_RED, COLOR_RED,
    COLOR_SCORE_GOLD, COLOR_WHITE,
};

verus! {

/// The start screen: the title in gold, centred at dot size 8, and the
/// prompt to press space in white at dot size 2, starting 150 pixels left of
/// the middle and 100 below it.
pub open spec fn start_menu_frame(frame: Seq<u8>, w: u32, h: u32) -> Seq<u8> {
    let title = "SPACE GAME"@;
    let f1 = paint(frame, w, h, COLOR_SCORE_GOLD@, text_region(title, centered_x(w, 10, 8), centered_y(h, 8), 8));
    paint(f1, w, h, COLOR_WHITE@, text_region("PRESS SPACE TO START"@, w / 2 - 150, h / 2 + 100, 2))
}

/// Draws the start screen's overlay (see `start_menu_frame`).
pub fn draw_start_menu(frame: &mut [u8], w: u32, h: u32)
    requires
        frame_fits(w, h),
        w >= 300,
    ensures
        final(frame)@ == start_menu_frame(old(frame)@, w, h),
{
    proof {
        reveal_strlit("SPACE GAME");
        reveal_strlit("PRESS SPACE TO START");
        vstd::string::is_ascii_spec_bytes("SPACE GAME");
        assert(w * h * 4 <= u32::MAX);
        assert(h <= 0x4000_0000) by (nonlinear_arith)
            requires
                w >= 300,
                w * h * 4 <= u32::MAX,
        ;
    }
    let ghost f0 = frame@;
    draw_text_centered(frame, w, h, "SPACE GAME", 8, COLOR_SCORE_GOLD);
    let ghost f1 = frame@;
    draw_text(frame, w, h, (w / 2) - 150, (h / 2) + 100, "PRESS SPACE TO START", 2, COLOR_WHITE);
    proof {
        lemma_painted_is_paint(
            f0,
            f1,
            w,
            h,
            COLOR_SCORE_GOLD@,
            text_region("SPACE GAME"@, centered_x(w, 10, 8), centered_y(h, 8), 8),
        );
    }
}

/// The name-entry screen: "NEW RECORD!" in gold, centred at dot size 6;
/// the name followed by an underscore in white at dot size 8, starting 60
/// pixels left of the middle, two thirds of the way down; and the
/// instructions in white at dot size 2, 180 pixels left of the middle and
/// 100 pixels lower.
pub open spec fn name_entry_frame(frame: Seq<u8>, w: u32, h: u32, name: Seq<char>) -> Seq<u8> {
    let f1 = paint(frame, w, h, COLOR_SCORE_GOLD@, text_region("NEW RECORD!"@, centered_x(w, 11, 6), centered_y(h, 6), 6));
    let f2 = paint(f1, w, h, COLOR_WHITE@, text_region(name.push('_'), w / 2 - 60, h / 3 * 2, 8));
    paint(f2, w, h, COLOR_WHITE@, text_region("TYPE 3 LETTERS & PRESS ENTER"@, w / 2 - 180, h / 3 * 2 + 100, 2))
}

/// Draws the overlay that asks for the player's name (see
/// `name_entry_frame`).
pub fn draw_name_entry_overlay(frame: &mut [u8], w: u32, h: u32, name: &str)
    requires
        frame_fits(w, h),
        w >= 360,
        w / 2 - 60 + (name@.len() + 1) * 72 <= u32::MAX + 1,
    ensures
        final(frame)@ == name_entry_frame(old(frame)@, w, h, name@),
{
    proof {
        reveal_strlit("NEW RECORD!");
        reveal_strlit("TYPE 3 LETTERS & PRESS ENTER");
        vstd::string::is_ascii_spec_bytes("NEW RECORD!");
        assert(h <= 0x4000_0000) by (nonlinear_arith)
            requires
                w >= 360,
                w * h * 4 <= u32::MAX,
        ;
    }
    let ghost f0 = frame@;
    draw_text_centered(frame, w, h, "NEW RECORD!", 6, COLOR_SCORE_GOLD);
    let ghost f1 = frame@;
    let mut display = String::from_str(name);
    push_char(&mut display, '_');
    draw_text(frame, w, h, (w / 2) - 60, (h / 3 * 2) as u32, display.as_str(), 8, COLOR_WHITE);
    let ghost f2 = frame@;
    draw_text(frame, w, h, (w / 2) - 180, (h / 3 * 2) as u32 + 100, "TYPE 3 LETTERS & PRESS ENTER", 2, COLOR_WHITE);
    proof {
        lemma_painted_is_paint(
            f0,
            f1,
            w,
            h,
            COLOR_SCORE_GOLD@,
            text_region("NEW RECORD!"@, centered_x(w, 11, 6), centered_y(h, 6), 6),
        );
        lemma_painted_is_paint(f1, f2, w, h, COLOR_WHITE@, text_region(name@.push('_'), w / 2 - 60, h / 3 * 2, 8));
    }
}

/// `d` right-aligned in a field six characters wide: spaces in front when it
/// is shorter, as the `{:>6}` format gives.
pub open spec fn pad6(d: Seq<char>) -> Seq<char> {
    if d.len() < 6 {
        Seq::new((6 - d.len()) as nat, |i: int| ' ') + d
    } else {
        d
    }
}

/// The line for the entry ranked `rank` (from 1): `#`, the rank, a space,
/// the name, ` .... `, and the score right-aligned in six characters.
pub open spec fn score_line(rank: nat, name: Seq<char>, score: u32) -> Seq<char> {
    seq!['#'] + decimal(rank) + seq![' '] + name + " .... "@ + pad6(decimal(score as nat))
}

/// Formats the line for an entry (see `score_line`).
fn format_score_line(rank: usize, name: &str, score: u32) -> (r: String)
    ensures
        r@ == score_line(rank as nat, name@, score),
{
    proof {
        reveal_strlit(" .... ");
    }
    let mut line = String::new();
    push_char(&mut line, '#');
    push_decimal(&mut line, rank as u64);
    push_char(&mut line, ' ');
    line.append(name);
    line.append(" .... ");
    let mut digits = String::new();
    push_decimal(&mut digits, score as u64);
    let n = digits.as_str().unicode_len();
    let mut pad = n;
    let ghost before = line@;
    while pad < 6
        invariant
            n == decimal(score as nat).len(),
            n <= pad,
            n < 6 ==> pad <= 6,
            n >= 6 ==> pad == n,
            line@ == before + Seq::new((pad - n) as nat, |i: int| ' '),
        decreases 6 - pad,
    {
        push_char(&mut line, ' ');
        pad = pad + 1;
        assert(line@ =~= before + Seq::new((pad - n) as nat, |i: int| ' '));
    }
    line.append(digits.as_str());
    assert(line@ =~= score_line(rank as nat, name@, score)) by {
        if n < 6 {
            assert(pad == 6);
        } else {
            assert(pad == n);
            assert(Seq::new((pad - n) as nat, |i: int| ' ') =~= Seq::<char>::empty());
        }
    }
    line
}

/// The colour of the entry ranked `i` (from 0): gold for the best, white
/// for the others.
pub open spec fn rank_color(i: int) -> Seq<u8> {
    if i == 0 {
        COLOR_SCORE_GOLD@
    } else {
        COLOR_WHITE@
    }
}

/// `frame` with the first `n` entries of `scores` drawn: entry `i` at dot
/// size 2, starting 130 pixels left of the middle, `35 * i` pixels below
/// row `y0`.
pub open spec fn score_lines_frame(frame: Seq<u8>, w: u32, h: u32, y0: int, scores: Seq<(String, u32)>, n: int) -> Seq<u8>
    decreases n,
{
    if n <= 0 {
        frame
    } else {
        let f = score_lines_frame(frame, w, h, y0, scores, n - 1);
        let i = n - 1;
        paint(f, w, h, rank_color(i), text_region(score_line((i + 1) as nat, scores[i].0@, scores[i].1), w / 2 - 130, y0 + 35 * i, 2))
    }
}

/// How many entries of a table of `n` the game-over screen shows: the top
/// five, or all of them when there are fewer.
pub open spec fn top_rows(n: int) -> int {
    if n < TABLE_SIZE {
        n
    } else {
        TABLE_SIZE as int
    }
}

/// The game-over screen: "GAMEOVER" in red, centred at dot size 10; the
/// heading of the table in gold 100 pixels left of the middle, 40 pixels
/// above two thirds of the height; the top five entries below it (see
/// `score_lines_frame` and `top_rows`), from two thirds of the height, the
/// entries after the fifth not drawn; and the prompt to restart in white,
/// 130 pixels left of the middle and 80 above the bottom.
pub open spec fn game_over_frame(frame: Seq<u8>, w: u32, h: u32, scores: Seq<(String, u32)>) -> Seq<u8> {
    let f1 = paint(frame, w, h, COLOR_RED@, text_region("GAMEOVER"@, centered_x(w, 8, 10), centered_y(h, 10), 10));
    let f2 = paint(f1, w, h, COLOR_SCORE_GOLD@, text_region("--- TOP 5 ---"@, w / 2 - 100, h / 3 * 2 - 40, 2));
    let f3 = score_lines_frame(f2, w, h, h / 3 * 2, scores, top_rows(scores.len() as int));
    paint(f3, w, h, COLOR_WHITE@, text_region("PRESS R TO RESTART"@, w / 2 - 130, h - 80, 2))
}

/// Whether the line of every entry shown (the top five) fits 32-bit
/// coordinates when drawn.
pub open spec fn score_lines_fit(w: u32, scores: Seq<(String, u32)>) -> bool {
    forall|i: int|
        0 <= i < top_rows(scores.len() as int) ==> w / 2 - 130 + (#[trigger] score_line((i + 1) as nat, scores[i].0@, scores[i].1)).len()
            * 18 <= u32::MAX + 1
}

/// Draws the game-over overlay with the top five of the high-score table
/// (see `game_over_frame`).
pub fn draw_game_over_overlay(frame: &mut [u8], w: u32, h: u32, scores: &[(String, u32)])
    requires
        frame_fits(w, h),
        w >= 260,
        h >= 80,
        score_lines_fit(w, scores@),
    ensures
        final(frame)@ == game_over_frame(old(frame)@, w, h, scores@),
{
    proof {
        reveal_strlit("GAMEOVER");
        reveal_strlit("--- TOP 5 ---");
        reveal_strlit("PRESS R TO RESTART");
        vstd::string::is_ascii_spec_bytes("GAMEOVER");
        assert(h <= 0x4000_0000) by (nonlinear_arith)
            requires
                w >= 260,
                w * h * 4 <= u32::MAX,
        ;
    }
    let ghost f0 = frame@;
    draw_text_centered(frame, w, h, "GAMEOVER", 10, COLOR_RED);
    let ghost f1 = frame@;
    let list_start_y = (h as i32 / 3 * 2) - 40;
    draw_text(frame, w, h, (w / 2) - 100, list_start_y as u32, "--- TOP 5 ---", 2, COLOR_SCORE_GOLD);
    let ghost f2 = frame@;
    proof {
        lemma_painted_is_paint(
            f0,
            f1,
            w,
            h,
            COLOR_RED@,
            text_region("GAMEOVER"@, centered_x(w, 8, 10), centered_y(h, 10), 10),
        );
        lemma_painted_is_paint(f1, f2, w, h, COLOR_SCORE_GOLD@, text_region("--- TOP 5 ---"@, w / 2 - 100, h / 3 * 2 - 40, 2));
    }
    let n = if scores.len() < TABLE_SIZE {
        scores.len()
    } else {
        TABLE_SIZE
    };
    let mut i: usize = 0;
    while i < n
        invariant
            frame_fits(w, h),
            w >= 260,
            h >= 80,
            h <= 0x4000_0000,
            n == top_rows(scores@.len() as int),
            n <= scores@.len(),
            score_lines_fit(w, scores@),
            list_start_y == h / 3 * 2 - 40,
            i <= n,
            frame@ == score_lines_frame(f2, w, h, h / 3 * 2, scores@, i as int),
        decreases n - i,
    {
        let y_pos = (list_start_y + 40) + (i as i32 * 35);
        let color = if i == 0 {
            COLOR_SCORE_GOLD
        } else {
            COLOR_WHITE
        };
        let entry = format_score_line(i + 1, scores[i].0.as_str(), scores[i].1);
        assert(entry@ == score_line((i + 1) as nat, scores@[i as int].0@, scores@[i as int].1));
        let ghost before = frame@;
        draw_text(frame, w, h, (w / 2) - 130, y_pos as u32, entry.as_str(), 2, color);
        proof {
            lemma_painted_is_paint(
                before,
                frame@,
                w,
                h,
                rank_color(i as int),
                text_region(entry@, w / 2 - 130, h / 3 * 2 + 35 * i, 2),
            );
        }
        i = i + 1;
    }
    let ghost f3 = frame@;
    draw_text(frame, w, h, (w / 2) - 130, h - 80, "PRESS R TO RESTART", 2, COLOR_WHITE);
}

/// The width of the heat bar.
pub const HEAT_BAR_W: u32 = 300;
/// The height of the heat bar.
pub const HEAT_BAR_H: u32 = 30;

/// `d / 2` rounded toward zero, as Rust's integer division rounds.
pub open spec fn half_toward_zero(d: int) -> int {
    if d >= 0 {
        d / 2
    } else {
        -((-d) / 2)
    }
}

/// The colour of the heat bar's fill: red when the gun is overheated,
/// orange when it is warm, green otherwise.
pub open spec fn heat_color(warm: bool, is_overheated: bool) -> Seq<u8> {
    if is_overheated {
        COLOR_OVERHEAT_RED@
    } else if warm {
        COLOR_HEAT_ORANGE@
    } else {
        COLOR_HEALTH_GREEN@
    }
}

/// The playing screen's heads-up display without its score: the heat bar
/// (300 by 30, centred, 20 pixels from the top) with a 4-pixel outline (red
/// when overheated, light grey otherwise), its dark background, its fill of
/// `fill_w` pixels (see `heat_color`), and the label "HEAT" under it.
pub open spec fn hud_bar_frame(frame: Seq<u8>, width: u32, height: u32, fill_w: u32, warm: bool, is_overheated: bool) -> Seq<u8> {
    let x = half_toward_zero(width - HEAT_BAR_W);
    let y = 20int;
    let outline = if is_overheated {
        COLOR_OVERHEAT_RED@
    } else {
        COLOR_GRAY_LIGHT@
    };
    let f1 = paint(frame, width, height, outline, |tx: int, ty: int| in_outline(x - 4, y - 4, HEAT_BAR_W + 8, HEAT_BAR_H + 8, 4, tx, ty));
    let f2 = paint(f1, width, height, COLOR_GRAY_DARK@, |tx: int, ty: int| in_rect(x, y, HEAT_BAR_W as int, HEAT_BAR_H as int, tx, ty));
    let f3 = paint(f2, width, height, heat_color(warm, is_overheated), |tx: int, ty: int| in_rect(x, y, fill_w as int, HEAT_BAR_H as int, tx, ty));
    paint(f3, width, height, COLOR_WHITE@, text_region("HEAT"@, width / 2 - 35, y + HEAT_BAR_H + 10, 2))
}

/// The playing screen's heads-up display: the heat bar (see
/// `hud_bar_frame`) and the score at the top left, in white at dot size 3.
pub open spec fn hud_frame(frame: Seq<u8>, width: u32, height: u32, fill_w: u32, warm: bool, is_overheated: bool, score: u32) -> Seq<u8> {
    paint(
        hud_bar_frame(frame, width, height, fill_w, warm, is_overheated),
        width,
        height,
        COLOR_WHITE@,
        text_region("SCORE: "@ + decimal(score as nat), 20, 20, 3),
    )
}

/// The heads-up display shows the score itself: over the heat bar it
/// paints, at (20, 20), a label that reads "SCORE: " followed by digits
/// that parse back to the score, for every score.
pub proof fn lemma_hud_shows_score(
    frame: Seq<u8>,
    width: u32,
    height: u32,
    fill_w: u32,
    warm: bool,
    is_overheated: bool,
    score: u32,
)
    ensures
        exists|label: Seq<char>|
            #![trigger text_region(label, 20, 20, 3)]
            label.take(7) == "SCORE: "@ && parse_u32(label.skip(7)) == Some(score) && hud_frame(
                frame,
                width,
                height,
                fill_w,
                warm,
                is_overheated,
                score,
            ) == paint(
                hud_bar_frame(frame, width, height, fill_w, warm, is_overheated),
                width,
                height,
                COLOR_WHITE@,
                text_region(label, 20, 20, 3),
            ),
{
    reveal_strlit("SCORE: ");
    let label = "SCORE: "@ + decimal(score as nat);
    assert(label.take(7) =~= "SCORE: "@);
    assert(label.skip(7) =~= decimal(score as nat));
    lemma_parse_decimal(score);
    assert(text_region(label, 20, 20, 3) == text_region(label, 20, 20, 3));
}

/// Draws the heads-up display (see `hud_frame`). `fill_w` is the width of
/// the heat bar's filled part and `warm` whether the gun is more than half
/// hot.
pub fn draw_hud(frame: &mut [u8], width: u32, height: u32, fill_w: u32, warm: bool, is_overheated: bool, score: u32)
    requires
        frame_fits(width, height),
        70 <= width <= i32::MAX,
        fill_w <= i32::MAX,
    ensures
        final(frame)@ == hud_frame(old(frame)@, width, height, fill_w, warm, is_overheated, score),
{
    let bar_w = HEAT_BAR_W;
    let bar_h = HEAT_BAR_H;
    let x = (width as i32 - bar_w as i32) / 2;
    let y: i32 = 20;
    let ghost gx = half_toward_zero(width - HEAT_BAR_W);
    assert(x == gx);
    let outline_color = if is_overheated {
        COLOR_OVERHEAT_RED
    } else {
        COLOR_GRAY_LIGHT
    };
    let ghost f0 = frame@;
    draw_rect_outline(frame, width, height, x - 4, y - 4, bar_w + 8, bar_h + 8, 4, outline_color);
    let ghost f1 = frame@;
    draw_rect(frame, width, height, x, y, bar_w, bar_h, COLOR_GRAY_DARK);
    let ghost f2 = frame@;
    let fill_color = if is_overheated {
        COLOR_OVERHEAT_RED
    } else if warm {
        COLOR_HEAT_ORANGE
    } else {
        COLOR_HEALTH_GREEN
    };
    draw_rect(frame, width, height, x, y, fill_w, bar_h, fill_color);
    let ghost f3 = frame@;
    proof {
        reveal_strlit("HEAT");
        reveal_strlit("SCORE: ");
    }
    draw_text(frame, width, height, (width / 2) - 35, (y + bar_h as i32 + 10) as u32, "HEAT", 2, COLOR_WHITE);
    let ghost f4 = frame@;
    let mut label = String::from_str("SCORE: ");
    push_decimal(&mut label, score as u64);
    proof {
        crate::text::lemma_decimal_digits(score as nat);
        assert(decimal(score as nat).len() <= 10) by {
            lemma_decimal_len(score as nat);
        }
        reveal_strlit("SCORE: ");
        assert("SCORE: "@.len() == 7);
        assert(label@.len() <= 17);
        assert(crate::drawing::text_fits(20, 20, label@.len() as int, 3)) by (nonlinear_arith)
            requires
                label@.len() <= 17,
        ;
    }
    draw_text(frame, width, height, 20, 20, label.as_str(), 3, COLOR_WHITE);
    proof {
        lemma_painted_is_paint(f0, f1, width, height, outline_color@,
            |tx: int, ty: int| in_outline(gx - 4, 16, HEAT_BAR_W + 8, HEAT_BAR_H + 8, 4, tx, ty));
        lemma_painted_is_paint(f1, f2, width, height, COLOR_GRAY_DARK@,
            |tx: int, ty: int| in_rect(gx, 20, HEAT_BAR_W as int, HEAT_BAR_H as int, tx, ty));
        lemma_painted_is_paint(f2, f3, width, height, fill_color@,
            |tx: int, ty: int| in_rect(gx, 20, fill_w as int, HEAT_BAR_H as int, tx, ty));
        lemma_painted_is_paint(f3, f4, width, height, COLOR_WHITE@, text_region("HEAT"@, width / 2 - 35, 60, 2));
    }
}

/// The decimal representation of a 32-bit value has at most ten digits.
proof fn lemma_decimal_len(n: nat)
    requires
        n <= u32::MAX,
    ensures
        decimal(n).len() <= 10,
{
    reveal_with_fuel(pow10, 11);
    lemma_decimal_len_below(n, 10, 10000000000);
}

proof fn lemma_decimal_len_below(n: nat, k: nat, bound: nat)
    requires
        n < bound,
        bound == pow10(k),
        k >= 1,
    ensures
        decimal(n).len() <= k,
    decreases k,
{
    if n >= 10 {
        assert(k >= 2) by {
            if k < 2 {
                assert(pow10(0) == 1);
                assert(pow10(1) == 10);
            }
        }
        assert(n / 10 < pow10((k - 1) as nat)) by {
            assert(pow10(k) == 10 * pow10((k - 1) as nat));
            crate::drawing::lemma_div_below(n as int, 10, pow10((k - 1) as nat) as int);
        }
        lemma_decimal_len_below(n / 10, (k - 1) as nat, pow10((k - 1) as nat));
        assert(decimal(n).len() == decimal(n / 10).len() + 1);
    }
}

/// Ten to the power `k`.
pub open spec fn pow10(k: nat) -> nat
    decreases k,
{
    if k == 0 {
        1
    } else {
        10 * pow10((k - 1) as nat)
    }
}

} // verus!
