//! The 5x7 digit bitmap font of the identify overlay, and painting a
//! number into an ARGB canvas.

use vstd::arithmetic::div_mod::{
    lemma_fundamental_div_mod, lemma_fundamental_div_mod_converse, lemma_mod_pos_bound,
};
use vstd::prelude::*;

use crate::text::{decimal, lemma_decimal, lemma_decimal_len_bound, pow10, push_decimal};

verus! {

pub const GLYPH_W: u32 = 5;

pub const GLYPH_H: u32 = 7;

/// The rows of digit `d` (0 to 9), top to bottom; bit 4 is the leftmost
/// column.
pub open spec fn glyph(d: int) -> Seq<u8> {
    if d == 0 {
        seq![0b01110u8, 0b10001, 0b10011, 0b10101, 0b11001, 0b10001, 0b01110]
    } else if d == 1 {
        seq![0b00100u8, 0b01100, 0b00100, 0b00100, 0b00100, 0b00100, 0b01110]
    } else if d == 2 {
        seq![0b01110u8, 0b10001, 0b00001, 0b00010, 0b00100, 0b01000, 0b11111]
    } else if d == 3 {
        seq![0b11111u8, 0b00010, 0b00100, 0b00010, 0b00001, 0b10001, 0b01110]
    } else if d == 4 {
        seq![0b00010u8, 0b00110, 0b01010, 0b10010, 0b11111, 0b00010, 0b00010]
    } else if d == 5 {
        seq![0b11111u8, 0b10000, 0b11110, 0b00001, 0b00001, 0b10001, 0b01110]
    } else if d == 6 {
        seq![0b00110u8, 0b01000, 0b10000, 0b11110, 0b10001, 0b10001, 0b01110]
    } else if d == 7 {
        seq![0b11111u8, 0b00001, 0b00010, 0b00100, 0b01000, 0b01000, 0b01000]
    } else if d == 8 {
        seq![0b01110u8, 0b10001, 0b10001, 0b01110, 0b10001, 0b10001, 0b01110]
    } else {
        seq![0b01110u8, 0b10001, 0b10001, 0b01111, 0b00001, 0b00010, 0b01100]
    }
}

/// The rows of the glyph of `d % 10`.
pub fn digit_rows(d: u8) -> (r: [u8; 7])
    ensures
        r@ == glyph((d % 10) as int),
{
    let r: [u8; 7] = match d % 10 {
        0 => [0b01110, 0b10001, 0b10011, 0b10101, 0b11001, 0b10001, 0b01110],
        1 => [0b00100, 0b01100, 0b00100, 0b00100, 0b00100, 0b00100, 0b01110],
        2 => [0b01110, 0b10001, 0b00001, 0b00010, 0b00100, 0b01000, 0b11111],
        3 => [0b11111, 0b00010, 0b00100, 0b00010, 0b00001, 0b10001, 0b01110],
        4 => [0b00010, 0b00110, 0b01010, 0b10010, 0b11111, 0b00010, 0b00010],
        5 => [0b11111, 0b10000, 0b11110, 0b00001, 0b00001, 0b10001, 0b01110],
        6 => [0b00110, 0b01000, 0b10000, 0b11110, 0b10001, 0b10001, 0b01110],
        7 => [0b11111, 0b00001, 0b00010, 0b00100, 0b01000, 0b01000, 0b01000],
        8 => [0b01110, 0b10001, 0b10001, 0b01110, 0b10001, 0b10001, 0b01110],
        _ => [0b01110, 0b10001, 0b10001, 0b01111, 0b00001, 0b00010, 0b01100],
    };
    assert(r@ =~= glyph((d % 10) as int));
    r
}

/// Whether the pixel at `col`, `row` of digit `d % 10` is lit; nothing is
/// lit outside the 5x7 cell.
pub open spec fn pixel_lit(d: u8, col: u32, row: u32) -> bool {
    col < GLYPH_W && row < GLYPH_H && (glyph((d % 10) as int)[row as int] >> (4 - col) as u8) & 1u8
        == 1u8
}

pub fn digit_pixel(d: u8, col: u32, row: u32) -> (r: bool)
    ensures
        r == pixel_lit(d, col, row),
{
    if col >= GLYPH_W || row >= GLYPH_H {
        return false;
    }
    let bits = digit_rows(d)[row as usize];
    (bits >> (GLYPH_W - 1 - col) as u8) & 1 == 1
}

/// The foreground color, ARGB8888 in memory order.
pub const FG: [u8; 4] = [0xEE, 0xEE, 0xEE, 0xFF];

/// The background color, ARGB8888 in memory order.
pub const BG: [u8; 4] = [0x18, 0x14, 0x10, 0xFF];

/// Sets the four bytes at `at` to `color`.
fn fill_pixel(canvas: &mut [u8], at: usize, color: [u8; 4])
    requires
        at + 4 <= old(canvas)@.len(),
    ensures
        final(canvas)@.len() == old(canvas)@.len(),
        forall|k: int|
            0 <= k < final(canvas)@.len() ==> #[trigger] final(canvas)@[k] == if at <= k < at + 4 {
                color@[k - at]
            } else {
                old(canvas)@[k]
            },
{
    canvas[at] = color[0];
    canvas[at + 1] = color[1];
    canvas[at + 2] = color[2];
    canvas[at + 3] = color[3];
}


/// Paints `color` at pixel `(x, y)` of a `w`-wide canvas, when the pixel is
/// inside `w` x `h` and its four bytes fit in the canvas.
pub fn put(canvas: &mut [u8], w: u32, h: u32, x: u32, y: u32)
    requires
        x >= w || y >= h || (y as int * w as int + x as int) * 4 <= u32::MAX,
    ensures
        final(canvas)@.len() == old(canvas)@.len(),
        forall|k: int|
            0 <= k < final(canvas)@.len() ==> #[trigger] final(canvas)@[k] == if x < w && y < h && (
            y as int * w as int + x as int) * 4 <= k < (y as int * w as int + x as int) * 4 + 4
                <= old(canvas)@.len() {
                FG@[k % 4]
            } else {
                old(canvas)@[k]
            },
{
    if x >= w || y >= h {
        return;
    }
    assert(y as int * w as int + x as int <= (y as int * w as int + x as int) * 4);
    let idx = ((y * w + x) * 4) as usize;
    if idx <= canvas.len() && canvas.len() - idx >= 4 {
        fill_pixel(canvas, idx, FG);
        assert forall|k: int| 0 <= k < canvas@.len() && idx <= k < idx + 4 implies canvas@[k]
            == FG@[k % 4] by {
            assert(idx % 4 == 0) by (nonlinear_arith)
                requires idx == (y * w + x) * 4;
            assert(k % 4 == k - idx) by (nonlinear_arith)
                requires idx % 4 == 0, idx <= k < idx + 4;
        }
    }
}

/// The decimal digits of `n`, most significant first.
pub open spec fn digits_of(n: u32) -> Seq<u8> {
    decimal(n as nat).map_values(|c: char| (c as int - '0' as int) as u8)
}

/// Width in cells of `n` digits with a one-cell gap between them.
pub open spec fn cells_w(n: int) -> int {
    n * GLYPH_W + (n - 1)
}

/// The size of one font cell in pixels: as large as fits in three quarters
/// of the canvas both ways, at least 1.
pub open spec fn scale_of(w: u32, h: u32, n: int) -> int {
    let a = (w * 3 / 4) as int / cells_w(n);
    let b = (h * 3 / 4) as int / GLYPH_H as int;
    let m = if a < b {
        a
    } else {
        b
    };
    if m < 1 {
        1
    } else {
        m
    }
}

/// Left edge of the number, centered (0 when it is wider than the canvas).
pub open spec fn left_of(w: u32, h: u32, n: int) -> int {
    let g = cells_w(n) * scale_of(w, h, n);
    if w >= g {
        (w - g) / 2
    } else {
        0
    }
}

/// Top edge of the number, centered (0 when it is taller than the canvas).
pub open spec fn top_of(w: u32, h: u32, n: int) -> int {
    let g = GLYPH_H * scale_of(w, h, n);
    if h >= g {
        (h - g) / 2
    } else {
        0
    }
}

/// Whether pixel `(x, y)` lies in a lit cell of `number` as painted on a
/// `w` x `h` canvas: digit `di` starts `di * 6` cells right of the left
/// edge, and each lit font pixel is a `scale` x `scale` square.
pub open spec fn covered(number: u32, w: u32, h: u32, x: int, y: int) -> bool {
    let ds = digits_of(number);
    let n = ds.len() as int;
    let s = scale_of(w, h, n);
    let x0 = left_of(w, h, n);
    let y0 = top_of(w, h, n);
    exists|di: int, row: int, col: int, sx: int, sy: int|
        #![trigger pixel_lit(ds[di], col as u32, row as u32), x0 + di * (GLYPH_W + 1) * s + col * s + sx, y0 + row * s + sy]
        0 <= di < n && 0 <= row < GLYPH_H && 0 <= col < GLYPH_W && 0 <= sx < s && 0 <= sy < s
            && pixel_lit(ds[di], col as u32, row as u32) && x == x0 + di * (GLYPH_W + 1) * s + col
            * s + sx && y == y0 + row * s + sy
}

/// The canvas after painting `number`: every whole 4-byte pixel is the
/// background, except pixels inside `w` x `h` (pixel `p` at `x = p % w`,
/// `y = p / w`) covered by the number, which are the foreground; a trailing
/// partial pixel is left alone.
pub open spec fn painted(old: Seq<u8>, w: u32, h: u32, number: u32, k: int) -> u8 {
    let p = k / 4;
    if k >= old.len() / 4 * 4 {
        old[k]
    } else if w > 0 && p / (w as int) < h && covered(number, w, h, p % (w as int), p / (w as int)) {
        FG@[k % 4]
    } else {
        BG@[k % 4]
    }
}


/// `covered`, decided per pixel: the offsets from the number's corner give
/// the digit, the cell column and row.
pub open spec fn lit_at(number: u32, w: u32, h: u32, x: int, y: int) -> bool {
    let ds = digits_of(number);
    let n = ds.len() as int;
    let s = scale_of(w, h, n);
    let x0 = left_of(w, h, n);
    let y0 = top_of(w, h, n);
    let rx = x - x0;
    let ry = y - y0;
    let pitch = (GLYPH_W + 1) * s;
    &&& rx >= 0
    &&& ry >= 0
    &&& ry < GLYPH_H * s
    &&& rx / pitch < n
    &&& (rx % pitch) / s < GLYPH_W
    &&& pixel_lit(ds[rx / pitch], ((rx % pitch) / s) as u32, (ry / s) as u32)
}

proof fn lemma_lit_at(number: u32, w: u32, h: u32, x: int, y: int)
    ensures
        lit_at(number, w, h, x, y) == covered(number, w, h, x, y),
{
    let ds = digits_of(number);
    let n = ds.len() as int;
    let s = scale_of(w, h, n);
    let x0 = left_of(w, h, n);
    let y0 = top_of(w, h, n);
    let rx = x - x0;
    let ry = y - y0;
    let pitch = (GLYPH_W + 1) * s;
    assert(s >= 1);
    assert(pitch == 6 * s);
    if lit_at(number, w, h, x, y) {
        let di = rx / pitch;
        let m = rx % pitch;
        let col = m / s;
        let sx = m % s;
        let row = ry / s;
        let sy = ry % s;
        lemma_fundamental_div_mod(rx, pitch);
        lemma_fundamental_div_mod(m, s);
        lemma_fundamental_div_mod(ry, s);
        lemma_mod_pos_bound(rx, pitch);
        lemma_mod_pos_bound(m, s);
        lemma_mod_pos_bound(ry, s);
        assert(row < GLYPH_H) by (nonlinear_arith)
            requires
                ry < GLYPH_H * s,
                row == ry / s,
                s >= 1,
                ry >= 0,
        ;
        assert(0 <= col) by (nonlinear_arith)
            requires
                col == m / s,
                s >= 1,
                m >= 0,
        ;
        assert(0 <= row) by (nonlinear_arith)
            requires
                row == ry / s,
                s >= 1,
                ry >= 0,
        ;
        assert(0 <= di) by (nonlinear_arith)
            requires
                di == rx / pitch,
                pitch >= 1,
                rx >= 0,
        ;
        assert(x == x0 + di * (GLYPH_W + 1) * s + col * s + sx) by (nonlinear_arith)
            requires
                rx == x - x0,
                rx == pitch * di + m,
                m == s * col + sx,
                pitch == 6 * s,
        ;
        assert(y == y0 + row * s + sy) by (nonlinear_arith)
            requires
                ry == y - y0,
                ry == s * row + sy,
        ;
        assert(pixel_lit(ds[di], col as u32, row as u32));
    }
    if covered(number, w, h, x, y) {
        let (di, row, col, sx, sy) = choose|di: int, row: int, col: int, sx: int, sy: int|
            #![trigger pixel_lit(ds[di], col as u32, row as u32), x0 + di * (GLYPH_W + 1) * s + col * s + sx, y0 + row * s + sy]
            0 <= di < n && 0 <= row < GLYPH_H && 0 <= col < GLYPH_W && 0 <= sx < s && 0 <= sy < s
                && pixel_lit(ds[di], col as u32, row as u32) && x == x0 + di * (GLYPH_W + 1) * s
                + col * s + sx && y == y0 + row * s + sy;
        let m = col * s + sx;
        assert(0 <= m < pitch) by (nonlinear_arith)
            requires
                0 <= col < 5,
                0 <= sx < s,
                m == col * s + sx,
                pitch == 6 * s,
        ;
        assert(rx == di * pitch + m) by (nonlinear_arith)
            requires
                rx == x - x0,
                x == x0 + di * (GLYPH_W + 1) * s + col * s + sx,
                m == col * s + sx,
                pitch == 6 * s,
        ;
        lemma_fundamental_div_mod_converse(rx, pitch, di, m);
        lemma_fundamental_div_mod_converse(m, s, col, sx);
        lemma_fundamental_div_mod_converse(ry, s, row, sy);
        assert(rx >= 0 && ry >= 0) by (nonlinear_arith)
            requires
                rx == di * pitch + m,
                di >= 0,
                pitch >= 0,
                m >= 0,
                ry == y - y0,
                y == y0 + row * s + sy,
                row >= 0,
                s >= 1,
                sy >= 0,
        ;
        assert(ry < 7 * s) by (nonlinear_arith)
            requires
                ry == y - y0,
                y == y0 + row * s + sy,
                0 <= row <= 6,
                0 <= sy < s,
                s >= 1,
        ;
    }
}

/// The digits of `n` as numbers.
fn digits_exec(n: u32) -> (r: Vec<u8>)
    ensures
        r@ == digits_of(n),
        1 <= r@.len() <= 10,
        forall|i: int| 0 <= i < r@.len() ==> r@[i] < 10,
{
    let mut text: Vec<char> = Vec::new();
    push_decimal(&mut text, n as u64);
    proof {
        lemma_decimal(n as nat);
        lemma_decimal_len_u32(n as nat);
    }
    let mut r: Vec<u8> = Vec::new();
    let mut i: usize = 0;
    while i < text.len()
        invariant
            i <= text@.len(),
            text@ == decimal(n as nat),
            crate::text::all_digits(text@),
            r@ == text@.take(i as int).map_values(|c: char| (c as int - '0' as int) as u8),
            forall|j: int| 0 <= j < r@.len() ==> r@[j] < 10,
        decreases text@.len() - i,
    {
        let c = text[i];
        assert(crate::text::is_digit(text@[i as int]));
        let d = (c as u32 - '0' as u32) as u8;
        r.push(d);
        assert(text@.take(i + 1).map_values(|c: char| (c as int - '0' as int) as u8) =~= text@.take(
            i as int,
        ).map_values(|c: char| (c as int - '0' as int) as u8).push(d));
        i += 1;
    }
    assert(text@.take(text@.len() as int) =~= text@);
    r
}

proof fn lemma_decimal_len_u32(n: nat)
    requires
        n <= u32::MAX,
    ensures
        decimal(n).len() <= 10,
{
    assert(pow10(10) == 10000000000) by {
        reveal_with_fuel(pow10, 11);
    }
    lemma_decimal_len_bound(n, 10);
}

/// `lit_at` in machine integers.
fn lit_exec(ds: &Vec<u8>, s: u64, x0: u64, y0: u64, x: u64, y: u64) -> (r: bool)
    requires
        1 <= s <= u32::MAX,
        1 <= ds@.len() <= 10,
        x0 <= u32::MAX,
        y0 <= u32::MAX,
        x <= u32::MAX,
        y <= u32::MAX,
    ensures
        r == ({
            let rx = x - x0;
            let ry = y - y0;
            let pitch = (GLYPH_W + 1) * s;
            &&& rx >= 0
            &&& ry >= 0
            &&& ry < GLYPH_H * s
            &&& rx / pitch < ds@.len()
            &&& (rx % pitch) / (s as int) < GLYPH_W
            &&& pixel_lit(ds@[rx / pitch], ((rx % pitch) / (s as int)) as u32, (ry / (s as int)) as u32)
        }),
{
    if x < x0 || y < y0 {
        return false;
    }
    let rx = x - x0;
    let ry = y - y0;
    let pitch = 6 * s;
    if ry >= 7 * s {
        return false;
    }
    let di = rx / pitch;
    if di >= ds.len() as u64 {
        return false;
    }
    let col = (rx % pitch) / s;
    if col >= 5 {
        return false;
    }
    let row = ry / s;
    assert(row < 7) by (nonlinear_arith)
        requires
            ry < 7 * s,
            row == ry / s,
            s >= 1,
    ;
    digit_pixel(ds[di as usize], col as u32, row as u32)
}

/// Paints `number` centered on a `w` x `h` ARGB canvas (4 bytes a pixel,
/// `w` pixels a row): the background everywhere, then each lit font pixel
/// as a square, as large as fits in three quarters of the canvas.
pub fn paint(canvas: &mut [u8], w: u32, h: u32, number: u32)
    requires
        w as int * h as int * 4 <= u32::MAX,
        w as int * 3 <= u32::MAX,
        h as int * 3 <= u32::MAX,
    ensures
        final(canvas)@.len() == old(canvas)@.len(),
        forall|k: int|
            0 <= k < final(canvas)@.len() ==> #[trigger] final(canvas)@[k] == painted(
                old(canvas)@,
                w,
                h,
                number,
                k,
            ),
{
    let ghost old_c = canvas@;
    let len = canvas.len();
    let groups = len / 4;
    let mut g: usize = 0;
    while g < groups
        invariant
            groups == len / 4,
            len == old_c.len(),
            canvas@.len() == len,
            g <= groups,
            forall|k: int|
                0 <= k < len ==> #[trigger] canvas@[k] == if k < g * 4 {
                    BG@[k % 4]
                } else {
                    old_c[k]
                },
        decreases groups - g,
    {
        fill_pixel(canvas, g * 4, BG);
        g += 1;
    }
    let ds = digits_exec(number);
    let n = ds.len() as u64;
    let cells = n * 5 + (n - 1);
    let a = ((w * 3 / 4) as u64) / cells;
    let b = ((h * 3 / 4) as u64) / 7;
    let m = if a < b {
        a
    } else {
        b
    };
    let s = if m < 1 {
        1
    } else {
        m
    };
    assert(s == scale_of(w, h, n as int));
    assert(s <= u32::MAX);
    assert(cells <= 59);
    assert(cells * s <= 59 * 0xffff_ffff) by (nonlinear_arith)
        requires
            cells <= 59,
            s <= 0xffff_ffff,
    ;
    let gw = cells * s;
    let gh = 7 * s;
    let x0 = if (w as u64) >= gw {
        (w as u64 - gw) / 2
    } else {
        0
    };
    let y0 = if (h as u64) >= gh {
        (h as u64 - gh) / 2
    } else {
        0
    };
    assert(x0 == left_of(w, h, n as int));
    assert(y0 == top_of(w, h, n as int));
    let mut p: usize = 0;
    while p < groups
        invariant
            groups == len / 4,
            len == old_c.len(),
            canvas@.len() == len,
            p <= groups,
            ds@ == digits_of(number),
            1 <= ds@.len() <= 10,
            n == ds@.len(),
            w as int * h as int * 4 <= u32::MAX,
            s == scale_of(w, h, n as int),
            1 <= s <= u32::MAX,
            x0 == left_of(w, h, n as int),
            y0 == top_of(w, h, n as int),
            x0 <= u32::MAX,
            y0 <= u32::MAX,
            forall|k: int|
                0 <= k < len ==> #[trigger] canvas@[k] == if k < p * 4 {
                    painted(old_c, w, h, number, k)
                } else if k < groups * 4 {
                    BG@[k % 4]
                } else {
                    old_c[k]
                },
        decreases groups - p,
    {
        if w > 0 {
            let x = (p as u64) % (w as u64);
            let y = (p as u64) / (w as u64);
            proof {
                lemma_fundamental_div_mod(p as int, w as int);
                lemma_mod_pos_bound(p as int, w as int);
            }
            if y < h as u64 && lit_exec(&ds, s, x0, y0, x, y) {
                assert(y * w + x == p) by (nonlinear_arith)
                    requires
                        p as int == w as int * (p as int / w as int) + p as int % w as int,
                        y == p as int / w as int,
                        x == p as int % w as int,
                ;
                assert(y * w + x < w as int * h as int) by (nonlinear_arith)
                    requires
                        y < h,
                        x < w,
                ;
                put(canvas, w, h, x as u32, y as u32);
            }
            proof {
                lemma_lit_at(number, w, h, x as int, y as int);
            }
        }
        proof {
            assert forall|k: int| 0 <= k < len implies #[trigger] canvas@[k] == if k < (p + 1) * 4 {
                painted(old_c, w, h, number, k)
            } else if k < groups * 4 {
                BG@[k % 4]
            } else {
                old_c[k]
            } by {
                if p * 4 <= k < (p + 1) * 4 {
                    assert(k / 4 == p);
                }
            }
        }
        p += 1;
    }
}


/// The digits as pictures, a row of five cells at a time, `#` lit and `.`
/// dark, top row first.
pub open spec fn picture(d: int) -> Seq<Seq<char>> {
    if d == 0 {
        seq![
            seq!['.', '#', '#', '#', '.'],
            seq!['#', '.', '.', '.', '#'],
            seq!['#', '.', '.', '#', '#'],
            seq!['#', '.', '#', '.', '#'],
            seq!['#', '#', '.', '.', '#'],
            seq!['#', '.', '.', '.', '#'],
            seq!['.', '#', '#', '#', '.'],
        ]
    } else if d == 1 {
        seq![
            seq!['.', '.', '#', '.', '.'],
            seq!['.', '#', '#', '.', '.'],
            seq!['.', '.', '#', '.', '.'],
            seq!['.', '.', '#', '.', '.'],
            seq!['.', '.', '#', '.', '.'],
            seq!['.', '.', '#', '.', '.'],
            seq!['.', '#', '#', '#', '.'],
        ]
    } else if d == 2 {
        seq![
            seq!['.', '#', '#', '#', '.'],
            seq!['#', '.', '.', '.', '#'],
            seq!['.', '.', '.', '.', '#'],
            seq!['.', '.', '.', '#', '.'],
            seq!['.', '.', '#', '.', '.'],
            seq!['.', '#', '.', '.', '.'],
            seq!['#', '#', '#', '#', '#'],
        ]
    } else if d == 3 {
        seq![
            seq!['#', '#', '#', '#', '#'],
            seq!['.', '.', '.', '#', '.'],
            seq!['.', '.', '#', '.', '.'],
            seq!['.', '.', '.', '#', '.'],
            seq!['.', '.', '.', '.', '#'],
            seq!['#', '.', '.', '.', '#'],
            seq!['.', '#', '#', '#', '.'],
        ]
    } else if d == 4 {
        seq![
            seq!['.', '.', '.', '#', '.'],
            seq!['.', '.', '#', '#', '.'],
            seq!['.', '#', '.', '#', '.'],
            seq!['#', '.', '.', '#', '.'],
            seq!['#', '#', '#', '#', '#'],
            seq!['.', '.', '.', '#', '.'],
            seq!['.', '.', '.', '#', '.'],
        ]
    } else if d == 5 {
        seq![
            seq!['#', '#', '#', '#', '#'],
            seq!['#', '.', '.', '.', '.'],
            seq!['#', '#', '#', '#', '.'],
            seq!['.', '.', '.', '.', '#'],
            seq!['.', '.', '.', '.', '#'],
            seq!['#', '.', '.', '.', '#'],
            seq!['.', '#', '#', '#', '.'],
        ]
    } else if d == 6 {
        seq![
            seq!['.', '.', '#', '#', '.'],
            seq!['.', '#', '.', '.', '.'],
            seq!['#', '.', '.', '.', '.'],
            seq!['#', '#', '#', '#', '.'],
            seq!['#', '.', '.', '.', '#'],
            seq!['#', '.', '.', '.', '#'],
            seq!['.', '#', '#', '#', '.'],
        ]
    } else if d == 7 {
        seq![
            seq!['#', '#', '#', '#', '#'],
            seq!['.', '.', '.', '.', '#'],
            seq!['.', '.', '.', '#', '.'],
            seq!['.', '.', '#', '.', '.'],
            seq!['.', '#', '.', '.', '.'],
            seq!['.', '#', '.', '.', '.'],
            seq!['.', '#', '.', '.', '.'],
        ]
    } else if d == 8 {
        seq![
            seq!['.', '#', '#', '#', '.'],
            seq!['#', '.', '.', '.', '#'],
            seq!['#', '.', '.', '.', '#'],
            seq!['.', '#', '#', '#', '.'],
            seq!['#', '.', '.', '.', '#'],
            seq!['#', '.', '.', '.', '#'],
            seq!['.', '#', '#', '#', '.'],
        ]
    } else {
        seq![
            seq!['.', '#', '#', '#', '.'],
            seq!['#', '.', '.', '.', '#'],
            seq!['#', '.', '.', '.', '#'],
            seq!['.', '#', '#', '#', '#'],
            seq!['.', '.', '.', '.', '#'],
            seq!['.', '.', '.', '#', '.'],
            seq!['.', '#', '#', '.', '.'],
        ]
    }
}

/// Bit `c` of `b`, as arithmetic.
proof fn lemma_bit_at(b: u8, c: u8)
    requires
        c < 5,
    ensures
        ((b >> c) & 1u8 == 1u8) == ((b as int / (if c == 0 {
            1int
        } else if c == 1 {
            2int
        } else if c == 2 {
            4int
        } else if c == 3 {
            8int
        } else {
            16int
        })) % 2 == 1),
{
    if c == 0 {
        assert(((b >> 0u8) & 1u8 == 1u8) == (b % 2 == 1)) by (bit_vector);
    } else if c == 1 {
        assert(((b >> 1u8) & 1u8 == 1u8) == ((b / 2) % 2 == 1)) by (bit_vector);
    } else if c == 2 {
        assert(((b >> 2u8) & 1u8 == 1u8) == ((b / 4) % 2 == 1)) by (bit_vector);
    } else if c == 3 {
        assert(((b >> 3u8) & 1u8 == 1u8) == ((b / 8) % 2 == 1)) by (bit_vector);
    } else {
        assert(((b >> 4u8) & 1u8 == 1u8) == ((b / 16) % 2 == 1)) by (bit_vector);
    }
}

/// Law: each digit's glyph pictures that digit: pixel `(col, row)` of
/// digit `d` is lit exactly where the picture of `d % 10` has a `#`.
pub proof fn lemma_glyphs_picture_digits(d: u8, col: u32, row: u32)
    requires
        col < GLYPH_W,
        row < GLYPH_H,
    ensures
        pixel_lit(d, col, row) == (picture((d % 10) as int)[row as int][col as int] == '#'),
{
    let k = (d % 10) as int;
    let b = glyph(k)[row as int];
    lemma_bit_at(b, (4 - col) as u8);
    if k == 0 {
        assert(pixel_lit(d, col, row) == (picture(0)[row as int][col as int] == '#'));
    } else if k == 1 {
        assert(pixel_lit(d, col, row) == (picture(1)[row as int][col as int] == '#'));
    } else if k == 2 {
        assert(pixel_lit(d, col, row) == (picture(2)[row as int][col as int] == '#'));
    } else if k == 3 {
        assert(pixel_lit(d, col, row) == (picture(3)[row as int][col as int] == '#'));
    } else if k == 4 {
        assert(pixel_lit(d, col, row) == (picture(4)[row as int][col as int] == '#'));
    } else if k == 5 {
        assert(pixel_lit(d, col, row) == (picture(5)[row as int][col as int] == '#'));
    } else if k == 6 {
        assert(pixel_lit(d, col, row) == (picture(6)[row as int][col as int] == '#'));
    } else if k == 7 {
        assert(pixel_lit(d, col, row) == (picture(7)[row as int][col as int] == '#'));
    } else if k == 8 {
        assert(pixel_lit(d, col, row) == (picture(8)[row as int][col as int] == '#'));
    } else {
        assert(pixel_lit(d, col, row) == (picture(9)[row as int][col as int] == '#'));
    }
}

/// Law: digits wrap modulo ten: `d` and `d + 10` have the same glyph.
pub proof fn lemma_digits_wrap(d: u8, col: u32, row: u32)
    requires
        d <= 245,
    ensures
        pixel_lit(d, col, row) == pixel_lit((d + 10) as u8, col, row),
        glyph((d % 10) as int) == glyph(((d + 10) as u8 % 10) as int),
{
}

/// Law: nothing is lit outside the 5 x 7 cell.
pub proof fn lemma_outside_cell_blank(d: u8, col: u32, row: u32)
    requires
        col >= GLYPH_W || row >= GLYPH_H,
    ensures
        !pixel_lit(d, col, row),
{
}

} // verus!
