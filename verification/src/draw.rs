//! Text and numbers in pictures.
use crate::canvas::{Colour, Picture};
use crate::text::{characters, decimal, digit_value, write_number};
use vstd::prelude::*;

verus! {

/// The pixels of a digit, three to each of five rows, the first one in the
/// highest of 15 bits.
pub open spec fn digit_mask(digit: int) -> u16 {
    if digit == 0 {
        0b111_101_101_101_111
    } else if digit == 1 {
        0b010_110_010_010_111
    } else if digit == 2 {
        0b110_001_010_100_111
    } else if digit == 3 {
        0b110_001_010_001_110
    } else if digit == 4 {
        0b101_101_111_001_001
    } else if digit == 5 {
        0b111_100_110_001_111
    } else if digit == 6 {
        0b011_100_111_101_011
    } else if digit == 7 {
        0b111_001_001_001_001
    } else if digit == 8 {
        0b111_101_111_101_111
    } else {
        0b111_101_111_001_111
    }
}

fn mask_of_digit(digit: u32) -> (r: u16)
    ensures
        r == digit_mask(digit as int),
{
    match digit {
        0 => 0b111_101_101_101_111,
        1 => 0b010_110_010_010_111,
        2 => 0b110_001_010_100_111,
        3 => 0b110_001_010_001_110,
        4 => 0b101_101_111_001_001,
        5 => 0b111_100_110_001_111,
        6 => 0b011_100_111_101_011,
        7 => 0b111_001_001_001_001,
        8 => 0b111_101_111_101_111,
        _ => 0b111_101_111_001_111,
    }
}

/// A digit whose pixels are squares of `scale`, with its upper left corner at
/// `(x0, y0)`.
pub open spec fn digit_shape(x0: int, y0: int, scale: int, digit: int) -> spec_fn(int, int) -> bool {
    |x: int, y: int|
        {
            let col = (x - x0) / scale;
            let row = (y - y0) / scale;
            &&& 0 <= x - x0 < 3 * scale
            &&& 0 <= y - y0 < 5 * scale
            &&& (digit_mask(digit) >> ((14 - (row * 3 + col)) as u16)) & 1 == 1
        }
}

/// A rectangle.
pub open spec fn rectangle(x0: int, y0: int, width: int, height: int) -> spec_fn(int, int) -> bool {
    |x: int, y: int| x0 <= x < x0 + width && y0 <= y < y0 + height
}

/// The pixels of a character, five to each of seven rows, the first one in the
/// highest of 35 bits.
pub open spec fn glyph(c: char) -> u64 {
    match c {
        'A' | 'a' => 0b01110_10001_10001_11111_10001_10001_10001,
        'B' | 'b' => 0b11110_10001_11110_10001_10001_10001_11110,
        'C' | 'c' => 0b01111_10000_10000_10000_10000_10000_01111,
        'D' | 'd' => 0b11110_10001_10001_10001_10001_10001_11110,
        'E' | 'e' => 0b11111_10000_11110_10000_10000_10000_11111,
        'F' | 'f' => 0b11111_10000_11110_10000_10000_10000_10000,
        'G' | 'g' => 0b01111_10000_10000_10111_10001_10001_01111,
        'H' | 'h' => 0b10001_10001_10001_11111_10001_10001_10001,
        'I' | 'i' => 0b11111_00100_00100_00100_00100_00100_11111,
        'K' | 'k' => 0b10001_10010_10100_11000_10100_10010_10001,
        'L' | 'l' => 0b10000_10000_10000_10000_10000_10000_11111,
        'M' | 'm' => 0b10001_11011_10101_10101_10001_10001_10001,
        'N' | 'n' => 0b10001_11001_10101_10011_10001_10001_10001,
        'O' | 'o' => 0b01110_10001_10001_10001_10001_10001_01110,
        'P' | 'p' => 0b11110_10001_10001_11110_10000_10000_10000,
        'Q' | 'q' => 0b01110_10001_10001_10001_10101_10010_01101,
        'R' | 'r' => 0b11110_10001_11110_10100_10010_10001_10001,
        'S' | 's' => 0b01111_10000_10000_01110_00001_00001_11110,
        'T' | 't' => 0b11111_00100_00100_00100_00100_00100_00100,
        'U' | 'u' => 0b10001_10001_10001_10001_10001_10001_01110,
        'W' | 'w' => 0b10001_10001_10001_10101_10101_11011_10001,
        'Y' | 'y' => 0b10001_10001_01010_00100_00100_00100_00100,
        '0' => 0b01110_10011_10101_10101_10101_11001_01110,
        '1' => 0b00100_01100_00100_00100_00100_00100_01110,
        '2' => 0b01110_10001_00001_00010_00100_01000_11111,
        '3' => 0b11110_00001_00001_01110_00001_00001_11110,
        '4' => 0b00010_00110_01010_10010_11111_00010_00010,
        '5' => 0b11111_10000_10000_11110_00001_00001_11110,
        '6' => 0b00111_01000_10000_11110_10001_10001_01110,
        '7' => 0b11111_00001_00010_00100_01000_01000_01000,
        '8' => 0b01110_10001_10001_01110_10001_10001_01110,
        '9' => 0b01110_10001_10001_01111_00001_00010_11100,
        '.' => 0b00000_00000_00000_00000_00000_00000_00100,
        '_' => 0b00000_00000_00000_00000_00000_00000_11111,
        '-' => 0b00000_00000_00000_11111_00000_00000_00000,
        _ => 0,
    }
}

fn mask_of_char(c: char) -> (r: u64)
    ensures
        r == glyph(c),
{
    match c {
        'A' | 'a' => 0b01110_10001_10001_11111_10001_10001_10001,
        'B' | 'b' => 0b11110_10001_11110_10001_10001_10001_11110,
        'C' | 'c' => 0b01111_10000_10000_10000_10000_10000_01111,
        'D' | 'd' => 0b11110_10001_10001_10001_10001_10001_11110,
        'E' | 'e' => 0b11111_10000_11110_10000_10000_10000_11111,
        'F' | 'f' => 0b11111_10000_11110_10000_10000_10000_10000,
        'G' | 'g' => 0b01111_10000_10000_10111_10001_10001_01111,
        'H' | 'h' => 0b10001_10001_10001_11111_10001_10001_10001,
        'I' | 'i' => 0b11111_00100_00100_00100_00100_00100_11111,
        'K' | 'k' => 0b10001_10010_10100_11000_10100_10010_10001,
        'L' | 'l' => 0b10000_10000_10000_10000_10000_10000_11111,
        'M' | 'm' => 0b10001_11011_10101_10101_10001_10001_10001,
        'N' | 'n' => 0b10001_11001_10101_10011_10001_10001_10001,
        'O' | 'o' => 0b01110_10001_10001_10001_10001_10001_01110,
        'P' | 'p' => 0b11110_10001_10001_11110_10000_10000_10000,
        'Q' | 'q' => 0b01110_10001_10001_10001_10101_10010_01101,
        'R' | 'r' => 0b11110_10001_11110_10100_10010_10001_10001,
        'S' | 's' => 0b01111_10000_10000_01110_00001_00001_11110,
        'T' | 't' => 0b11111_00100_00100_00100_00100_00100_00100,
        'U' | 'u' => 0b10001_10001_10001_10001_10001_10001_01110,
        'W' | 'w' => 0b10001_10001_10001_10101_10101_11011_10001,
        'Y' | 'y' => 0b10001_10001_01010_00100_00100_00100_00100,
        '0' => 0b01110_10011_10101_10101_10101_11001_01110,
        '1' => 0b00100_01100_00100_00100_00100_00100_01110,
        '2' => 0b01110_10001_00001_00010_00100_01000_11111,
        '3' => 0b11110_00001_00001_01110_00001_00001_11110,
        '4' => 0b00010_00110_01010_10010_11111_00010_00010,
        '5' => 0b11111_10000_10000_11110_00001_00001_11110,
        '6' => 0b00111_01000_10000_11110_10001_10001_01110,
        '7' => 0b11111_00001_00010_00100_01000_01000_01000,
        '8' => 0b01110_10001_10001_01110_10001_10001_01110,
        '9' => 0b01110_10001_10001_01111_00001_00010_11100,
        '.' => 0b00000_00000_00000_00000_00000_00000_00100,
        '_' => 0b00000_00000_00000_00000_00000_00000_11111,
        '-' => 0b00000_00000_00000_11111_00000_00000_00000,
        _ => 0,
    }
}

/// Text with its upper left corner at `(x0, y0)`, six pixels to a character.
pub open spec fn text_shape(x0: int, y0: int, text: Seq<char>) -> spec_fn(int, int) -> bool {
    |x: int, y: int|
        {
            let k = (x - x0) / 6;
            let col = (x - x0) % 6;
            &&& 0 <= x - x0 < 6 * text.len()
            &&& col < 5
            &&& 0 <= y - y0 < 7
            &&& (glyph(text[k]) >> ((34 - ((y - y0) * 5 + col)) as u64)) & 1 == 1
        }
}

/// Fills those pixels of a rectangle that lie in the picture.
pub(crate) fn fill(img: &mut Picture, x0: i32, y0: i32, width: i32, height: i32, colour: Colour)
    requires
        x0 + width <= i32::MAX,
        y0 + height <= i32::MAX,
        0 <= width,
        0 <= height,
    ensures
        final(img).painted(
            *old(img),
            rectangle(x0 as int, y0 as int, width as int, height as int),
            colour,
        ),
{
    let (w, h) = img.dimensions();
    let mut dy: i32 = 0;
    while dy < height
        invariant
            x0 + width <= i32::MAX,
            y0 + height <= i32::MAX,
            0 <= width,
            0 <= dy <= height,
            img.width() == w,
            img.height() == h,
            img.painted(
                *old(img),
                rectangle(x0 as int, y0 as int, width as int, dy as int),
                colour,
            ),
        decreases height - dy,
    {
        let mut dx: i32 = 0;
        while dx < width
            invariant
                x0 + width <= i32::MAX,
                y0 + height <= i32::MAX,
                0 <= dx <= width,
                0 <= dy < height,
                img.width() == w,
                img.height() == h,
                img.painted(
                    *old(img),
                    |x: int, y: int|
                        rectangle(x0 as int, y0 as int, width as int, dy as int)(x, y)
                            || rectangle(x0 as int, y0 + dy, dx as int, 1)(x, y),
                    colour,
                ),
            decreases width - dx,
        {
            let px: i32 = x0 + dx;
            let py: i32 = y0 + dy;
            if px >= 0 && py >= 0 && (px as u32) < w && (py as u32) < h {
                img.put(px as u32, py as u32, colour);
            }
            dx = dx + 1;
        }
        dy = dy + 1;
    }
}

/// Draws a digit.
fn draw_digit(img: &mut Picture, x0: i32, y0: i32, scale: i32, digit: u32, colour: Colour)
    requires
        -0x4000_0000 <= x0 <= 0x4000_0000,
        -0x4000_0000 <= y0 <= 0x4000_0000,
        0 < scale <= 0x100_0000,
    ensures
        final(img).painted(
            *old(img),
            digit_shape(x0 as int, y0 as int, scale as int, digit as int),
            colour,
        ),
{
    let mask: u16 = mask_of_digit(digit);
    let ghost shape = digit_shape(x0 as int, y0 as int, scale as int, digit as int);
    let mut row: i32 = 0;
    while row < 5
        invariant
            -0x4000_0000 <= x0 <= 0x4000_0000,
            -0x4000_0000 <= y0 <= 0x4000_0000,
            0 < scale <= 0x100_0000,
            mask == digit_mask(digit as int),
            shape == digit_shape(x0 as int, y0 as int, scale as int, digit as int),
            0 <= row <= 5,
            img.painted(*old(img), |x: int, y: int| shape(x, y) && y < y0 + row * scale, colour),
        decreases 5 - row,
    {
        let mut col: i32 = 0;
        while col < 3
            invariant
                -0x4000_0000 <= x0 <= 0x4000_0000,
                -0x4000_0000 <= y0 <= 0x4000_0000,
                0 < scale <= 0x100_0000,
                mask == digit_mask(digit as int),
                shape == digit_shape(x0 as int, y0 as int, scale as int, digit as int),
                0 <= row < 5,
                0 <= col <= 3,
                img.painted(
                    *old(img),
                    |x: int, y: int|
                        shape(x, y) && (y < y0 + row * scale || (y < y0 + (row + 1) * scale && x
                            < x0 + col * scale)),
                    colour,
                ),
            decreases 3 - col,
        {
            let i: u16 = (14 - (row * 3 + col)) as u16;
            let lit: bool = (mask >> i) & 1 == 1;
            proof {
                assert(0 <= row * scale <= 4 * scale) by (nonlinear_arith)
                    requires
                        0 <= row <= 4,
                        scale > 0,
                ;
                assert(0 <= col * scale <= 2 * scale) by (nonlinear_arith)
                    requires
                        0 <= col <= 2,
                        scale > 0,
                ;
            }
            let ghost before = *img;
            if lit {
                fill(img, x0 + col * scale, y0 + row * scale, scale, scale, colour);
            }
            proof {
                let s = scale as int;
                let r = row as int;
                let c = col as int;
                assert((r + 1) * s == r * s + s) by (nonlinear_arith);
                assert((c + 1) * s == c * s + s) by (nonlinear_arith);
                assert forall|x: int, y: int|
                    x0 + c * s <= x < x0 + (c + 1) * s && y0 + r * s <= y < y0 + (r + 1)
                        * s implies #[trigger] shape(x, y) == lit by {
                    vstd::arithmetic::div_mod::lemma_fundamental_div_mod_converse(
                        x - x0,
                        s,
                        c,
                        x - x0 - c * s,
                    );
                    vstd::arithmetic::div_mod::lemma_fundamental_div_mod_converse(
                        y - y0,
                        s,
                        r,
                        y - y0 - r * s,
                    );
                    assert((c + 1) * s <= 3 * s) by (nonlinear_arith)
                        requires
                            0 <= c <= 2,
                            s > 0,
                    ;
                    assert((r + 1) * s <= 5 * s) by (nonlinear_arith)
                        requires
                            0 <= r <= 4,
                            s > 0,
                    ;
                }
                assert forall|x: int, y: int| img.has(x, y) implies #[trigger] img.at(x, y) == (
                if shape(x, y) && (y < y0 + r * s || (y < y0 + (r + 1) * s && x < x0 + (c + 1)
                    * s)) {
                    colour
                } else {
                    old(img).at(x, y)
                }) by {
                    assert(before.at(x, y) == (if shape(x, y) && (y < y0 + r * s || (y < y0 + (r
                        + 1) * s && x < x0 + c * s)) {
                        colour
                    } else {
                        old(img).at(x, y)
                    }));
                }
            }
            col = col + 1;
        }
        proof {
            let s = scale as int;
            let r = row as int;
            assert forall|x: int, y: int| #[trigger] shape(x, y) implies x < x0 + 3 * s by {}
            assert forall|x: int, y: int| img.has(x, y) implies #[trigger] img.at(x, y) == (
            if shape(x, y) && y < y0 + (r + 1) * s {
                colour
            } else {
                old(img).at(x, y)
            }) by {
                assert((r + 1) * s == r * s + s) by (nonlinear_arith);
            }
        }
        row = row + 1;
    }
    proof {
        assert forall|x: int, y: int| img.has(x, y) implies #[trigger] img.at(x, y) == (if shape(
            x,
            y,
        ) {
            colour
        } else {
            old(img).at(x, y)
        }) by {}
    }
}

/// The first `n` digits of `num`, whose pixels are squares of three, with the
/// upper left corner of the first at `(x0, y0)`.
pub open spec fn digits_shape(x0: int, y0: int, num: nat, n: int) -> spec_fn(int, int) -> bool {
    |x: int, y: int|
        exists|k: int| 0 <= k < n && #[trigger] digit_shape(
            x0 + 12 * k,
            y0,
            3,
            decimal(num)[k] as int - '0' as int,
        )(x, y)
}

/// The width of the label of a number with this many digits.
pub open spec fn label_width(digits: int) -> int {
    digits * 9 + (digits - 1) * 3 + 6
}

/// The colour of the digits of a label.
pub open spec fn label_colour(num: nat) -> Colour {
    if num < 10 {
        Colour { red: 200, green: 200, blue: 0 }
    } else {
        Colour { red: 50, green: 150, blue: 0 }
    }
}

/// What the label of a number at `(cx, cy)` shows: its digits on black, to the
/// right of the point and above it.
pub open spec fn label(cx: int, cy: int, num: nat, x: int, y: int) -> Option<Colour> {
    let n = decimal(num).len() as int;
    if digits_shape(cx + 10, cy - 23, num, n)(x, y) {
        Some(label_colour(num))
    } else if rectangle(cx + 7, cy - 26, label_width(n), 21)(x, y) {
        Some(Colour { red: 0, green: 0, blue: 0 })
    } else {
        None
    }
}

/// The picture is `before` with the label of a number at `(cx, cy)`.
pub open spec fn labelled(after: Picture, before: Picture, cx: int, cy: int, num: nat) -> bool {
    &&& after.width() == before.width()
    &&& after.height() == before.height()
    &&& forall|x: int, y: int|
        after.has(x, y) ==> #[trigger] after.at(x, y) == (match label(cx, cy, num, x, y) {
            Some(c) => c,
            None => before.at(x, y),
        })
}

proof fn lemma_decimal_length(n: nat, bound: nat)
    requires
        n < vstd::arithmetic::power::pow(10, bound),
        bound > 0,
    ensures
        decimal(n).len() <= bound,
    decreases n,
{
    if n >= 10 {
        vstd::arithmetic::power::lemma_pow1(10);
        if bound == 1 {
            assert(false);
        }
        vstd::arithmetic::power::lemma_pow_adds(10, 1, (bound - 1) as nat);
        let p = vstd::arithmetic::power::pow(10, (bound - 1) as nat);
        assert(n / 10 < p) by (nonlinear_arith)
            requires
                n < 10 * p,
        ;
        lemma_decimal_length(n / 10, (bound - 1) as nat);
    }
}

/// Draws the label of a number.
pub(crate) fn draw_number_label(img: &mut Picture, cx: i32, cy: i32, num: u64)
    requires
        -0x2000_0000 <= cx <= 0x2000_0000,
        -0x2000_0000 <= cy <= 0x2000_0000,
    ensures
        labelled(*final(img), *old(img), cx as int, cy as int, num as nat),
{
    let digits = characters(write_number(num).as_str());
    let n: usize = digits.len();
    proof {
        assert(vstd::arithmetic::power::pow(10, 20) > u64::MAX) by {
            assert(vstd::arithmetic::power::pow(10, 20) == 100_000_000_000_000_000_000) by {
                reveal_with_fuel(vstd::arithmetic::power::pow, 21);
            }
        }
        lemma_decimal_length(num as nat, 20);
        crate::text::lemma_decimal_digits(num as nat);
    }
    let total_w: i32 = n as i32 * 9 + (n as i32 - 1) * 3 + 6;
    let black = Colour { red: 0, green: 0, blue: 0 };
    fill(img, cx + 7, cy - 26, total_w, 21, black);
    let colour = if num < 10 {
        Colour { red: 200, green: 200, blue: 0 }
    } else {
        Colour { red: 50, green: 150, blue: 0 }
    };
    let ghost boxed = *img;
    let ghost x0 = cx + 10;
    let ghost y0 = cy - 23;
    let mut k: usize = 0;
    while k < n
        invariant
            -0x2000_0000 <= cx <= 0x2000_0000,
            -0x2000_0000 <= cy <= 0x2000_0000,
            x0 == cx + 10,
            y0 == cy - 23,
            digits@ == decimal(num as nat),
            n == digits@.len(),
            n <= 20,
            forall|i: int|
                0 <= i < n ==> digit_value(#[trigger] decimal(num as nat)[i]) is Some,
            k <= n,
            img.painted(boxed, digits_shape(x0, y0, num as nat, k as int), colour),
        decreases n - k,
    {
        let c: char = digits[k];
        assert(digit_value(decimal(num as nat)[k as int]) is Some);
        let d: u32 = c as u32 - '0' as u32;
        let ghost before = *img;
        draw_digit(img, cx + 10 + 12 * (k as i32), cy - 23, 3, d, colour);
        proof {
            let one = digit_shape(x0 + 12 * k, y0, 3, d as int);
            let some = digits_shape(x0, y0, num as nat, k as int);
            let all = digits_shape(x0, y0, num as nat, k + 1);
            assert forall|x: int, y: int| #[trigger] all(x, y) == (one(x, y) || some(x, y)) by {
                let text = decimal(num as nat);
                if some(x, y) {
                    let m = choose|m: int| 0 <= m < k && #[trigger] digit_shape(
                        x0 + 12 * m,
                        y0,
                        3,
                        text[m] as int - '0' as int,
                    )(x, y);
                    assert(0 <= m < k + 1 && digit_shape(
                        x0 + 12 * m,
                        y0,
                        3,
                        text[m] as int - '0' as int,
                    )(x, y));
                }
                if one(x, y) {
                    assert(digit_shape(x0 + 12 * k, y0, 3, text[k as int] as int - '0' as int)(
                        x,
                        y,
                    ));
                }
                if all(x, y) && !one(x, y) {
                    let m = choose|m: int| 0 <= m < k + 1 && #[trigger] digit_shape(
                        x0 + 12 * m,
                        y0,
                        3,
                        text[m] as int - '0' as int,
                    )(x, y);
                    assert(m != k);
                }
            }
        }
        k = k + 1;
    }
}

/// Draws text.
pub(crate) fn bitmap_text(image: &mut Picture, x: u32, y: u32, text: &str, colour: Colour)
    requires
        x + 6 * text@.len() <= u32::MAX,
        y + 7 <= u32::MAX,
    ensures
        final(image).painted(*old(image), text_shape(x as int, y as int, text@), colour),
{
    let chars = characters(text);
    let n: usize = chars.len();
    let (w, h) = image.dimensions();
    let ghost shape = text_shape(x as int, y as int, text@);
    let mut cursor: u32 = x;
    let mut k: usize = 0;
    while k < n
        invariant
            chars@ == text@,
            n == chars@.len(),
            x + 6 * n <= u32::MAX,
            y + 7 <= u32::MAX,
            k <= n,
            cursor == x + 6 * k,
            shape == text_shape(x as int, y as int, text@),
            image.width() == w,
            image.height() == h,
            image.painted(*old(image), |u: int, v: int| shape(u, v) && u < x + 6 * k, colour),
        decreases n - k,
    {
        let mask: u64 = mask_of_char(chars[k]);
        let mut row: u32 = 0;
        while row < 7
            invariant
                chars@ == text@,
                n == chars@.len(),
                x + 6 * n <= u32::MAX,
                y + 7 <= u32::MAX,
                k < n,
                cursor == x + 6 * k,
                mask == glyph(text@[k as int]),
                shape == text_shape(x as int, y as int, text@),
                image.width() == w,
                image.height() == h,
                0 <= row <= 7,
                image.painted(
                    *old(image),
                    |u: int, v: int|
                        shape(u, v) && (u < x + 6 * k || (u < x + 6 * k + 6 && v < y + row)),
                    colour,
                ),
            decreases 7 - row,
        {
            let mut col: u32 = 0;
            while col < 5
                invariant
                    chars@ == text@,
                    n == chars@.len(),
                    x + 6 * n <= u32::MAX,
                    y + 7 <= u32::MAX,
                    k < n,
                    cursor == x + 6 * k,
                    mask == glyph(text@[k as int]),
                    shape == text_shape(x as int, y as int, text@),
                    image.width() == w,
                    image.height() == h,
                    0 <= row < 7,
                    0 <= col <= 5,
                    image.painted(
                        *old(image),
                        |u: int, v: int|
                            shape(u, v) && (u < x + 6 * k || (u < x + 6 * k + 6 && v < y + row) || (
                            v == y + row && u < x + 6 * k + col)),
                        colour,
                    ),
                decreases 5 - col,
            {
                let i: u64 = (34 - (row * 5 + col)) as u64;
                let lit: bool = (mask >> i) & 1 == 1;
                proof {
                    assert(shape(cursor + col, y + row) == lit) by {
                        assert((6 * k + col) / 6 == k && (6 * k + col) % 6 == col);
                    }
                }
                let ghost before = *image;
                if lit && cursor + col < w && y + row < h {
                    image.put(cursor + col, y + row, colour);
                }
                proof {
                    assert forall|u: int, v: int| image.has(u, v) implies #[trigger] image.at(u, v)
                        == (if shape(u, v) && (u < x + 6 * k || (u < x + 6 * k + 6 && v < y + row)
                        || (v == y + row && u < x + 6 * k + col + 1)) {
                        colour
                    } else {
                        old(image).at(u, v)
                    }) by {
                        assert(before.at(u, v) == (if shape(u, v) && (u < x + 6 * k || (u < x + 6
                            * k + 6 && v < y + row) || (v == y + row && u < x + 6 * k + col)) {
                            colour
                        } else {
                            old(image).at(u, v)
                        }));
                    }
                }
                col = col + 1;
            }
            proof {
                // The sixth column of a character stays empty.
                assert forall|v: int| !#[trigger] shape(x + 6 * k + 5, v) by {
                    assert((6 * k + 5) % 6 == 5);
                }
                assert forall|u: int, v: int| image.has(u, v) implies #[trigger] image.at(u, v) == (
                if shape(u, v) && (u < x + 6 * k || (u < x + 6 * k + 6 && v < y + row + 1)) {
                    colour
                } else {
                    old(image).at(u, v)
                }) by {
                    if v == y + row && u == x + 6 * k + 5 {
                        assert(!shape(x + 6 * k + 5, v));
                    }
                }
            }
            row = row + 1;
        }
        cursor = cursor + 6;
        k = k + 1;
        proof {
            assert forall|u: int, v: int| image.has(u, v) implies #[trigger] image.at(u, v) == (
            if shape(u, v) && u < x + 6 * k {
                colour
            } else {
                old(image).at(u, v)
            }) by {}
        }
    }
    proof {
        assert forall|u: int, v: int| image.has(u, v) implies #[trigger] image.at(u, v) == (
        if shape(u, v) {
            colour
        } else {
            old(image).at(u, v)
        }) by {}
    }
}

/// A digit is drawn in squares: every pixel of a square looks as the one pixel
/// of the digit in its smallest size.
pub proof fn digits_are_drawn_in_squares(
    x0: int,
    y0: int,
    scale: int,
    digit: int,
    col: int,
    row: int,
    dx: int,
    dy: int,
)
    requires
        scale > 0,
        0 <= dx < scale,
        0 <= dy < scale,
    ensures
        digit_shape(x0, y0, scale, digit)(x0 + scale * col + dx, y0 + scale * row + dy)
            == digit_shape(0, 0, 1, digit)(col, row),
{
    let x = scale * col + dx;
    let y = scale * row + dy;
    assert(scale * col == col * scale && scale * row == row * scale) by (nonlinear_arith);
    vstd::arithmetic::div_mod::lemma_fundamental_div_mod_converse(x, scale, col, dx);
    vstd::arithmetic::div_mod::lemma_fundamental_div_mod_converse(y, scale, row, dy);
    assert(0 <= x < 3 * scale <==> 0 <= col < 3) by (nonlinear_arith)
        requires
            x == scale * col + dx,
            0 <= dx < scale,
    ;
    assert(0 <= y < 5 * scale <==> 0 <= row < 5) by (nonlinear_arith)
        requires
            y == scale * row + dy,
            0 <= dy < scale,
    ;
    assert(col / 1 == col && row / 1 == row);
}

/// A text is drawn in cells of six by seven: each character looks as it does
/// alone, and the last column of a cell stays empty.
pub proof fn texts_are_drawn_in_cells(x0: int, y0: int, text: Seq<char>, k: int, col: int, row: int)
    requires
        0 <= k < text.len(),
        0 <= col < 6,
    ensures
        text_shape(x0, y0, text)(x0 + 6 * k + col, y0 + row) == text_shape(0, 0, seq![text[k]])(
            col,
            row,
        ),
        text_shape(x0, y0, text)(x0 + 6 * k + col, y0 + row) ==> col < 5 && 0 <= row < 7,
{
    assert((6 * k + col) / 6 == k && (6 * k + col) % 6 == col);
    assert(col / 6 == 0 && col % 6 == col);
    assert(seq![text[k]][0] == text[k]);
}

/// Letters look the same in either case.
pub proof fn letters_look_the_same_in_either_case(c: char)
    requires
        'a' <= c <= 'z',
    ensures
        glyph(c) == glyph((c as u32 - 32) as char),
{
}

/// Different digits look different.
pub proof fn digits_look_different(a: int, b: int)
    requires
        0 <= a < b < 10,
    ensures
        digit_mask(a) != digit_mask(b),
        glyph((0x30 + a) as char) != glyph((0x30 + b) as char),
{
}

/// The digits of a label lie in its black box, three pixels away from its rim;
/// they are yellow for numbers of one digit and green for longer ones.
pub proof fn labels_frame_their_digits(cx: int, cy: int, num: nat, k: int, x: int, y: int)
    requires
        0 <= k < decimal(num).len(),
        digit_shape(cx + 10 + 12 * k, cy - 23, 3, decimal(num)[k] as int - '0' as int)(x, y),
    ensures
        cx + 7 + 3 <= x < cx + 7 + (12 * decimal(num).len() + 3) - 3,
        cy - 26 + 3 <= y < cy - 26 + 21 - 3,
        rectangle(cx + 7, cy - 26, label_width(decimal(num).len() as int), 21)(x, y),
        label(cx, cy, num, x, y) == Some(
            if decimal(num).len() == 1 {
                Colour { red: 200, green: 200, blue: 0 }
            } else {
                Colour { red: 50, green: 150, blue: 0 }
            },
        ),
{
    let n = decimal(num).len() as int;
    assert(digits_shape(cx + 10, cy - 23, num, n)(x, y)) by {
        assert(digit_shape(cx + 10 + 12 * k, cy - 23, 3, decimal(num)[k] as int - '0' as int)(
            x,
            y,
        ));
    }
    if num >= 10 {
        crate::text::lemma_decimal_digits(num / 10);
    }
}

/// Different letters look different.
pub proof fn letters_look_different(c: char, d: char)
    requires
        'A' <= c <= 'Z',
        'A' <= d <= 'Z',
        c != d,
        glyph(c) != 0,
    ensures
        glyph(c) != glyph(d),
{
}

/// A rectangle holds the pixels that are less than its width to the right of its
/// corner and less than its height below it.
pub proof fn rectangles_reach_from_their_corner(
    x0: int,
    y0: int,
    width: int,
    height: int,
    dx: int,
    dy: int,
)
    ensures
        rectangle(x0, y0, width, height)(x0 + dx, y0 + dy) <==> 0 <= dx < width && 0 <= dy < height,
{
}

} // verus!
