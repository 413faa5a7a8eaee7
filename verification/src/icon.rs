//! The tray icon: a dark "V"-and-bar mark on a violet square, as RGBA pixels.
use vstd::prelude::*;

verus! {

/// The icon's width and height in pixels.
pub const ICON_SIZE: u32 = 32;

/// Whether the pixel at column `x`, row `y` belongs to the dark mark: two
/// upright strokes joined by a bar near the bottom.
pub open spec fn in_mark(x: int, y: int) -> bool {
    ||| 6 <= x < 12 && 6 <= y < 20
    ||| 21 <= x < 27 && 6 <= y < 20
    ||| 18 <= y < 25 && 9 <= x < 24
}

/// The RGBA colour of the pixel at column `x`, row `y`.
pub open spec fn pixel(x: int, y: int) -> Seq<u8> {
    if in_mark(x, y) {
        seq![16u8, 13u8, 24u8, 255u8]
    } else {
        seq![157u8, 108u8, 255u8, 255u8]
    }
}

/// Byte `p` of the image, rows top to bottom, pixels left to right, four
/// bytes (red, green, blue, alpha) per pixel.
pub open spec fn icon_byte(p: int) -> u8 {
    let i = p / 4;
    pixel(i % (ICON_SIZE as int), i / (ICON_SIZE as int))[p % 4]
}

proof fn lemma_position(y: int, x: int, c: int)
    requires
        0 <= y < 32,
        0 <= x < 32,
        0 <= c < 4,
    ensures
        ({
            let p = 4 * (32 * y + x) + c;
            &&& p / 4 == 32 * y + x
            &&& p % 4 == c
            &&& (32 * y + x) % 32 == x
            &&& (32 * y + x) / 32 == y
        }),
{
    let p = 4 * (32 * y + x) + c;
    assert(p / 4 == 32 * y + x && p % 4 == c) by (nonlinear_arith)
        requires
            p == 4 * (32 * y + x) + c,
            0 <= c < 4,
            0 <= y,
            0 <= x,
    ;
    assert((32 * y + x) % 32 == x && (32 * y + x) / 32 == y) by (nonlinear_arith)
        requires
            0 <= x < 32,
            0 <= y,
    ;
}

/// The icon's pixels, `ICON_SIZE` by `ICON_SIZE`, as RGBA bytes.
pub fn icon_rgba() -> (r: Vec<u8>)
    ensures
        r@.len() == 4 * ICON_SIZE * ICON_SIZE,
        forall|p: int| 0 <= p < r@.len() ==> #[trigger] r@[p] == icon_byte(p),
{
    let mut rgba: Vec<u8> = Vec::new();
    let mut y: u32 = 0;
    while y < ICON_SIZE
        invariant
            y <= ICON_SIZE,
            rgba@.len() == 4 * (32 * y),
            forall|p: int| 0 <= p < rgba@.len() ==> #[trigger] rgba@[p] == icon_byte(p),
        decreases ICON_SIZE - y,
    {
        let mut x: u32 = 0;
        while x < ICON_SIZE
            invariant
                y < ICON_SIZE,
                x <= ICON_SIZE,
                rgba@.len() == 4 * (32 * y + x),
                forall|p: int| 0 <= p < rgba@.len() ==> #[trigger] rgba@[p] == icon_byte(p),
            decreases ICON_SIZE - x,
        {
            let dark = (6 <= x && x < 12 && 6 <= y && y < 20) || (21 <= x && x < 27 && 6 <= y && y < 20) || (18 <= y
                && y < 25 && 9 <= x && x < 24);
            let colour: [u8; 4] = if dark {
                [16, 13, 24, 255]
            } else {
                [157, 108, 255, 255]
            };
            let ghost start = rgba@.len() as int;
            let mut c: usize = 0;
            while c < 4
                invariant
                    y < ICON_SIZE,
                    x < ICON_SIZE,
                    c <= 4,
                    start == 4 * (32 * y + x),
                    rgba@.len() == start + c,
                    dark == in_mark(x as int, y as int),
                    colour@ == pixel(x as int, y as int),
                    forall|p: int| 0 <= p < rgba@.len() ==> #[trigger] rgba@[p] == icon_byte(p),
                decreases 4 - c,
            {
                proof {
                    lemma_position(y as int, x as int, c as int);
                }
                rgba.push(colour[c]);
                c = c + 1;
            }
            x = x + 1;
        }
        y = y + 1;
    }
    rgba
}

} // verus!
