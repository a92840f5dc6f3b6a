//! Bitmap font lookup: the set pixels of a character glyph, padded with an
//! empty border, read from a packed one-bit-per-pixel font table of 96
//! glyphs arranged 16 per row.

use vstd::prelude::*;

verus! {

/// Unpadded glyph width in pixels.
pub const FONT_WIDTH: usize = 5;

/// Unpadded glyph height in pixels.
pub const FONT_HEIGHT: usize = 8;

/// Glyphs per row of the font table.
pub const CHARS_PER_ROW: usize = 16;

/// Glyph width with one empty column of padding on each side.
pub const PADDED_FONT_WIDTH: usize = 7;

/// Glyph height with one empty row of padding above and below.
pub const PADDED_FONT_HEIGHT: usize = 10;

/// Bytes of the packed font table: 96 glyphs of 40 bits.
pub const FONT_DATA_BYTES: usize = 480;

/// The glyph a character selects: printable ASCII maps to its own glyph,
/// everything else to the white square that stands for an unknown symbol.
pub open spec fn glyph_index(c: char) -> int {
    if 32 <= c as int <= 126 {
        c as int - 32
    } else {
        95
    }
}

/// Bit `index` of the packed font table, least significant bit first.
pub open spec fn font_bit(data: Seq<u8>, index: int) -> bool {
    (data[index / 8] >> ((index % 8) as u8)) & 1 == 1
}

/// The bit position of pixel `(x, y)` of a glyph: glyphs sit 16 per row,
/// each row of glyph pixels packed across the whole table row.
pub open spec fn glyph_pixel_position(glyph: int, x: int, y: int) -> int {
    FONT_WIDTH * (glyph % (CHARS_PER_ROW as int)) + (CHARS_PER_ROW * FONT_WIDTH * FONT_HEIGHT)
        * (glyph / (CHARS_PER_ROW as int)) + x + (FONT_WIDTH * CHARS_PER_ROW) * y
}

/// Whether pixel `(x, y)` of a character's unpadded glyph is set.
pub open spec fn glyph_pixel(data: Seq<u8>, c: char, x: int, y: int) -> bool {
    font_bit(data, glyph_pixel_position(glyph_index(c), x, y))
}

/// The set pixels of the character's glyph in `grid[x][y]` format, with
/// the padding border always clear.  The caller provides the packed font
/// table, which in the running kernel is linked into the image.
pub fn get_char_pixels(c: char, font_data: &[u8]) -> (r: Vec<Vec<bool>>)
    requires
        font_data@.len() == FONT_DATA_BYTES,
    ensures
        r@.len() == PADDED_FONT_WIDTH,
        forall|x: int| 0 <= x < PADDED_FONT_WIDTH ==> (#[trigger] r@[x])@.len()
            == PADDED_FONT_HEIGHT,
        forall|x: int, y: int|
            0 <= x < FONT_WIDTH && 0 <= y < FONT_HEIGHT ==> (#[trigger] r@[x + 1]@[y + 1])
                == glyph_pixel(font_data@, c, x, y),
        forall|x: int, y: int|
            0 <= x < PADDED_FONT_WIDTH && 0 <= y < PADDED_FONT_HEIGHT && (x == 0 || x
                == PADDED_FONT_WIDTH - 1 || y == 0 || y == PADDED_FONT_HEIGHT - 1) ==> (
            #[trigger] r@[x]@[y]) == false,
{
    let code = c as u32;
    let char_index: usize = if 32 <= code && code <= 126 {
        (code - 32) as usize
    } else {
        95
    };
    proof {
        assert(char_index == glyph_index(c));
    }
    let start_index: usize = FONT_WIDTH * (char_index % CHARS_PER_ROW) + CHARS_PER_ROW * FONT_WIDTH
        * FONT_HEIGHT * (char_index / CHARS_PER_ROW);
    let mut pixels: Vec<Vec<bool>> = Vec::new();
    let mut x: usize = 0;
    while x < PADDED_FONT_WIDTH
        invariant
            font_data@.len() == FONT_DATA_BYTES,
            char_index == glyph_index(c),
            char_index < 96,
            start_index == FONT_WIDTH * (char_index as int % 16) + 640 * (char_index as int / 16),
            x <= PADDED_FONT_WIDTH,
            pixels@.len() == x,
            forall|i: int| 0 <= i < x ==> (#[trigger] pixels@[i])@.len() == PADDED_FONT_HEIGHT,
            forall|i: int, y: int|
                0 <= i < x && 0 <= y < PADDED_FONT_HEIGHT ==> (#[trigger] pixels@[i]@[y]) == (if 1
                    <= i < 6 && 1 <= y < 9 {
                    glyph_pixel(font_data@, c, i - 1, y - 1)
                } else {
                    false
                }),
        decreases PADDED_FONT_WIDTH - x,
    {
        let mut column: Vec<bool> = Vec::new();
        let mut y: usize = 0;
        while y < PADDED_FONT_HEIGHT
            invariant
                font_data@.len() == FONT_DATA_BYTES,
                char_index == glyph_index(c),
                char_index < 96,
                start_index == FONT_WIDTH * (char_index as int % 16) + 640 * (char_index as int
                    / 16),
                x < PADDED_FONT_WIDTH,
                y <= PADDED_FONT_HEIGHT,
                column@.len() == y,
                forall|j: int|
                    0 <= j < y ==> (#[trigger] column@[j]) == (if 1 <= x < 6 && 1 <= j < 9 {
                        glyph_pixel(font_data@, c, x - 1, j - 1)
                    } else {
                        false
                    }),
            decreases PADDED_FONT_HEIGHT - y,
        {
            let value: bool = if 1 <= x && x < 6 && 1 <= y && y < 9 {
                let index: usize = start_index + (x - 1) + FONT_WIDTH * CHARS_PER_ROW * (y - 1);
                proof {
                    assert(index == glyph_pixel_position(
                        glyph_index(c),
                        x as int - 1,
                        y as int - 1,
                    ));
                    lemma_glyph_position_in_table(glyph_index(c), x as int - 1, y as int - 1);
                }
                (font_data[index / 8] >> ((index % 8) as u8)) & 1 == 1
            } else {
                false
            };
            column.push(value);
            y += 1;
        }
        pixels.push(column);
        x += 1;
    }
    pixels
}

/// Every glyph pixel's bit lies inside the font table.
proof fn lemma_glyph_position_in_table(glyph: int, x: int, y: int)
    requires
        0 <= glyph < 96,
        0 <= x < FONT_WIDTH,
        0 <= y < FONT_HEIGHT,
    ensures
        0 <= glyph_pixel_position(glyph, x, y),
        glyph_pixel_position(glyph, x, y) < 8 * FONT_DATA_BYTES,
        glyph_pixel_position(glyph, x, y) / 8 < FONT_DATA_BYTES,
{
    vstd::arithmetic::div_mod::lemma_fundamental_div_mod(glyph, 16);
    vstd::arithmetic::div_mod::lemma_mod_bound(glyph, 16);
    vstd::arithmetic::div_mod::lemma_div_pos_is_pos(glyph, 16);
    vstd::arithmetic::div_mod::lemma_multiply_divide_lt(glyph, 16, 6);
    let position = glyph_pixel_position(glyph, x, y);
    assert(glyph % 16 <= 15 && glyph / 16 <= 5);
    assert(position == 5 * (glyph % 16) + 640 * (glyph / 16) + x + 80 * y);
    assert(position < 3840);
    vstd::arithmetic::div_mod::lemma_div_pos_is_pos(position, 8);
    vstd::arithmetic::div_mod::lemma_multiply_divide_lt(position, 8, FONT_DATA_BYTES as int);
}

} // verus!
