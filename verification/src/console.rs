//! Text console on top of the framebuffer: cursor bookkeeping, glyph
//! drawing, line wrapping and scrolling.

use vstd::prelude::*;

use crate::font::get_char_pixels;
use crate::font::FONT_DATA_BYTES;
use crate::font::PADDED_FONT_HEIGHT;
use crate::font::PADDED_FONT_WIDTH;
use crate::framebuffer::Color;
use crate::framebuffer::FrameBuffer;

verus! {

/// The color the console paints cleared areas with.
pub fn background_color() -> (r: Color)
    ensures
        r == (Color { r: 32, g: 32, b: 32, a: 255 }),
{
    Color { r: 32, g: 32, b: 32, a: 255 }
}

/// The color the console draws glyph pixels with.
pub fn font_color() -> (r: Color)
    ensures
        r == (Color { r: 255, g: 255, b: 255, a: 255 }),
{
    Color { r: 255, g: 255, b: 255, a: 255 }
}

/// The console: a cursor over a character grid drawn on the framebuffer,
/// with the font table it draws glyphs from.
pub struct Console {
    cur_row: u32,
    cur_column: u32,
    num_columns: u32,
    num_rows: u32,
    framebuffer: FrameBuffer,
    font_data: Vec<u8>,
}

impl Console {
    /// Cursor row.
    pub closed spec fn row(self) -> u32 {
        self.cur_row
    }

    /// Cursor column.
    pub closed spec fn column(self) -> u32 {
        self.cur_column
    }

    /// Columns of the character grid.
    pub closed spec fn columns(self) -> u32 {
        self.num_columns
    }

    /// Rows of the character grid.
    pub closed spec fn rows(self) -> u32 {
        self.num_rows
    }

    /// The character grid fills the framebuffer and the cursor lies on it.
    pub closed spec fn wf(self) -> bool {
        &&& self.framebuffer.wf()
        &&& self.font_data@.len() == FONT_DATA_BYTES
        &&& self.num_columns == self.framebuffer.width_spec() / (PADDED_FONT_WIDTH as u32)
        &&& self.num_rows == self.framebuffer.height_spec() / (PADDED_FONT_HEIGHT as u32)
        &&& 1 <= self.num_columns
        &&& 1 <= self.num_rows
        &&& self.cur_column < self.num_columns
        &&& self.cur_row < self.num_rows
    }

    /// Cursor row.
    pub fn cursor_row(&self) -> (r: u32)
        ensures
            r == self.row(),
    {
        self.cur_row
    }

    /// Cursor column.
    pub fn cursor_column(&self) -> (r: u32)
        ensures
            r == self.column(),
    {
        self.cur_column
    }

    /// Columns of the character grid.
    pub fn grid_columns(&self) -> (r: u32)
        ensures
            r == self.columns(),
    {
        self.num_columns
    }

    /// Rows of the character grid.
    pub fn grid_rows(&self) -> (r: u32)
        ensures
            r == self.rows(),
    {
        self.num_rows
    }

    /// A console over a framebuffer and a font table, cleared to the
    /// background color with the cursor at the top left.
    pub fn init(framebuffer: FrameBuffer, font_data: Vec<u8>) -> (r: Console)
        requires
            framebuffer.wf(),
            framebuffer.width_spec() >= PADDED_FONT_WIDTH,
            framebuffer.height_spec() >= PADDED_FONT_HEIGHT,
            font_data@.len() == FONT_DATA_BYTES,
        ensures
            r.wf(),
            r.row() == 0,
            r.column() == 0,
            r.columns() == framebuffer.width_spec() / (PADDED_FONT_WIDTH as u32),
            r.rows() == framebuffer.height_spec() / (PADDED_FONT_HEIGHT as u32),
    {
        let num_columns = framebuffer.get_width() / (PADDED_FONT_WIDTH as u32);
        let num_rows = framebuffer.get_height() / (PADDED_FONT_HEIGHT as u32);
        let mut con = Console {
            framebuffer,
            cur_column: 0,
            cur_row: 0,
            num_columns,
            num_rows,
            font_data,
        };
        con.clear();
        con
    }

    /// A console cleared to black, as at the very first bring-up.
    pub fn new(framebuffer: FrameBuffer, font_data: Vec<u8>) -> (r: Console)
        requires
            framebuffer.wf(),
            framebuffer.width_spec() >= PADDED_FONT_WIDTH,
            framebuffer.height_spec() >= PADDED_FONT_HEIGHT,
            font_data@.len() == FONT_DATA_BYTES,
        ensures
            r.wf(),
            r.row() == 0,
            r.column() == 0,
            r.columns() == framebuffer.width_spec() / (PADDED_FONT_WIDTH as u32),
            r.rows() == framebuffer.height_spec() / (PADDED_FONT_HEIGHT as u32),
    {
        let num_columns = framebuffer.get_width() / (PADDED_FONT_WIDTH as u32);
        let num_rows = framebuffer.get_height() / (PADDED_FONT_HEIGHT as u32);
        let mut framebuffer = framebuffer;
        let height = framebuffer.get_height();
        framebuffer.shift_up(height, Color { r: 0, g: 0, b: 0, a: 255 });
        Console { framebuffer, cur_column: 0, cur_row: 0, num_columns, num_rows, font_data }
    }

    /// Move the cursor to the start of the next line, scrolling the screen
    /// up by one text row when it was on the last line.
    pub fn newline(&mut self)
        requires
            old(self).wf(),
        ensures
            final(self).wf(),
            final(self).columns() == old(self).columns(),
            final(self).rows() == old(self).rows(),
            final(self).column() == 0,
            final(self).row() == (if old(self).row() + 1 == old(self).rows() {
                old(self).row() as int
            } else {
                old(self).row() + 1
            }),
    {
        self.cur_column = 0;
        self.cur_row = self.cur_row + 1;
        if self.cur_row == self.num_rows {
            self.cur_row = self.cur_row - 1;
            proof {
                lemma_grid_fits(
                    self.framebuffer.height_spec() as int,
                    PADDED_FONT_HEIGHT as int,
                    self.num_rows as int,
                );
            }
            self.framebuffer.shift_up(PADDED_FONT_HEIGHT as u32, background_color());
        }
    }

    /// Clear the whole screen to the background color and put the cursor
    /// at the top left.
    pub fn clear(&mut self)
        requires
            old(self).wf(),
        ensures
            final(self).wf(),
            final(self).columns() == old(self).columns(),
            final(self).rows() == old(self).rows(),
            final(self).column() == 0,
            final(self).row() == 0,
    {
        self.cur_row = 0;
        self.cur_column = 0;
        let height = self.framebuffer.get_height();
        self.framebuffer.shift_up(height, background_color());
    }

    /// Draw the glyph of a character at the cursor and advance the cursor,
    /// wrapping and scrolling at the right edge.
    fn put_glyph(&mut self, c: char)
        requires
            old(self).wf(),
        ensures
            final(self).wf(),
            final(self).columns() == old(self).columns(),
            final(self).rows() == old(self).rows(),
            old(self).column() + 1 < old(self).columns() ==> final(self).column() == old(
                self,
            ).column() + 1 && final(self).row() == old(self).row(),
            old(self).column() + 1 == old(self).columns() ==> final(self).column() == 0,
    {
        let char_pixels = get_char_pixels(c, self.font_data.as_slice());
        proof {
            lemma_grid_fits(
                self.framebuffer.width_spec() as int,
                PADDED_FONT_WIDTH as int,
                self.num_columns as int,
            );
            lemma_grid_fits(
                self.framebuffer.height_spec() as int,
                PADDED_FONT_HEIGHT as int,
                self.num_rows as int,
            );
            lemma_cell_origin(
                self.cur_column as int,
                self.num_columns as int,
                PADDED_FONT_WIDTH as int,
            );
            lemma_cell_origin(
                self.cur_row as int,
                self.num_rows as int,
                PADDED_FONT_HEIGHT as int,
            );
        }
        let base_x: u32 = self.cur_column * (PADDED_FONT_WIDTH as u32);
        let base_y: u32 = self.cur_row * (PADDED_FONT_HEIGHT as u32);
        let mut x: usize = 0;
        while x < PADDED_FONT_WIDTH
            invariant
                self.wf(),
                self.columns() == old(self).columns(),
                self.rows() == old(self).rows(),
                self.column() == old(self).column(),
                self.row() == old(self).row(),
                x <= PADDED_FONT_WIDTH,
                char_pixels@.len() == PADDED_FONT_WIDTH,
                forall|i: int|
                    0 <= i < PADDED_FONT_WIDTH ==> (#[trigger] char_pixels@[i])@.len()
                        == PADDED_FONT_HEIGHT,
                base_x + PADDED_FONT_WIDTH <= self.framebuffer.width_spec(),
                base_y + PADDED_FONT_HEIGHT <= self.framebuffer.height_spec(),
            decreases PADDED_FONT_WIDTH - x,
        {
            let mut y: usize = 0;
            while y < PADDED_FONT_HEIGHT
                invariant
                    self.wf(),
                    self.columns() == old(self).columns(),
                    self.rows() == old(self).rows(),
                    self.column() == old(self).column(),
                    self.row() == old(self).row(),
                    x < PADDED_FONT_WIDTH,
                    y <= PADDED_FONT_HEIGHT,
                    char_pixels@.len() == PADDED_FONT_WIDTH,
                    forall|i: int|
                        0 <= i < PADDED_FONT_WIDTH ==> (#[trigger] char_pixels@[i])@.len()
                            == PADDED_FONT_HEIGHT,
                    base_x + PADDED_FONT_WIDTH <= self.framebuffer.width_spec(),
                    base_y + PADDED_FONT_HEIGHT <= self.framebuffer.height_spec(),
                decreases PADDED_FONT_HEIGHT - y,
            {
                if char_pixels[x][y] {
                    self.framebuffer.set_pixel(
                        base_x + (x as u32),
                        base_y + (y as u32),
                        font_color(),
                    );
                }
                y += 1;
            }
            x += 1;
        }
        if self.cur_column + 1 == self.num_columns {
            self.newline();
        } else {
            self.cur_column = self.cur_column + 1;
        }
    }

    /// Write one character: newline, carriage return and tab move the
    /// cursor; anything else draws its glyph and advances.
    pub fn write_char(&mut self, c: char)
        requires
            old(self).wf(),
        ensures
            final(self).wf(),
            final(self).columns() == old(self).columns(),
            final(self).rows() == old(self).rows(),
            c == '\n' ==> final(self).column() == 0,
            c == '\r' ==> final(self).column() == 0 && final(self).row() == old(self).row(),
            c == '\t' ==> final(self).column() % 4 == 0,
            c != '\n' && c != '\r' && c != '\t' && old(self).column() + 1 < old(self).columns()
                ==> final(self).column() == old(self).column() + 1 && final(self).row() == old(self).row(),
            c != '\n' && c != '\r' && c != '\t' && old(self).column() + 1 == old(self).columns()
                ==> final(self).column() == 0,
    {
        if c == '\n' {
            self.newline();
        } else if c == '\r' {
            self.cur_column = 0;
        } else if c == '\t' {
            self.put_glyph(' ');
            while self.cur_column % 4 != 0
                invariant
                    self.wf(),
                    self.columns() == old(self).columns(),
                    self.rows() == old(self).rows(),
                decreases
                        (if self.column() % 4 == 0 {
                            0int
                        } else {
                            4int - self.column() % 4
                        }),
            {
                self.put_glyph(' ');
            }
        } else {
            self.put_glyph(c);
        }
    }

    /// Write every character of a string in order.
    pub fn write_str(&mut self, s: &str)
        requires
            old(self).wf(),
        ensures
            final(self).wf(),
            final(self).columns() == old(self).columns(),
            final(self).rows() == old(self).rows(),
    {
        let n = s.unicode_len();
        let mut i: usize = 0;
        while i < n
            invariant
                self.wf(),
                self.columns() == old(self).columns(),
                self.rows() == old(self).rows(),
                n == s@.len(),
                i <= n,
            decreases n - i,
        {
            let c = s.get_char(i);
            self.write_char(c);
            i += 1;
        }
    }
}

/// The character grid's pixels fit the screen dimension they divide.
proof fn lemma_grid_fits(extent: int, cell: int, cells: int)
    requires
        cell >= 1,
        extent >= 0,
        cells == extent / cell,
    ensures
        cells * cell <= extent,
{
    vstd::arithmetic::div_mod::lemma_fundamental_div_mod(extent, cell);
    vstd::arithmetic::div_mod::lemma_mod_bound(extent, cell);
    assert(cells * cell == cell * cells) by (nonlinear_arith);
}

/// A cell strictly before the last one leaves room for a whole cell.
proof fn lemma_cell_origin(index: int, cells: int, cell: int)
    requires
        0 <= index < cells,
        cell >= 1,
    ensures
        index * cell + cell <= cells * cell,
        0 <= index * cell,
        index * cell + cell == (index + 1) * cell,
{
    assert(index * cell + cell == (index + 1) * cell && (index + 1) * cell <= cells * cell && 0
        <= index * cell) by (nonlinear_arith)
        requires
            0 <= index < cells,
            cell >= 1,
    ;
}

} // verus!
