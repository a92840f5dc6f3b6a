//! Framebuffer model: pixel colors, their exact byte layout in each of the
//! four supported pixel formats, and the draw operations the console uses.
//!
//! The pixel store itself is modelled as an owned byte buffer; in the
//! running kernel the same bytes live in the memory the firmware hands out
//! for the display, and the negotiation of address, size and format goes
//! over the mailbox with the machine-facing code.

use vstd::prelude::*;

use crate::mailbox::MailboxTagType;

verus! {

/// A color with one byte per channel.
#[derive(Clone, Copy, Debug, PartialEq, Eq, Structural)]
pub struct Color {
    pub r: u8,
    pub g: u8,
    pub b: u8,
    pub a: u8,
}

/// The pixel formats the firmware can report: 16 or 32 bits per pixel, red
/// or blue first.
#[derive(Clone, Copy, Debug, Hash, Eq, PartialEq, Structural)]
pub enum ColorFormat {
    RGB16,
    RGBA32,
    BGR16,
    BGRA32,
}

impl ColorFormat {
    /// Bytes per pixel.
    pub open spec fn size_spec(self) -> int {
        match self {
            ColorFormat::RGB16 | ColorFormat::BGR16 => 2,
            ColorFormat::RGBA32 | ColorFormat::BGRA32 => 4,
        }
    }

    /// Bytes per pixel.
    pub fn size(&self) -> (r: usize)
        ensures
            r == self.size_spec(),
    {
        match *self {
            ColorFormat::RGB16 | ColorFormat::BGR16 => 2,
            ColorFormat::RGBA32 | ColorFormat::BGRA32 => 4,
        }
    }
}

/// The bytes a color occupies in each format.  The 16-bit formats pack
/// 5 bits of each color channel and 6 of green, split across two bytes.
pub open spec fn encoded_color(c: Color, format: ColorFormat) -> Seq<u8> {
    match format {
        ColorFormat::RGBA32 => seq![c.r, c.g, c.b, c.a],
        ColorFormat::BGRA32 => seq![c.b, c.g, c.r, c.a],
        ColorFormat::RGB16 => seq![((c.g << 3) & 0xe0) | (c.b >> 3), (c.g >> 5) | (c.r & 0xf8)],
        ColorFormat::BGR16 => seq![((c.g << 3) & 0xe0) | (c.r >> 3), (c.g >> 5) | (c.b & 0xf8)],
    }
}

/// The color read back from the bytes at `offset`; the 16-bit formats lose
/// their low channel bits and read back with full alpha.
pub open spec fn decoded_color(s: Seq<u8>, offset: int, format: ColorFormat) -> Color {
    match format {
        ColorFormat::RGBA32 => Color {
            r: s[offset],
            g: s[offset + 1],
            b: s[offset + 2],
            a: s[offset + 3],
        },
        ColorFormat::BGRA32 => Color {
            b: s[offset],
            g: s[offset + 1],
            r: s[offset + 2],
            a: s[offset + 3],
        },
        ColorFormat::RGB16 => Color {
            r: s[offset + 1] & 0xf8,
            g: (s[offset + 1] << 5) | ((s[offset] & 0xe0) >> 3),
            b: s[offset] << 3,
            a: 255,
        },
        ColorFormat::BGR16 => Color {
            b: s[offset + 1] & 0xf8,
            g: (s[offset + 1] << 5) | ((s[offset] & 0xe0) >> 3),
            r: s[offset] << 3,
            a: 255,
        },
    }
}

impl Color {
    /// Write the color's bytes at `offset`, leaving every other byte as it
    /// was.
    pub fn write_address(self, buffer: &mut Vec<u8>, offset: usize, format: ColorFormat)
        requires
            offset + format.size_spec() <= old(buffer)@.len(),
        ensures
            final(buffer)@.len() == old(buffer)@.len(),
            forall|j: int|
                0 <= j < format.size_spec() ==> final(buffer)@[offset + j] == encoded_color(
                    self,
                    format,
                )[j],
            forall|k: int|
                0 <= k < old(buffer)@.len() && !(offset <= k < offset + format.size_spec())
                    ==> final(buffer)@[k] == old(buffer)@[k],
    {
        let n = buffer.len();
        match format {
            ColorFormat::RGBA32 => {
                buffer[offset] = self.r;
                buffer[offset + 1] = self.g;
                buffer[offset + 2] = self.b;
                buffer[offset + 3] = self.a;
            },
            ColorFormat::BGRA32 => {
                buffer[offset] = self.b;
                buffer[offset + 1] = self.g;
                buffer[offset + 2] = self.r;
                buffer[offset + 3] = self.a;
            },
            ColorFormat::RGB16 => {
                buffer[offset] = ((self.g << 3) & 0xe0) | (self.b >> 3);
                buffer[offset + 1] = (self.g >> 5) | (self.r & 0xf8);
            },
            ColorFormat::BGR16 => {
                buffer[offset] = ((self.g << 3) & 0xe0) | (self.r >> 3);
                buffer[offset + 1] = (self.g >> 5) | (self.b & 0xf8);
            },
        }
    }

    /// Read the color stored at `offset`.
    pub fn read_address(buffer: &Vec<u8>, offset: usize, format: ColorFormat) -> (r: Color)
        requires
            offset + format.size_spec() <= buffer@.len(),
        ensures
            r == decoded_color(buffer@, offset as int, format),
    {
        let n = buffer.len();
        match format {
            ColorFormat::RGBA32 => Color {
                r: buffer[offset],
                g: buffer[offset + 1],
                b: buffer[offset + 2],
                a: buffer[offset + 3],
            },
            ColorFormat::BGRA32 => Color {
                b: buffer[offset],
                g: buffer[offset + 1],
                r: buffer[offset + 2],
                a: buffer[offset + 3],
            },
            ColorFormat::RGB16 => {
                let b0 = buffer[offset];
                let b1 = buffer[offset + 1];
                Color { r: b1 & 0xf8, g: (b1 << 5) | ((b0 & 0xe0) >> 3), b: b0 << 3, a: 255 }
            },
            ColorFormat::BGR16 => {
                let b0 = buffer[offset];
                let b1 = buffer[offset + 1];
                Color { b: b1 & 0xf8, g: (b1 << 5) | ((b0 & 0xe0) >> 3), r: b0 << 3, a: 255 }
            },
        }
    }
}

/// The pixel store: `width * height` pixels in the given format, row by
/// row from the top, `format.size()` bytes per pixel.
pub struct FrameBuffer {
    buffer: Vec<u8>,
    width: u32,
    height: u32,
    format: ColorFormat,
}

impl FrameBuffer {
    /// The pixel bytes.
    pub closed spec fn bytes(self) -> Seq<u8> {
        self.buffer@
    }

    /// Width in pixels.
    pub closed spec fn width_spec(self) -> u32 {
        self.width
    }

    /// Height in pixels.
    pub closed spec fn height_spec(self) -> u32 {
        self.height
    }

    /// The pixel format.
    pub closed spec fn format_spec(self) -> ColorFormat {
        self.format
    }

    /// The byte offset of pixel `(x, y)`.
    pub open spec fn pixel_offset(self, x: int, y: int) -> int {
        (y * self.width_spec() + x) * self.format_spec().size_spec()
    }

    /// The dimensions are modest and the buffer holds exactly the pixels.
    pub open spec fn wf(self) -> bool {
        &&& self.width_spec() <= 4096
        &&& self.height_spec() <= 4096
        &&& self.bytes().len() == self.width_spec() * self.height_spec()
            * self.format_spec().size_spec()
    }

    /// A framebuffer of the given geometry with every byte zero.
    pub fn new(width: u32, height: u32, format: ColorFormat) -> (r: FrameBuffer)
        requires
            width <= 4096,
            height <= 4096,
        ensures
            r.wf(),
            r.width_spec() == width,
            r.height_spec() == height,
            r.format_spec() == format,
            forall|k: int| 0 <= k < r.bytes().len() ==> r.bytes()[k] == 0,
    {
        let size = format.size();
        proof {
            assert((width as int) * (height as int) * (size as int) <= 0x400_0000) by (nonlinear_arith)
                requires
                    width <= 4096,
                    height <= 4096,
                    size <= 4,
            ;
        }
        let total: usize = (width as usize) * (height as usize) * size;
        let mut buffer: Vec<u8> = Vec::new();
        let mut k: usize = 0;
        while k < total
            invariant
                buffer@.len() == k,
                k <= total,
                forall|i: int| 0 <= i < k ==> buffer@[i] == 0,
            decreases total - k,
        {
            buffer.push(0);
            k += 1;
        }
        FrameBuffer { buffer, width, height, format }
    }

    /// Width in pixels.
    pub fn get_width(&self) -> (r: u32)
        ensures
            r == self.width_spec(),
    {
        self.width
    }

    /// Height in pixels.
    pub fn get_height(&self) -> (r: u32)
        ensures
            r == self.height_spec(),
    {
        self.height
    }

    /// Store one pixel, leaving every other byte as it was.
    pub fn set_pixel(&mut self, x: u32, y: u32, color: Color)
        requires
            old(self).wf(),
            x < old(self).width_spec(),
            y < old(self).height_spec(),
        ensures
            final(self).wf(),
            final(self).width_spec() == old(self).width_spec(),
            final(self).height_spec() == old(self).height_spec(),
            final(self).format_spec() == old(self).format_spec(),
            forall|j: int|
                0 <= j < old(self).format_spec().size_spec() ==> final(self).bytes()[old(self).pixel_offset(x as int, y as int) + j] == encoded_color(
                    color,
                    old(self).format_spec(),
                )[j],
            forall|k: int|
                0 <= k < old(self).bytes().len() && !(old(self).pixel_offset(x as int, y as int)
                    <= k < old(self).pixel_offset(x as int, y as int) + old(self).format_spec().size_spec()) ==> final(self).bytes()[k] == old(self).bytes()[k],
    {
        let size = self.format.size();
        proof {
            lemma_pixel_offset_in_bounds(
                self.width_spec() as int,
                self.height_spec() as int,
                self.format_spec().size_spec(),
                x as int,
                y as int,
            );
        }
        let offset: usize = ((y as usize) * (self.width as usize) + (x as usize)) * size;
        let format = self.format;
        color.write_address(&mut self.buffer, offset, format);
    }

    /// Read one pixel.
    pub fn get_pixel(&self, x: u32, y: u32) -> (r: Color)
        requires
            self.wf(),
            x < self.width_spec(),
            y < self.height_spec(),
        ensures
            r == decoded_color(self.bytes(), self.pixel_offset(x as int, y as int), self.format_spec()),
    {
        let size = self.format.size();
        proof {
            lemma_pixel_offset_in_bounds(
                self.width_spec() as int,
                self.height_spec() as int,
                self.format_spec().size_spec(),
                x as int,
                y as int,
            );
        }
        let offset: usize = ((y as usize) * (self.width as usize) + (x as usize)) * size;
        Color::read_address(&self.buffer, offset, self.format)
    }

    /// Scroll the contents up by `amount` pixel rows and fill the freed
    /// rows at the bottom with one color.
    pub fn shift_up(&mut self, amount: u32, fill_color: Color)
        requires
            old(self).wf(),
            amount <= old(self).height_spec(),
        ensures
            final(self).wf(),
            final(self).width_spec() == old(self).width_spec(),
            final(self).height_spec() == old(self).height_spec(),
            final(self).format_spec() == old(self).format_spec(),
            forall|k: int|
                0 <= k < (old(self).height_spec() - amount) * old(self).width_spec() * old(self).format_spec().size_spec() ==> final(self).bytes()[k] == old(self).bytes()[k
                    + amount * old(self).width_spec() * old(self).format_spec().size_spec()],
            forall|x: int, y: int, j: int|
                0 <= x < old(self).width_spec() && old(self).height_spec() - amount <= y < old(self).height_spec() && 0 <= j < old(self).format_spec().size_spec() ==> final(self).bytes()[old(self).pixel_offset(x, y) + j] == encoded_color(
                    fill_color,
                    old(self).format_spec(),
                )[j],
    {
        let size = self.format.size();
        let ghost w = self.width_spec() as int;
        let ghost h = self.height_spec() as int;
        let ghost sz = self.format_spec().size_spec();
        let ghost am = amount as int;
        proof {
            assert((w * sz) <= 16384 && (h - am) * (w * sz) + am * (w * sz) == w * h * sz && (h
                - am) * (w * sz) == (h - am) * w * sz && am * (w * sz) == am * w * sz && w * h * sz
                <= 0x400_0000) by (nonlinear_arith)
                requires
                    0 <= w <= 4096,
                    0 <= h <= 4096,
                    0 <= am <= h,
                    1 <= sz <= 4,
            ;
        }
        let row_bytes: usize = (self.width as usize) * size;
        let keep_rows: usize = (self.height - amount) as usize;
        let move_bytes: usize = keep_rows * row_bytes;
        let shift_bytes: usize = (amount as usize) * row_bytes;
        let total: usize = self.buffer.len();
        let mut k: usize = 0;
        while k < move_bytes
            invariant
                self.wf(),
                self.width_spec() == old(self).width_spec(),
                self.height_spec() == old(self).height_spec(),
                self.format_spec() == old(self).format_spec(),
                k <= move_bytes,
                total == self.bytes().len(),
                move_bytes + shift_bytes == total,
                forall|i: int| 0 <= i < k ==> self.bytes()[i] == old(self).bytes()[i + shift_bytes],
                forall|i: int|
                    k <= i < self.bytes().len() ==> self.bytes()[i] == old(self).bytes()[i],
            decreases move_bytes - k,
        {
            let moved = self.buffer[k + shift_bytes];
            self.buffer[k] = moved;
            k += 1;
        }
        let ghost mid = *self;
        let mut q: usize = move_bytes;
        while q < total
            invariant
                self.wf(),
                self.width_spec() == old(self).width_spec(),
                self.height_spec() == old(self).height_spec(),
                self.format_spec() == old(self).format_spec(),
                size == self.format_spec().size_spec(),
                move_bytes <= q <= total,
                total == self.bytes().len(),
                forall|i: int| 0 <= i < move_bytes ==> self.bytes()[i] == mid.bytes()[i],
                forall|i: int|
                    move_bytes <= i < q ==> self.bytes()[i] == encoded_color(
                        fill_color,
                        self.format_spec(),
                    )[(i - move_bytes) % (size as int)],
            decreases total - q,
        {
            let value = encoded_color_byte(fill_color, self.format, (q - move_bytes) % size);
            self.buffer[q] = value;
            q += 1;
        }
        proof {
            assert forall|k2: int|
                0 <= k2 < (h - am) * w * sz implies self.bytes()[k2] == old(self).bytes()[k2 + am
                * w * sz] by {
                assert(self.bytes()[k2] == mid.bytes()[k2]);
            }
            assert forall|x: int, y: int, j: int|
                0 <= x < w && h - am <= y < h && 0 <= j < sz implies self.bytes()[old(self).pixel_offset(x, y) + j] == encoded_color(fill_color, old(self).format_spec())[j] by {
                let position = (y * w + x) * sz + j;
                assert(move_bytes <= position && position < total && (position - move_bytes) % sz
                    == j) by {
                    lemma_fill_byte_position(w, h, sz, am, x, y, j);
                }
            }
        }
    }
}

/// Each encoded byte of a color, selected by its offset within the pixel.
fn encoded_color_byte(c: Color, format: ColorFormat, j: usize) -> (r: u8)
    requires
        j < format.size_spec(),
    ensures
        r == encoded_color(c, format)[j as int],
{
    match format {
        ColorFormat::RGBA32 => {
            if j == 0 {
                c.r
            } else if j == 1 {
                c.g
            } else if j == 2 {
                c.b
            } else {
                c.a
            }
        },
        ColorFormat::BGRA32 => {
            if j == 0 {
                c.b
            } else if j == 1 {
                c.g
            } else if j == 2 {
                c.r
            } else {
                c.a
            }
        },
        ColorFormat::RGB16 => {
            if j == 0 {
                ((c.g << 3) & 0xe0) | (c.b >> 3)
            } else {
                (c.g >> 5) | (c.r & 0xf8)
            }
        },
        ColorFormat::BGR16 => {
            if j == 0 {
                ((c.g << 3) & 0xe0) | (c.r >> 3)
            } else {
                (c.g >> 5) | (c.b & 0xf8)
            }
        },
    }
}

/// A byte of a pixel in the freed bottom rows lies in the filled region,
/// at its own offset within the pixel.
proof fn lemma_fill_byte_position(w: int, h: int, sz: int, am: int, x: int, y: int, j: int)
    requires
        0 <= x < w,
        h - am <= y < h,
        0 <= am <= h,
        0 <= j < sz,
        1 <= sz,
    ensures
        (h - am) * w * sz <= (y * w + x) * sz + j,
        (y * w + x) * sz + j < h * w * sz,
        ((y * w + x) * sz + j - (h - am) * w * sz) % sz == j,
{
    assert((h - am) * w * sz <= (y * w + x) * sz && (y * w + x) * sz + sz <= h * w * sz && (y * w
        + x) * sz - (h - am) * w * sz == ((y * w + x) - (h - am) * w) * sz && 0 <= (y * w + x) - (h
        - am) * w) by (nonlinear_arith)
        requires
            0 <= x < w,
            h - am <= y < h,
            0 <= am <= h,
            1 <= sz,
    ;
    let m = (y * w + x) - (h - am) * w;
    assert((m * sz + j) % sz == j) by {
        vstd::arithmetic::div_mod::lemma_mod_multiples_vanish(m, j, sz);
        vstd::arithmetic::div_mod::lemma_small_mod(j as nat, sz as nat);
    }
}

/// A pixel's bytes lie inside the buffer.
/// A pixel's bytes lie inside the buffer.
proof fn lemma_pixel_offset_in_bounds(width: int, height: int, size: int, x: int, y: int)
    requires
        0 <= x < width,
        0 <= y < height,
        width <= 4096,
        height <= 4096,
        1 <= size <= 4,
    ensures
        0 <= (y * width + x) * size,
        (y * width + x) * size + size <= width * height * size,
        0 <= y * width + x < width * height,
        width * height <= 0x100_0000,
        width * height * size <= 0x400_0000,
{
    assert(0 <= (y * width + x) * size && (y * width + x) * size + size <= width * height * size
        && 0 <= y * width + x < width * height && width * height <= 0x100_0000 && width * height
        * size <= 0x400_0000) by (nonlinear_arith)
        requires
            0 <= x < width,
            0 <= y < height,
            width <= 4096,
            height <= 4096,
            1 <= size <= 4,
    ;
}

/// The tags that negotiate the framebuffer with the firmware.
#[derive(Clone, Copy, Debug, Hash, Eq, PartialEq, Structural)]
pub enum FramebufferTag {
    AllocateBuffer,
    ReleaseBuffer,
    BlackScreen,
    GetPhysicalWidthHeight,
    TestPhysicalWidthHeight,
    SetPhysicalWidthHeight,
    GetVirtualWidthHeight,
    TestVirtualWidthHeight,
    SetVirtualWidthHeight,
    GetDepth,
    TestDepth,
    SetDepth,
    GetPixelOrder,
    TestPixelOrder,
    SetPixelOrder,
    GetAlphaMode,
    TestAlphaMode,
    SetAlphaMode,
    GetPitch,
    GetVirtualOffset,
    TestVirtualOffset,
    SetVirtualOffset,
    GetOverscan,
    TestOverscan,
    SetOverscan,
    GetPalette,
    TestPalette,
    SetPalette,
    SetCursorInfo,
    SetCursorState,
}

impl MailboxTagType for FramebufferTag {
    open spec fn value_spec(&self) -> u32 {
        match *self {
            FramebufferTag::AllocateBuffer => 0x00040001,
            FramebufferTag::ReleaseBuffer => 0x00048001,
            FramebufferTag::BlackScreen => 0x00040002,
            FramebufferTag::GetPhysicalWidthHeight => 0x00040003,
            FramebufferTag::TestPhysicalWidthHeight => 0x00044003,
            FramebufferTag::SetPhysicalWidthHeight => 0x00048003,
            FramebufferTag::GetVirtualWidthHeight => 0x00040004,
            FramebufferTag::TestVirtualWidthHeight => 0x00044004,
            FramebufferTag::SetVirtualWidthHeight => 0x00048004,
            FramebufferTag::GetDepth => 0x00040005,
            FramebufferTag::TestDepth => 0x00044005,
            FramebufferTag::SetDepth => 0x00048005,
            FramebufferTag::GetPixelOrder => 0x00040006,
            FramebufferTag::TestPixelOrder => 0x00044006,
            FramebufferTag::SetPixelOrder => 0x00048006,
            FramebufferTag::GetAlphaMode => 0x00040007,
            FramebufferTag::TestAlphaMode => 0x00044007,
            FramebufferTag::SetAlphaMode => 0x00048007,
            FramebufferTag::GetPitch => 0x00040008,
            FramebufferTag::GetVirtualOffset => 0x00040009,
            FramebufferTag::TestVirtualOffset => 0x00044009,
            FramebufferTag::SetVirtualOffset => 0x00048009,
            FramebufferTag::GetOverscan => 0x0004000A,
            FramebufferTag::TestOverscan => 0x0004400A,
            FramebufferTag::SetOverscan => 0x0004800A,
            FramebufferTag::GetPalette => 0x0004000B,
            FramebufferTag::TestPalette => 0x0004400B,
            FramebufferTag::SetPalette => 0x0004800B,
            FramebufferTag::SetCursorInfo => 0x00008010,
            FramebufferTag::SetCursorState => 0x00008011,
        }
    }

    open spec fn from_value_spec(value: u32) -> Option<FramebufferTag> {
        match value {
            0x00040001 => Some(FramebufferTag::AllocateBuffer),
            0x00048001 => Some(FramebufferTag::ReleaseBuffer),
            0x00040002 => Some(FramebufferTag::BlackScreen),
            0x00040003 => Some(FramebufferTag::GetPhysicalWidthHeight),
            0x00044003 => Some(FramebufferTag::TestPhysicalWidthHeight),
            0x00048003 => Some(FramebufferTag::SetPhysicalWidthHeight),
            0x00040004 => Some(FramebufferTag::GetVirtualWidthHeight),
            0x00044004 => Some(FramebufferTag::TestVirtualWidthHeight),
            0x00048004 => Some(FramebufferTag::SetVirtualWidthHeight),
            0x00040005 => Some(FramebufferTag::GetDepth),
            0x00044005 => Some(FramebufferTag::TestDepth),
            0x00048005 => Some(FramebufferTag::SetDepth),
            0x00040006 => Some(FramebufferTag::GetPixelOrder),
            0x00044006 => Some(FramebufferTag::TestPixelOrder),
            0x00048006 => Some(FramebufferTag::SetPixelOrder),
            0x00040007 => Some(FramebufferTag::GetAlphaMode),
            0x00044007 => Some(FramebufferTag::TestAlphaMode),
            0x00048007 => Some(FramebufferTag::SetAlphaMode),
            0x00040008 => Some(FramebufferTag::GetPitch),
            0x00040009 => Some(FramebufferTag::GetVirtualOffset),
            0x00044009 => Some(FramebufferTag::TestVirtualOffset),
            0x00048009 => Some(FramebufferTag::SetVirtualOffset),
            0x0004000A => Some(FramebufferTag::GetOverscan),
            0x0004400A => Some(FramebufferTag::TestOverscan),
            0x0004800A => Some(FramebufferTag::SetOverscan),
            0x0004000B => Some(FramebufferTag::GetPalette),
            0x0004400B => Some(FramebufferTag::TestPalette),
            0x0004800B => Some(FramebufferTag::SetPalette),
            0x00008010 => Some(FramebufferTag::SetCursorInfo),
            0x00008011 => Some(FramebufferTag::SetCursorState),
            _ => None,
        }
    }

    fn get_value(&self) -> (r: u32) {
        match *self {
            FramebufferTag::AllocateBuffer => 0x00040001,
            FramebufferTag::ReleaseBuffer => 0x00048001,
            FramebufferTag::BlackScreen => 0x00040002,
            FramebufferTag::GetPhysicalWidthHeight => 0x00040003,
            FramebufferTag::TestPhysicalWidthHeight => 0x00044003,
            FramebufferTag::SetPhysicalWidthHeight => 0x00048003,
            FramebufferTag::GetVirtualWidthHeight => 0x00040004,
            FramebufferTag::TestVirtualWidthHeight => 0x00044004,
            FramebufferTag::SetVirtualWidthHeight => 0x00048004,
            FramebufferTag::GetDepth => 0x00040005,
            FramebufferTag::TestDepth => 0x00044005,
            FramebufferTag::SetDepth => 0x00048005,
            FramebufferTag::GetPixelOrder => 0x00040006,
            FramebufferTag::TestPixelOrder => 0x00044006,
            FramebufferTag::SetPixelOrder => 0x00048006,
            FramebufferTag::GetAlphaMode => 0x00040007,
            FramebufferTag::TestAlphaMode => 0x00044007,
            FramebufferTag::SetAlphaMode => 0x00048007,
            FramebufferTag::GetPitch => 0x00040008,
            FramebufferTag::GetVirtualOffset => 0x00040009,
            FramebufferTag::TestVirtualOffset => 0x00044009,
            FramebufferTag::SetVirtualOffset => 0x00048009,
            FramebufferTag::GetOverscan => 0x0004000A,
            FramebufferTag::TestOverscan => 0x0004400A,
            FramebufferTag::SetOverscan => 0x0004800A,
            FramebufferTag::GetPalette => 0x0004000B,
            FramebufferTag::TestPalette => 0x0004400B,
            FramebufferTag::SetPalette => 0x0004800B,
            FramebufferTag::SetCursorInfo => 0x00008010,
            FramebufferTag::SetCursorState => 0x00008011,
        }
    }

    fn from_value(value: u32) -> (r: Option<FramebufferTag>) {
        match value {
            0x00040001 => Some(FramebufferTag::AllocateBuffer),
            0x00048001 => Some(FramebufferTag::ReleaseBuffer),
            0x00040002 => Some(FramebufferTag::BlackScreen),
            0x00040003 => Some(FramebufferTag::GetPhysicalWidthHeight),
            0x00044003 => Some(FramebufferTag::TestPhysicalWidthHeight),
            0x00048003 => Some(FramebufferTag::SetPhysicalWidthHeight),
            0x00040004 => Some(FramebufferTag::GetVirtualWidthHeight),
            0x00044004 => Some(FramebufferTag::TestVirtualWidthHeight),
            0x00048004 => Some(FramebufferTag::SetVirtualWidthHeight),
            0x00040005 => Some(FramebufferTag::GetDepth),
            0x00044005 => Some(FramebufferTag::TestDepth),
            0x00048005 => Some(FramebufferTag::SetDepth),
            0x00040006 => Some(FramebufferTag::GetPixelOrder),
            0x00044006 => Some(FramebufferTag::TestPixelOrder),
            0x00048006 => Some(FramebufferTag::SetPixelOrder),
            0x00040007 => Some(FramebufferTag::GetAlphaMode),
            0x00044007 => Some(FramebufferTag::TestAlphaMode),
            0x00048007 => Some(FramebufferTag::SetAlphaMode),
            0x00040008 => Some(FramebufferTag::GetPitch),
            0x00040009 => Some(FramebufferTag::GetVirtualOffset),
            0x00044009 => Some(FramebufferTag::TestVirtualOffset),
            0x00048009 => Some(FramebufferTag::SetVirtualOffset),
            0x0004000A => Some(FramebufferTag::GetOverscan),
            0x0004400A => Some(FramebufferTag::TestOverscan),
            0x0004800A => Some(FramebufferTag::SetOverscan),
            0x0004000B => Some(FramebufferTag::GetPalette),
            0x0004400B => Some(FramebufferTag::TestPalette),
            0x0004800B => Some(FramebufferTag::SetPalette),
            0x00008010 => Some(FramebufferTag::SetCursorInfo),
            0x00008011 => Some(FramebufferTag::SetCursorState),
            _ => None,
        }
    }
}

/// The geometry, format and buffer address negotiated with the firmware.
#[derive(Clone, Copy, Debug, PartialEq, Eq, Structural)]
pub struct FramebufferConfig {
    pub address: u32,
    pub width: u32,
    pub height: u32,
    pub format: ColorFormat,
}

/// What has been gathered while walking a framebuffer response: each field
/// the kernel asked to set, and whether the walk already went wrong.
pub struct FramebufferResponseState {
    pub address: Option<u32>,
    pub dimensions: Option<(u32, u32)>,
    pub depth: Option<u32>,
    pub pixel_order: Option<u32>,
    pub offset_seen: bool,
    pub failed: bool,
}

/// The gathering state before any record has been seen.
pub open spec fn fb_initial_state() -> FramebufferResponseState {
    FramebufferResponseState {
        address: None,
        dimensions: None,
        depth: None,
        pixel_order: None,
        offset_seen: false,
        failed: false,
    }
}

/// One recognised record folded into the gathering state.  A repeated
/// depth, pixel order, buffer or offset record and a record too short for
/// its values are failures; repeated dimensions keep the latest value;
/// unrelated tags change nothing.
pub open spec fn fb_step(
    state: FramebufferResponseState,
    tag: FramebufferTag,
    values: Seq<u32>,
) -> FramebufferResponseState {
    if state.failed {
        state
    } else {
        match tag {
            FramebufferTag::AllocateBuffer => {
                if state.address is Some || values.len() < 1 {
                    FramebufferResponseState { failed: true, ..state }
                } else {
                    FramebufferResponseState {
                        address: Some(values[0] & 0x3fff_ffff),
                        ..state
                    }
                }
            },
            FramebufferTag::SetVirtualWidthHeight => {
                if values.len() < 2 {
                    FramebufferResponseState { failed: true, ..state }
                } else {
                    FramebufferResponseState { dimensions: Some((values[0], values[1])), ..state }
                }
            },
            FramebufferTag::SetVirtualOffset => {
                if state.offset_seen {
                    FramebufferResponseState { failed: true, ..state }
                } else {
                    FramebufferResponseState { offset_seen: true, ..state }
                }
            },
            FramebufferTag::SetDepth => {
                if state.depth is Some || values.len() < 1 {
                    FramebufferResponseState { failed: true, ..state }
                } else {
                    FramebufferResponseState { depth: Some(values[0]), ..state }
                }
            },
            FramebufferTag::SetPixelOrder => {
                if state.pixel_order is Some || values.len() < 1 {
                    FramebufferResponseState { failed: true, ..state }
                } else {
                    FramebufferResponseState { pixel_order: Some(values[0]), ..state }
                }
            },
            _ => state,
        }
    }
}

/// The gathering state after walking every record of a response.
pub open spec fn fb_fold(
    data: Seq<u32>,
    cur: int,
    end: int,
    state: FramebufferResponseState,
) -> FramebufferResponseState
    decreases end - cur,
{
    if cur >= end || !crate::mailbox::record_wf(data, cur, end) {
        state
    } else {
        let next = cur + 3 + crate::mailbox::record_buffer_len(data, cur);
        match <FramebufferTag as MailboxTagType>::from_value_spec(data[cur]) {
            Option::None => fb_fold(data, next, end, state),
            Option::Some(tag) => fb_fold(
                data,
                next,
                end,
                fb_step(
                    state,
                    tag,
                    data.subrange(cur + 3, cur + 3 + crate::mailbox::record_response_len(data, cur)),
                ),
            ),
        }
    }
}

/// The format named by a depth and pixel order, if the firmware granted a
/// supported pair.
pub open spec fn fb_format_of(depth: u32, pixel_order: u32) -> Option<ColorFormat> {
    if depth == 16 && pixel_order == 1 {
        Some(ColorFormat::RGB16)
    } else if depth == 16 && pixel_order == 0 {
        Some(ColorFormat::BGR16)
    } else if depth == 32 && pixel_order == 1 {
        Some(ColorFormat::RGBA32)
    } else if depth == 32 && pixel_order == 0 {
        Some(ColorFormat::BGRA32)
    } else {
        None
    }
}

/// The configuration a finished gathering state yields: every field must
/// have arrived, the offset must have been acknowledged, and the depth and
/// pixel order must name a supported format.
pub open spec fn fb_finish(state: FramebufferResponseState) -> Option<FramebufferConfig> {
    if state.failed || !(state.address is Some) || !(state.dimensions is Some) || !(state.depth
        is Some) || !(state.pixel_order is Some) || !state.offset_seen {
        None
    } else {
        match fb_format_of(state.depth->Some_0, state.pixel_order->Some_0) {
            None => None,
            Some(format) => Some(
                FramebufferConfig {
                    address: state.address->Some_0,
                    width: state.dimensions->Some_0.0,
                    height: state.dimensions->Some_0.1,
                    format,
                },
            ),
        }
    }
}

/// Folding from an unrecognised stretch is folding from its first
/// recognised record, and folding with none left changes nothing.
proof fn lemma_fb_fold_skips(
    data: Seq<u32>,
    cur: int,
    end: int,
    state: FramebufferResponseState,
)
    ensures
        match crate::mailbox::first_known_record::<FramebufferTag>(data, cur, end) {
            Option::None => fb_fold(data, cur, end, state) == state,
            Option::Some(p) => fb_fold(data, cur, end, state) == fb_fold(
                data,
                p,
                end,
                state,
            ) && crate::mailbox::record_wf(data, p, end) && cur <= p,
        },
    decreases end - cur,
{
    if cur >= end || !crate::mailbox::record_wf(data, cur, end) {
    } else if <FramebufferTag as MailboxTagType>::from_value_spec(data[cur]) is Some {
    } else {
        lemma_fb_fold_skips(data, cur + 3 + crate::mailbox::record_buffer_len(data, cur), end, state);
    }
}

/// Decode the firmware's answer to the framebuffer setup message: the walk
/// over its records as `fb_fold` describes, finished into a configuration.
/// `None` reports a response the kernel cannot use.
pub fn parse_framebuffer_response(response: &crate::mailbox::MailboxResponse<FramebufferTag>) -> (r:
    Option<FramebufferConfig>)
    requires
        response.wf(),
    ensures
        r == fb_finish(fb_fold(response.view_data(), 2, response.end_index(), fb_initial_state())),
{
    let ghost data = response.view_data();
    let ghost end = response.end_index();
    let mut iter = response.iter();
    let mut address: Option<u32> = None;
    let mut dimensions: Option<(u32, u32)> = None;
    let mut depth: Option<u32> = None;
    let mut pixel_order: Option<u32> = None;
    let mut offset_seen: bool = false;
    let mut failed: bool = false;
    let ghost mut state = fb_initial_state();
    loop
        invariant_except_break
            fb_fold(data, 2, end, fb_initial_state()) == fb_fold(
                data,
                iter.position(),
                end,
                state,
            ),
        invariant
            iter.wf(),
            iter.view_data() == data,
            iter.end_index() == end,
            state == (FramebufferResponseState {
                address,
                dimensions,
                depth,
                pixel_order,
                offset_seen,
                failed,
            }),
        ensures
            state == (FramebufferResponseState {
                address,
                dimensions,
                depth,
                pixel_order,
                offset_seen,
                failed,
            }),
            fb_fold(data, 2, end, fb_initial_state()) == state,
        decreases iter.end_index() - iter.position(),
    {
        let ghost position = iter.position();
        let ghost entry_state = state;
        match iter.next() {
            None => {
                proof {
                    lemma_fb_fold_skips(data, position, end, entry_state);
                }
                break ;
            },
            Some((tag, values)) => {
                proof {
                    lemma_fb_fold_skips(data, position, end, entry_state);
                    let p = crate::mailbox::first_known_record::<FramebufferTag>(
                        data,
                        position,
                        end,
                    )->Some_0;
                    assert(crate::mailbox::record_wf(data, p, end));
                    assert(<FramebufferTag as MailboxTagType>::from_value_spec(data[p])
                        == Some(tag));
                    assert(fb_fold(data, p, end, entry_state) == fb_fold(
                        data,
                        p + 3 + crate::mailbox::record_buffer_len(data, p),
                        end,
                        fb_step(
                            entry_state,
                            tag,
                            data.subrange(
                                p + 3,
                                p + 3 + crate::mailbox::record_response_len(data, p),
                            ),
                        ),
                    ));
                    assert(values@ == data.subrange(
                        p + 3,
                        p + 3 + crate::mailbox::record_response_len(data, p),
                    ));
                    state = fb_step(entry_state, tag, values@);
                }
                if !failed {
                    match tag {
                        FramebufferTag::AllocateBuffer => {
                            if address.is_some() || values.len() < 1 {
                                failed = true;
                            } else {
                                address = Some(values[0] & 0x3fff_ffff);
                            }
                        },
                        FramebufferTag::SetVirtualWidthHeight => {
                            if values.len() < 2 {
                                failed = true;
                            } else {
                                dimensions = Some((values[0], values[1]));
                            }
                        },
                        FramebufferTag::SetVirtualOffset => {
                            if offset_seen {
                                failed = true;
                            } else {
                                offset_seen = true;
                            }
                        },
                        FramebufferTag::SetDepth => {
                            if depth.is_some() || values.len() < 1 {
                                failed = true;
                            } else {
                                depth = Some(values[0]);
                            }
                        },
                        FramebufferTag::SetPixelOrder => {
                            if pixel_order.is_some() || values.len() < 1 {
                                failed = true;
                            } else {
                                pixel_order = Some(values[0]);
                            }
                        },
                        _ => {},
                    }
                }
            },
        }
    }
    if failed || offset_seen == false {
        return None;
    }
    let address_value = match address {
        Some(a) => a,
        None => {
            return None;
        },
    };
    let (width, height) = match dimensions {
        Some(d) => d,
        None => {
            return None;
        },
    };
    let depth_value = match depth {
        Some(d) => d,
        None => {
            return None;
        },
    };
    let order_value = match pixel_order {
        Some(o) => o,
        None => {
            return None;
        },
    };
    let format = if depth_value == 16 && order_value == 1 {
        ColorFormat::RGB16
    } else if depth_value == 16 && order_value == 0 {
        ColorFormat::BGR16
    } else if depth_value == 32 && order_value == 1 {
        ColorFormat::RGBA32
    } else if depth_value == 32 && order_value == 0 {
        ColorFormat::BGRA32
    } else {
        return None;
    };
    Some(FramebufferConfig { address: address_value, width, height, format })
}

/// Build the six-tag message that asks the firmware for a 640 by 480,
/// 32-bit, red-first framebuffer.
pub fn framebuffer_setup_message() -> (r: crate::mailbox::MailboxMessageBuffer<FramebufferTag>)
    ensures
        r.wf(),
        r.capacity() == 32,
        r.end_index() == 30,
        r.view_data()[0] == 4 * 31,
        r.view_data()[2] == 0x0004_8004,
        r.view_data()[7] == 0x0004_8003,
        r.view_data()[12] == 0x0004_8009,
        r.view_data()[17] == 0x0004_8005,
        r.view_data()[21] == 0x0004_8006,
        r.view_data()[25] == 0x0004_0001,
        r.view_data()[30] == 0,
{
    let mut message: crate::mailbox::MailboxMessageBuffer<FramebufferTag> =
        crate::mailbox::MailboxMessageBuffer::new(32);
    let dimensions = vec![640u32, 480u32];
    let zeroes = vec![0u32, 0u32];
    let depth = vec![32u32];
    let order = vec![1u32];
    let buffer_request = vec![4096u32, 0u32];
    let r1 = message.try_add_tag(FramebufferTag::SetVirtualWidthHeight, &dimensions);
    assert(r1 is Ok);
    let r2 = message.try_add_tag(FramebufferTag::SetPhysicalWidthHeight, &dimensions);
    assert(r2 is Ok);
    let r3 = message.try_add_tag(FramebufferTag::SetVirtualOffset, &zeroes);
    assert(r3 is Ok);
    let r4 = message.try_add_tag(FramebufferTag::SetDepth, &depth);
    assert(r4 is Ok);
    let r5 = message.try_add_tag(FramebufferTag::SetPixelOrder, &order);
    assert(r5 is Ok);
    let r6 = message.try_add_tag(FramebufferTag::AllocateBuffer, &buffer_request);
    assert(r6 is Ok);
    message
}

/// Every framebuffer tag maps to its value and back to itself.
pub proof fn lemma_framebuffer_tag_round_trip(tag: FramebufferTag)
    ensures
        <FramebufferTag as MailboxTagType>::from_value_spec(
            tag.value_spec(),
        ) == Some(tag),
{
}

} // verus!
