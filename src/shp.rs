//! SHP sprites: a header, per-frame headers, and frame payloads of palette indices, raw or
//! compressed per row.

use vstd::prelude::*;
use crate::bytes::{le_u16, le_u32, read_u16_le, read_u32_le};
use crate::error::Ra2Error;
use crate::palette::{color_rgba, Palette};
use vstd::slice::slice_to_vec;

verus! {

/// The sprite header.
#[derive(Copy, Clone, Debug, PartialEq, Eq, Structural)]
pub struct ShpHeader {
    /// Unused; zero.
    pub reserved: u16,
    /// The width of the sprite.
    pub width: u16,
    /// The height of the sprite.
    pub height: u16,
    /// The number of frames.
    pub number_of_frames: u16,
}

/// Size of the sprite header.
pub const SHP_HEADER_SIZE: usize = 8;

/// Size of a frame header.
pub const FRAME_HEADER_SIZE: usize = 24;

/// The frame flag of a payload compressed per row.
pub const RLE_FLAG: u8 = 0x02;

/// The sprite header stored at the start of `d`.
pub open spec fn header_at(d: Seq<u8>) -> ShpHeader {
    ShpHeader { reserved: le_u16(d, 0), width: le_u16(d, 2), height: le_u16(d, 4), number_of_frames: le_u16(d, 6) }
}

/// Reads the sprite header.
pub fn read_file_header(data: &[u8]) -> (r: Result<ShpHeader, Ra2Error>)
    ensures
        r is Ok <==> data@.len() >= 8,
        r matches Ok(h) ==> h == header_at(data@),
        r matches Err(e) ==> e is InvalidFormat,
{
    if data.len() < SHP_HEADER_SIZE {
        return Err(Ra2Error::InvalidFormat { message: "the sprite header is cut short".to_string() });
    }
    Ok(ShpHeader {
        reserved: read_u16_le(data, 0),
        width: read_u16_le(data, 2),
        height: read_u16_le(data, 4),
        number_of_frames: read_u16_le(data, 6),
    })
}

/// `n` zero bytes.
pub open spec fn zeros(n: nat) -> Seq<u8> {
    Seq::new(n, |i: int| 0u8)
}

/// The expansion of the control bytes of a row from `p` on, `remaining` of them counted
/// as the row length counts them, and the position after them; `None` when the data ends
/// first. A zero control byte is followed by a count of transparent pixels; any other is a
/// palette index.
pub open spec fn row_expand(data: Seq<u8>, p: int, remaining: int) -> Option<(Seq<u8>, int)>
    decreases remaining,
{
    if remaining <= 0 {
        Some((seq![], p))
    } else if p < 0 || p >= data.len() {
        None
    } else if data[p] == 0 {
        if p + 1 >= data.len() {
            None
        } else {
            match row_expand(data, p + 2, if remaining >= 2 { remaining - 2 } else { 0 }) {
                None => None,
                Some((rest, q)) => Some((zeros(data[p + 1] as nat) + rest, q)),
            }
        }
    } else {
        match row_expand(data, p + 1, remaining - 1) {
            None => None,
            Some((rest, q)) => Some((seq![data[p]] + rest, q)),
        }
    }
}

/// The pixels of an expansion, or none.
pub open spec fn expanded(o: Option<(Seq<u8>, int)>) -> Seq<u8> {
    match o {
        Some((line, _)) => line,
        None => seq![],
    }
}

/// A row cut or padded with zeros to `w` pixels.
pub open spec fn fit_row(line: Seq<u8>, w: int) -> Seq<u8> {
    Seq::new(w as nat, |i: int| if i < line.len() { line[i] } else { 0u8 })
}

/// The pixels of `h` compressed rows of width `w` from `p` on; `None` when the data ends
/// first. Each row starts with its length, which counts its own two bytes.
pub open spec fn rle_rows(data: Seq<u8>, p: int, w: int, h: int) -> Option<Seq<u8>>
    decreases h,
{
    if h <= 0 {
        Some(seq![])
    } else if p < 0 || p + 2 > data.len() {
        None
    } else {
        match row_expand(data, p + 2, le_u16(data, p) - 2) {
            None => None,
            Some((line, q)) => match rle_rows(data, q, w, h - 1) {
                None => None,
                Some(rest) => Some(fit_row(line, w) + rest),
            },
        }
    }
}

/// `s` in front of what `o` holds.
pub open spec fn prepend(s: Seq<u8>, o: Option<Seq<u8>>) -> Option<Seq<u8>> {
    match o {
        None => None,
        Some(t) => Some(s + t),
    }
}

/// Expands `frame_height` compressed rows of `frame_width` pixels that start at `start`.
pub fn decompress_rle_data(data: &[u8], start: usize, frame_width: u16, frame_height: u16) -> (r: Result<Vec<u8>, Ra2Error>)
    ensures
        match rle_rows(data@, start as int, frame_width as int, frame_height as int) {
            None => r matches Err(Ra2Error::InvalidFormat { .. }),
            Some(pixels) => r matches Ok(v) && v@ == pixels,
        },
        r matches Ok(v) ==> v@.len() == frame_width * frame_height,
{
    let n = data.len();
    let mut out: Vec<u8> = Vec::new();
    let mut p: usize = start;
    let ghost whole = rle_rows(data@, start as int, frame_width as int, frame_height as int);
    for row in 0..frame_height
        invariant
            n == data@.len(),
            whole == rle_rows(data@, start as int, frame_width as int, frame_height as int),
            whole == prepend(out@, rle_rows(data@, p as int, frame_width as int, (frame_height - row) as int)),
            out@.len() == row * frame_width,
    {
        if p > n || n - p < 2 {
            return Err(Ra2Error::InvalidFormat { message: "a row is cut short".to_string() });
        }
        let row_length = read_u16_le(data, p);
        let mut q: usize = p + 2;
        let mut consumed: u32 = 2;
        let mut line: Vec<u8> = Vec::new();
        let ghost row_whole = row_expand(data@, p + 2, row_length - 2);
        while consumed < row_length as u32
            invariant
                n == data@.len(),
                consumed <= 65537,
                p + 2 <= n,
                whole == rle_rows(data@, start as int, frame_width as int, frame_height as int),
                rle_rows(data@, p as int, frame_width as int, (frame_height - row) as int) == match row_whole {
                    None => None,
                    Some((l, e)) => match rle_rows(data@, e, frame_width as int, (frame_height - row - 1) as int) {
                        None => None,
                        Some(rest) => Some(fit_row(l, frame_width as int) + rest),
                    },
                },
                whole == prepend(out@, rle_rows(data@, p as int, frame_width as int, (frame_height - row) as int)),
                row_whole == row_expand(data@, p + 2, row_length - 2),
                row_whole == match row_expand(data@, q as int, row_length - consumed) {
                    None => None::<(Seq<u8>, int)>,
                    Some((rest, e)) => Some((line@ + rest, e)),
                },
            decreases row_length as int + 2 - consumed,
        {
            if q >= n {
                assert(row_whole is None);
                return Err(Ra2Error::InvalidFormat { message: "a row is cut short".to_string() });
            }
            let control = data[q];
            if control == 0 {
                if q + 1 >= n {
                    assert(row_whole is None);
                    return Err(Ra2Error::InvalidFormat { message: "a row is cut short".to_string() });
                }
                let count = data[q + 1];
                let ghost before = line@;
                for k in 0..count
                    invariant
                        line@ == before + zeros(k as nat),
                {
                    line.push(0);
                    assert(line@ =~= before + zeros((k + 1) as nat));
                }
                let ghost rem_old = row_length - consumed;
                q = q + 2;
                consumed = consumed + 2;
                assert(row_expand(data@, q as int, row_length - consumed) == row_expand(
                    data@,
                    q as int,
                    if rem_old >= 2 {
                        rem_old - 2
                    } else {
                        0
                    },
                ));
                assert(before + (zeros(count as nat) + expanded(row_expand(data@, q as int, row_length - consumed)))
                    =~= line@ + expanded(row_expand(data@, q as int, row_length - consumed)));
            } else {
                let ghost before = line@;
                line.push(control);
                q = q + 1;
                consumed = consumed + 1;
                assert(before + (seq![control] + expanded(row_expand(data@, q as int, row_length - consumed)))
                    =~= line@ + expanded(row_expand(data@, q as int, row_length - consumed)));
            }
        }
        assert(row_expand(data@, q as int, row_length - consumed) == Some((Seq::<u8>::empty(), q as int)));
        assert(line@ + Seq::<u8>::empty() =~= line@);
        assert(row_whole == Some((line@, q as int)));
        let ghost before = out@;
        for i in 0..frame_width
            invariant
                out@ == before + fit_row(line@, frame_width as int).subrange(0, i as int),
        {
            if (i as usize) < line.len() {
                out.push(line[i as usize]);
            } else {
                out.push(0);
            }
            assert(out@ =~= before + fit_row(line@, frame_width as int).subrange(0, i + 1));
        }
        assert(fit_row(line@, frame_width as int).subrange(0, frame_width as int) =~= fit_row(line@, frame_width as int));
        assert(out@.len() == (row + 1) * frame_width) by (nonlinear_arith)
            requires
                out@.len() == row * frame_width + frame_width,
        ;
        assert(whole == prepend(out@, rle_rows(data@, q as int, frame_width as int, (frame_height - row - 1) as int)))
            by {
            assert(fit_row(line@, frame_width as int) == out@.subrange(before.len() as int, out@.len() as int));
            assert(out@ =~= before + fit_row(line@, frame_width as int));
            match rle_rows(data@, q as int, frame_width as int, (frame_height - row - 1) as int) {
                None => {},
                Some(rest) => {
                    assert(before + (fit_row(line@, frame_width as int) + rest) =~= out@ + rest);
                },
            }
        }
        p = q;
    }
    assert(out@.len() == frame_width * frame_height) by (nonlinear_arith)
        requires
            out@.len() == frame_height * frame_width,
    ;
    Ok(out)
}

/// One frame: where it sits in the sprite, how it is stored, and its palette indices.
#[derive(Clone, Debug)]
pub struct ShpFrame {
    /// Left edge within the sprite.
    pub x: u16,
    /// Top edge within the sprite.
    pub y: u16,
    /// The width of this frame.
    pub width: u16,
    /// The height of this frame.
    pub height: u16,
    /// Storage flags; 0x02 marks rows compressed with run lengths.
    pub flags: u8,
    /// Unused.
    pub reserved1: [u8; 3],
    /// Unused.
    pub color: u32,
    /// Unused.
    pub reserved2: [u8; 4],
    /// Where the payload starts; zero for an empty frame.
    pub offset: u32,
    /// The palette indices, `width * height` of them, row by row.
    pub buffer: Vec<u8>,
}

/// Whether `f` holds the frame header stored at `p`, with no pixels yet.
pub open spec fn frame_header_at(d: Seq<u8>, p: int, f: ShpFrame) -> bool {
    &&& f.x == le_u16(d, p)
    &&& f.y == le_u16(d, p + 2)
    &&& f.width == le_u16(d, p + 4)
    &&& f.height == le_u16(d, p + 6)
    &&& f.flags == d[p + 8]
    &&& f.reserved1@ == d.subrange(p + 9, p + 12)
    &&& f.color == le_u32(d, p + 12)
    &&& f.reserved2@ == d.subrange(p + 16, p + 20)
    &&& f.offset == le_u32(d, p + 20)
}

/// The palette indices of a `w` by `h` frame with the given flags whose payload starts at
/// `offset`; `None` when the payload does not fit the data.
pub open spec fn payload_pixels(d: Seq<u8>, w: u16, h: u16, flags: u8, offset: u32) -> Option<Seq<u8>> {
    let n = w * h;
    if offset == 0 {
        Some(zeros(n as nat))
    } else if flags & 2 == 0 {
        if offset + n <= d.len() {
            Some(d.subrange(offset as int, offset + n))
        } else {
            None
        }
    } else {
        rle_rows(d, offset as int, w as int, h as int)
    }
}

/// The palette indices of a frame whose header is `f`; `None` when the payload does not fit
/// the data.
pub open spec fn frame_pixels(d: Seq<u8>, f: ShpFrame) -> Option<Seq<u8>> {
    payload_pixels(d, f.width, f.height, f.flags, f.offset)
}

impl ShpFrame {
    /// Reads the frame header stored at `p`.
    pub fn read_frame_header(data: &[u8], p: usize) -> (r: Result<ShpFrame, Ra2Error>)
        ensures
            r is Ok <==> p + 24 <= data@.len(),
            r matches Ok(f) ==> frame_header_at(data@, p as int, f) && f.buffer@.len() == 0,
            r matches Err(e) ==> e is InvalidFormat,
    {
        if p > data.len() || data.len() - p < FRAME_HEADER_SIZE {
            return Err(Ra2Error::InvalidFormat { message: "the frame header is cut short".to_string() });
        }
        let reserved1: [u8; 3] = [data[p + 9], data[p + 10], data[p + 11]];
        let reserved2: [u8; 4] = [data[p + 16], data[p + 17], data[p + 18], data[p + 19]];
        assert(reserved1@ =~= data@.subrange(p + 9, p + 12));
        assert(reserved2@ =~= data@.subrange(p + 16, p + 20));
        Ok(ShpFrame {
            x: read_u16_le(data, p),
            y: read_u16_le(data, p + 2),
            width: read_u16_le(data, p + 4),
            height: read_u16_le(data, p + 6),
            flags: data[p + 8],
            reserved1,
            color: read_u32_le(data, p + 12),
            reserved2,
            offset: read_u32_le(data, p + 20),
            buffer: Vec::new(),
        })
    }

    /// Reads the frame's palette indices from the sprite data: none stored for an empty
    /// frame (all transparent), else `width * height` raw bytes or compressed rows.
    pub fn read_frame_data(&mut self, data: &[u8]) -> (r: Result<(), Ra2Error>)
        ensures
            match frame_pixels(data@, *old(self)) {
                None => r matches Err(Ra2Error::InvalidFormat { .. }),
                Some(pixels) => r is Ok && final(self).buffer@ == pixels,
            },
            r is Ok ==> final(self).buffer@.len() == old(self).width * old(self).height,
            final(self).x == old(self).x && final(self).y == old(self).y,
            final(self).width == old(self).width && final(self).height == old(self).height,
            final(self).flags == old(self).flags && final(self).offset == old(self).offset,
            final(self).reserved1 == old(self).reserved1 && final(self).color == old(self).color,
            final(self).reserved2 == old(self).reserved2,
    {
        assert(self.width * self.height <= 0xFFFF_FFFF) by (nonlinear_arith)
            requires
                self.width <= 0xFFFF,
                self.height <= 0xFFFF,
        ;
        let n = self.width as usize * self.height as usize;
        if self.offset == 0 {
            self.buffer = vec![0u8; n];
            assert(self.buffer@ =~= zeros(n as nat));
            return Ok(());
        }
        let start = self.offset as usize;
        if self.flags & RLE_FLAG == 0 {
            if start > data.len() || data.len() - start < n {
                return Err(Ra2Error::InvalidFormat { message: "the frame payload is cut short".to_string() });
            }
            self.buffer = slice_to_vec(&data[start..start + n]);
        } else {
            self.buffer = decompress_rle_data(data, start, self.width, self.height)?;
        }
        Ok(())
    }

    /// Renders the frame into a `width` by `depth` RGBA image: the frame's pixels at its
    /// place, index 0 transparent, the rest through the palette; transparent elsewhere.
    /// A frame without `width * height` indices is `InvalidFormat`; a frame outside the
    /// image, or an image of 2^30 pixels or more (its bytes must be countable in a 32-bit
    /// `usize`), is `OutOfBoundary`.
    pub fn render(&self, palette: &Palette, width: u32, depth: u32) -> (r: Result<RgbaImage, Ra2Error>)
        ensures
            r is Ok <==> frame_fits(*self, width as int, depth as int),
            r matches Ok(img) ==> img.width == width && img.height == depth && img.pixels@
                == image_bytes(*self, *palette, width as int, depth as int),
            r matches Err(e) ==> e is InvalidFormat || e is OutOfBoundary,
    {
        assert(self.width * self.height <= 0xFFFF_FFFF) by (nonlinear_arith)
            requires
                self.width <= 0xFFFF,
                self.height <= 0xFFFF,
        ;
        if self.buffer.len() != self.width as usize * self.height as usize {
            return Err(Ra2Error::InvalidFormat { message: "the frame holds the wrong number of pixels".to_string() });
        }
        if self.x as u32 + self.width as u32 > width || self.y as u32 + self.height as u32 > depth {
            return Err(Ra2Error::OutOfBoundary { limit: width as usize, message: "the frame lies outside the image".to_string() });
        }
        assert(width * depth <= 0xFFFF_FFFF_FFFF_FFFF) by (nonlinear_arith)
            requires
                width <= 0xFFFF_FFFF,
                depth <= 0xFFFF_FFFF,
        ;
        if width as u64 * depth as u64 > 0x3FFF_FFFF {
            return Err(Ra2Error::OutOfBoundary { limit: 0x3FFF_FFFF, message: "the image is too large".to_string() });
        }
        let x0 = self.x as u32;
        let y0 = self.y as u32;
        let w = self.width as u32;
        let h = self.height as u32;
        let mut pixels: Vec<u8> = Vec::new();
        for py in 0..depth
            invariant
                self.buffer@.len() == w * h,
                x0 == self.x && y0 == self.y && w == self.width && h == self.height,
                x0 + w <= width && y0 + h <= depth,
                pixels@ == image_bytes(*self, *palette, width as int, py as int),
        {
            let ghost before = pixels@;
            for px in 0..width
                invariant
                    self.buffer@.len() == w * h,
                    x0 == self.x && y0 == self.y && w == self.width && h == self.height,
                    pixels@ == before + row_rgba(*self, *palette, px as int, py as int),
            {
                let rgba: [u8; 4] = if x0 <= px && px < x0 + w && y0 <= py && py < y0 + h {
                    let dx = px - x0;
                    let dy = py - y0;
                    assert(dy * w + dx < w * h && w * h <= 0xFFFF_FFFF) by (nonlinear_arith)
                        requires
                            dx < w,
                            dy < h,
                            w <= 0xFFFF,
                            h <= 0xFFFF,
                    ;
                    let index = (dy as usize) * (w as usize) + dx as usize;
                    let c = self.buffer[index];
                    if c == 0 {
                        [0u8, 0, 0, 0]
                    } else {
                        palette.colors[c as usize].to_rgba()
                    }
                } else {
                    [0u8, 0, 0, 0]
                };
                assert(rgba@ =~= pixel_rgba(*self, *palette, px as int, py as int));
                let ghost mid = pixels@;
                pixels.push(rgba[0]);
                pixels.push(rgba[1]);
                pixels.push(rgba[2]);
                pixels.push(rgba[3]);
                assert(pixels@ =~= mid + rgba@);
                assert(pixels@ =~= before + row_rgba(*self, *palette, px + 1, py as int));
            }
            assert(pixels@ =~= image_bytes(*self, *palette, width as int, py + 1));
        }
        Ok(RgbaImage { width, height: depth, pixels })
    }
}

/// Whether a frame can be rendered into a `width` by `depth` image: it holds
/// `width * height` indices and lies within the image, and the image is of a size this
/// library renders.
pub open spec fn frame_fits(f: ShpFrame, width: int, depth: int) -> bool {
    &&& f.buffer@.len() == f.width * f.height
    &&& f.x + f.width <= width
    &&& f.y + f.height <= depth
    &&& width * depth <= 0x3FFF_FFFF
}

/// The RGBA bytes of palette index `c`: transparent black for 0, else the palette color.
pub open spec fn index_rgba(p: Palette, c: u8) -> Seq<u8> {
    if c == 0 {
        seq![0u8, 0u8, 0u8, 0u8]
    } else {
        color_rgba(p.colors@[c as int])
    }
}

/// The RGBA bytes of the image pixel at (`px`, `py`).
pub open spec fn pixel_rgba(f: ShpFrame, p: Palette, px: int, py: int) -> Seq<u8> {
    if f.x <= px < f.x + f.width && f.y <= py < f.y + f.height {
        index_rgba(p, f.buffer@[(py - f.y) * f.width + (px - f.x)])
    } else {
        seq![0u8, 0u8, 0u8, 0u8]
    }
}

/// The RGBA bytes of the first `n` pixels of image row `py`.
pub open spec fn row_rgba(f: ShpFrame, p: Palette, n: int, py: int) -> Seq<u8>
    decreases n,
{
    if n <= 0 {
        seq![]
    } else {
        row_rgba(f, p, n - 1, py) + pixel_rgba(f, p, n - 1, py)
    }
}

/// The RGBA bytes of the first `m` rows of a `width`-pixel image.
pub open spec fn image_bytes(f: ShpFrame, p: Palette, width: int, m: int) -> Seq<u8>
    decreases m,
{
    if m <= 0 {
        seq![]
    } else {
        image_bytes(f, p, width, m - 1) + row_rgba(f, p, width, m - 1)
    }
}

/// A one-pixel frame at the origin, rendered into a one-pixel image, gives transparent
/// black for index 0 and otherwise the palette color stretched to 8 bits with alpha 255.
pub proof fn lemma_single_pixel_render(f: ShpFrame, p: Palette)
    requires
        f.x == 0 && f.y == 0 && f.width == 1 && f.height == 1,
        f.buffer@.len() == 1,
    ensures
        image_bytes(f, p, 1, 1) == if f.buffer@[0] == 0 {
            seq![0u8, 0u8, 0u8, 0u8]
        } else {
            color_rgba(p.colors@[f.buffer@[0] as int])
        },
{
    assert(row_rgba(f, p, 0, 0) =~= Seq::<u8>::empty());
    assert(image_bytes(f, p, 1, 0) =~= Seq::<u8>::empty());
    assert(row_rgba(f, p, 1, 0) =~= pixel_rgba(f, p, 0, 0));
    assert(image_bytes(f, p, 1, 1) =~= pixel_rgba(f, p, 0, 0));
}

/// An RGBA image, row by row, four bytes a pixel.
#[derive(Clone, Debug, PartialEq, Eq)]
pub struct RgbaImage {
    /// Width in pixels.
    pub width: u32,
    /// Height in pixels.
    pub height: u32,
    /// The pixel bytes.
    pub pixels: Vec<u8>,
}

/// A sprite held in memory: its header and its bytes, from which frames are read by index.
#[derive(Clone, Debug)]
pub struct ShpReader {
    header: ShpHeader,
    data: Vec<u8>,
}

impl ShpReader {
    /// The header of the sprite.
    pub closed spec fn spec_header(&self) -> ShpHeader {
        self.header
    }

    /// The bytes of the sprite.
    pub closed spec fn spec_data(&self) -> Seq<u8> {
        self.data@
    }

    /// Reads the header of a sprite held in memory.
    pub fn from_bytes(data: Vec<u8>) -> (r: Result<ShpReader, Ra2Error>)
        ensures
            r is Ok <==> data@.len() >= 8,
            r matches Ok(s) ==> s.spec_header() == header_at(data@) && s.spec_data() == data@,
            r matches Err(e) ==> e is InvalidFormat,
    {
        let header = read_file_header(data.as_slice())?;
        Ok(ShpReader { header, data })
    }

    /// The number of frames.
    pub fn animation_frames(&self) -> (r: u32)
        ensures
            r == self.spec_header().number_of_frames,
    {
        self.header.number_of_frames as u32
    }

    /// The width of the sprite.
    pub fn animation_width(&self) -> (r: u32)
        ensures
            r == self.spec_header().width,
    {
        self.header.width as u32
    }

    /// The height of the sprite.
    pub fn animation_height(&self) -> (r: u32)
        ensures
            r == self.spec_header().height,
    {
        self.header.height as u32
    }

    /// The frame at `index`, its header read from `8 + 24 * index` and its pixels from its
    /// payload.
    pub fn get_frame(&self, index: u64) -> (r: Result<ShpFrame, Ra2Error>)
        ensures
            index >= self.spec_header().number_of_frames ==> r matches Err(Ra2Error::OutOfBoundary { .. }),
            index < self.spec_header().number_of_frames ==> {
                let p = 8 + 24 * index;
                let d = self.spec_data();
                if p + 24 > d.len() {
                    r matches Err(Ra2Error::InvalidFormat { .. })
                } else if payload_pixels(d, le_u16(d, p + 4), le_u16(d, p + 6), d[p + 8], le_u32(d, p + 20)) is Some {
                    r is Ok
                } else {
                    r matches Err(Ra2Error::InvalidFormat { .. })
                }
            },
            r matches Ok(f) ==> frame_header_at(self.spec_data(), 8 + 24 * index, f)
                && frame_pixels(self.spec_data(), f) == Some(f.buffer@)
                && f.buffer@.len() == f.width * f.height,
    {
        if index >= self.header.number_of_frames as u64 {
            return Err(Ra2Error::OutOfBoundary { limit: self.header.number_of_frames as usize, message: "no frame has this index".to_string() });
        }
        let p = SHP_HEADER_SIZE + FRAME_HEADER_SIZE * (index as usize);
        let mut frame = ShpFrame::read_frame_header(self.data.as_slice(), p)?;
        let ghost header_only = frame;
        frame.read_frame_data(self.data.as_slice())?;
        assert(frame_pixels(self.data@, frame) == frame_pixels(self.data@, header_only));
        Ok(frame)
    }
}

} // verus!
