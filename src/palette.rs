//! PAL palettes: 256 colors of three 6-bit channels.

use vstd::prelude::*;
use crate::error::Ra2Error;

verus! {

/// A palette color; each channel holds 6 bits in a byte.
#[derive(Copy, Clone, Debug, PartialEq, Eq, Structural)]
pub struct Ra2Color {
    /// Red channel.
    pub red: u8,
    /// Green channel.
    pub green: u8,
    /// Blue channel.
    pub blue: u8,
}

/// A 6-bit channel stretched to 8 bits (times 255/63), kept to its low 8 bits.
pub open spec fn six_to_eight(c: u8) -> u8 {
    ((c as int * 255) / 63) as u8
}

/// Stretches a 6-bit channel to 8 bits: the value times 255, divided by 63.
pub fn convert_6bit_to_8bit(color: u8) -> (r: u8)
    ensures
        r == six_to_eight(color),
{
    let wide: u32 = color as u32 * 255 / 63;
    #[verifier::truncate] (wide as u8)
}

/// Narrows an 8-bit channel to 6 bits (green) or 5 bits (red and blue).
pub fn convert_8bit_to_5or6bit(color: u8, is_green: bool) -> (r: u8)
    ensures
        r == if is_green {
            color / 4
        } else {
            color / 8
        },
{
    let divider: u8 = if is_green {
        4
    } else {
        8
    };
    color / divider
}

/// The RGBA bytes of a color: each channel stretched to 8 bits, alpha 255.
pub open spec fn color_rgba(c: Ra2Color) -> Seq<u8> {
    seq![six_to_eight(c.red), six_to_eight(c.green), six_to_eight(c.blue), 255u8]
}

impl Ra2Color {
    /// The RGBA bytes of the color: each channel stretched to 8 bits, alpha 255.
    pub fn to_rgba(self) -> (r: [u8; 4])
        ensures
            r@ == color_rgba(self),
    {
        let r = [
            convert_6bit_to_8bit(self.red),
            convert_6bit_to_8bit(self.green),
            convert_6bit_to_8bit(self.blue),
            255,
        ];
        assert(r@ =~= color_rgba(self));
        r
    }
}

/// The color stored at entry `i` of PAL bytes.
pub open spec fn pal_color(bytes: Seq<u8>, i: int) -> Ra2Color {
    Ra2Color { red: bytes[3 * i], green: bytes[3 * i + 1], blue: bytes[3 * i + 2] }
}

/// A palette of 256 colors.
#[derive(Copy, Clone, Debug)]
pub struct Palette {
    /// The colors, by index.
    pub colors: [Ra2Color; 256],
}

impl Palette {
    /// Reads a palette from exactly 768 bytes, three channels per color.
    pub fn from_bytes(bytes: &[u8]) -> (r: Result<Palette, Ra2Error>)
        ensures
            r is Ok <==> bytes@.len() == 768,
            r matches Ok(p) ==> forall|i: int| 0 <= i < 256 ==> #[trigger] p.colors@[i] == pal_color(bytes@, i),
            r matches Err(e) ==> e is InvalidFormat,
    {
        if bytes.len() != 768 {
            return Err(Ra2Error::InvalidFormat { message: "a palette holds exactly 768 bytes".to_string() });
        }
        let mut colors: [Ra2Color; 256] = [Ra2Color { red: 0, green: 0, blue: 0 }; 256];
        for i in 0..256
            invariant
                bytes@.len() == 768,
                colors@.len() == 256,
                forall|j: int| 0 <= j < i ==> #[trigger] colors@[j] == pal_color(bytes@, j),
        {
            colors[i] = Ra2Color { red: bytes[i * 3], green: bytes[i * 3 + 1], blue: bytes[i * 3 + 2] };
        }
        Ok(Palette { colors })
    }

    /// Reads a palette from exactly 768 bytes, three channels per color.
    pub fn decode(bytes: &[u8]) -> (r: Result<Palette, Ra2Error>)
        ensures
            r is Ok <==> bytes@.len() == 768,
            r matches Ok(p) ==> forall|i: int| 0 <= i < 256 ==> #[trigger] p.colors@[i] == pal_color(bytes@, i),
            r matches Err(e) ==> e is InvalidFormat,
    {
        Palette::from_bytes(bytes)
    }

    /// The color at `index`.
    pub fn get_color(&self, index: u8) -> (r: Result<Ra2Color, Ra2Error>)
        ensures
            r matches Ok(c) && c == self.colors@[index as int],
    {
        Ok(self.colors[index as usize])
    }
}

} // verus!
