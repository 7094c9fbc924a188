//! Value types of the codec: pixels, the framed image descriptor, and the
//! index-hash function shared by encoder and decoder.
use vstd::prelude::*;

verus! {

use vstd::string::StringSliceAdditionalSpecFns;

/// One image sample: four unsigned 8-bit channels. Equality is channel-wise.
#[derive(Debug, Clone, Copy, PartialEq, Eq, Structural)]
pub struct Pixel {
    pub r: u8,
    pub g: u8,
    pub b: u8,
    pub a: u8,
}

/// The index-table slot of a pixel: `(3r + 5g + 7b + 11a) mod 64`, computed
/// with wide (non-wrapping) arithmetic.
pub open spec fn spec_pixel_hash(p: Pixel) -> int {
    (3 * p.r + 5 * p.g + 7 * p.b + 11 * p.a) % 64
}

/// Value of one hexadecimal digit character.
pub open spec fn spec_hex_val(c: u8) -> int {
    if 65 <= c <= 70 {
        c - 65 + 10
    } else if 97 <= c <= 102 {
        c - 97 + 10
    } else {
        c - 48
    }
}

/// Whether a byte is an ASCII hexadecimal digit.
pub open spec fn spec_is_hex_digit(c: u8) -> bool {
    (65 <= c <= 70) || (97 <= c <= 102) || (48 <= c <= 57)
}

fn hex_val(c: u8) -> (v: u8)
    requires
        spec_is_hex_digit(c),
    ensures
        v == spec_hex_val(c),
        v < 16,
{
    if 65 <= c && c <= 70 {
        c - 65 + 10
    } else if 97 <= c && c <= 102 {
        c - 97 + 10
    } else {
        c - 48
    }
}

impl Pixel {
    /// The pixel a hex string of the given length denotes: 3 or 6 characters
    /// give an opaque colour, 4 or 8 include the alpha channel; short forms
    /// repeat each digit.
    pub open spec fn spec_from_hex(s: Seq<u8>) -> Pixel {
        if s.len() == 3 {
            Pixel {
                r: (17 * spec_hex_val(s[0])) as u8,
                g: (17 * spec_hex_val(s[1])) as u8,
                b: (17 * spec_hex_val(s[2])) as u8,
                a: 255,
            }
        } else if s.len() == 4 {
            Pixel {
                r: (17 * spec_hex_val(s[0])) as u8,
                g: (17 * spec_hex_val(s[1])) as u8,
                b: (17 * spec_hex_val(s[2])) as u8,
                a: (17 * spec_hex_val(s[3])) as u8,
            }
        } else if s.len() == 6 {
            Pixel {
                r: (16 * spec_hex_val(s[0]) + spec_hex_val(s[1])) as u8,
                g: (16 * spec_hex_val(s[2]) + spec_hex_val(s[3])) as u8,
                b: (16 * spec_hex_val(s[4]) + spec_hex_val(s[5])) as u8,
                a: 255,
            }
        } else {
            Pixel {
                r: (16 * spec_hex_val(s[0]) + spec_hex_val(s[1])) as u8,
                g: (16 * spec_hex_val(s[2]) + spec_hex_val(s[3])) as u8,
                b: (16 * spec_hex_val(s[4]) + spec_hex_val(s[5])) as u8,
                a: (16 * spec_hex_val(s[6]) + spec_hex_val(s[7])) as u8,
            }
        }
    }

    /// Parse a pixel from a hex string of 3, 4, 6 or 8 hexadecimal digits.
    pub fn from_hex(hex: &str) -> (p: Pixel)
        requires
            hex.spec_bytes().len() == 3 || hex.spec_bytes().len() == 4 || hex.spec_bytes().len()
                == 6 || hex.spec_bytes().len() == 8,
            forall|i: int| 0 <= i < hex.spec_bytes().len() ==> spec_is_hex_digit(
                #[trigger] hex.spec_bytes()[i],
            ),
        ensures
            p == Self::spec_from_hex(hex.spec_bytes()),
    {
        let bytes = hex.as_bytes();
        if bytes.len() == 3 {
            Pixel {
                r: 17 * hex_val(bytes[0]),
                g: 17 * hex_val(bytes[1]),
                b: 17 * hex_val(bytes[2]),
                a: 255,
            }
        } else if bytes.len() == 4 {
            Pixel {
                r: 17 * hex_val(bytes[0]),
                g: 17 * hex_val(bytes[1]),
                b: 17 * hex_val(bytes[2]),
                a: 17 * hex_val(bytes[3]),
            }
        } else if bytes.len() == 6 {
            Pixel {
                r: 16 * hex_val(bytes[0]) + hex_val(bytes[1]),
                g: 16 * hex_val(bytes[2]) + hex_val(bytes[3]),
                b: 16 * hex_val(bytes[4]) + hex_val(bytes[5]),
                a: 255,
            }
        } else {
            Pixel {
                r: 16 * hex_val(bytes[0]) + hex_val(bytes[1]),
                g: 16 * hex_val(bytes[2]) + hex_val(bytes[3]),
                b: 16 * hex_val(bytes[4]) + hex_val(bytes[5]),
                a: 16 * hex_val(bytes[6]) + hex_val(bytes[7]),
            }
        }
    }

    /// The index-table slot this pixel hashes to.
    pub fn pixel_hash(&self) -> (h: usize)
        ensures
            h == spec_pixel_hash(*self),
            h < 64,
    {
        let r = self.r as usize;
        let g = self.g as usize;
        let b = self.b as usize;
        let a = self.a as usize;
        (r * 3 + g * 5 + b * 7 + a * 11) % 64
    }

    /// Opaque black, the implicit predecessor of the very first pixel.
    pub fn def() -> (p: Pixel)
        ensures
            p == Self::spec_def(),
    {
        Pixel { r: 0, g: 0, b: 0, a: 255 }
    }

    /// Opaque black `(0, 0, 0, 255)`.
    pub open spec fn spec_def() -> Pixel {
        Pixel { r: 0, g: 0, b: 0, a: 255 }
    }

    /// Fully transparent black, the initial value of every index-table slot.
    pub fn zero() -> (p: Pixel)
        ensures
            p == Self::spec_zero(),
    {
        Pixel { r: 0, g: 0, b: 0, a: 0 }
    }

    /// Transparent black `(0, 0, 0, 0)`. Its alpha differs from the default
    /// predecessor's, which keeps a trivially opaque first pixel from
    /// matching its table slot.
    pub open spec fn spec_zero() -> Pixel {
        Pixel { r: 0, g: 0, b: 0, a: 0 }
    }

    /// The pixel a raw byte group denotes: three bytes are an opaque colour,
    /// four include the alpha, anything shorter is the default pixel.
    pub open spec fn spec_from_bytes(value: Seq<u8>) -> Pixel {
        if value.len() < 3 {
            Pixel::spec_def()
        } else if value.len() < 4 {
            Pixel { r: value[0], g: value[1], b: value[2], a: 255 }
        } else {
            Pixel { r: value[0], g: value[1], b: value[2], a: value[3] }
        }
    }

    /// Reinterpret one raw byte group of a flat buffer as a pixel.
    pub fn from_bytes(value: &[u8]) -> (p: Pixel)
        ensures
            p == Self::spec_from_bytes(value@),
    {
        if value.len() < 3 {
            Pixel::def()
        } else if value.len() < 4 {
            Pixel {
                r: *vstd::slice::slice_index_get(value, 0),
                g: *vstd::slice::slice_index_get(value, 1),
                b: *vstd::slice::slice_index_get(value, 2),
                a: 255,
            }
        } else {
            Pixel {
                r: *vstd::slice::slice_index_get(value, 0),
                g: *vstd::slice::slice_index_get(value, 1),
                b: *vstd::slice::slice_index_get(value, 2),
                a: *vstd::slice::slice_index_get(value, 3),
            }
        }
    }
}

impl Default for Pixel {
    /// The default pixel is the default predecessor, opaque black.
    fn default() -> (p: Pixel)
        ensures
            p == Self::spec_def(),
    {
        Pixel::def()
    }
}

/// Clamp a 64-bit count to what a `usize` can carry, for error reporting on
/// machines whose `usize` is narrower.
pub fn sat_u64_to_usize(x: u64) -> (r: usize)
    ensures
        r == crate::model::usize_sat(x as int),
{
    if x <= usize::MAX as u64 {
        x as usize
    } else {
        usize::MAX
    }
}

/// Number of colour channels an image stores: RGB or RGBA.
#[derive(Debug, Clone, Copy, PartialEq, Eq, Structural)]
pub enum ColorChannel {
    RGB,
    RGBA,
}

impl ColorChannel {
    /// The byte that stands for this channel count on the wire.
    pub open spec fn spec_as_u8(self) -> u8 {
        match self {
            ColorChannel::RGB => 3,
            ColorChannel::RGBA => 4,
        }
    }

    /// Parse the wire byte: 3 is RGB, 4 is RGBA, anything else is returned
    /// unconsumed as the error.
    pub fn from_u8(value: u8) -> (r: Result<ColorChannel, u8>)
        ensures
            value == 3 ==> r == Ok::<ColorChannel, u8>(ColorChannel::RGB),
            value == 4 ==> r == Ok::<ColorChannel, u8>(ColorChannel::RGBA),
            value != 3 && value != 4 ==> r == Err::<ColorChannel, u8>(value),
    {
        match value {
            3 => Ok(ColorChannel::RGB),
            4 => Ok(ColorChannel::RGBA),
            _ => Err(value),
        }
    }

    /// The wire byte of this channel count.
    pub fn as_u8(self) -> (v: u8)
        ensures
            v == self.spec_as_u8(),
    {
        match self {
            ColorChannel::RGB => 3,
            ColorChannel::RGBA => 4,
        }
    }

    /// The channel count as a buffer element count.
    pub fn as_usize(self) -> (v: usize)
        ensures
            v == self.spec_as_u8(),
    {
        match self {
            ColorChannel::RGB => 3,
            ColorChannel::RGBA => 4,
        }
    }
}

/// Interpretation of the channel values: sRGB with linear alpha, or all
/// channels linear.
#[derive(Debug, Clone, Copy, PartialEq, Eq, Structural)]
pub enum ColorSpace {
    SRGB,
    LINEAR,
}

impl ColorSpace {
    /// The byte that stands for this colorspace on the wire.
    pub open spec fn spec_as_u8(self) -> u8 {
        match self {
            ColorSpace::SRGB => 0,
            ColorSpace::LINEAR => 1,
        }
    }

    /// Parse the wire byte: 0 is sRGB, 1 is linear, anything else is returned
    /// unconsumed as the error.
    pub fn from_u8(value: u8) -> (r: Result<ColorSpace, u8>)
        ensures
            value == 0 ==> r == Ok::<ColorSpace, u8>(ColorSpace::SRGB),
            value == 1 ==> r == Ok::<ColorSpace, u8>(ColorSpace::LINEAR),
            value != 0 && value != 1 ==> r == Err::<ColorSpace, u8>(value),
    {
        match value {
            0 => Ok(ColorSpace::SRGB),
            1 => Ok(ColorSpace::LINEAR),
            _ => Err(value),
        }
    }

    /// The wire byte of this colorspace.
    pub fn as_u8(self) -> (v: u8)
        ensures
            v == self.spec_as_u8(),
    {
        match self {
            ColorSpace::SRGB => 0,
            ColorSpace::LINEAR => 1,
        }
    }
}

/// The framed image descriptor: dimensions, channel count and colorspace.
#[derive(Debug, Clone, Copy, PartialEq, Eq, Structural)]
pub struct Header {
    pub width: u32,
    pub height: u32,
    pub channels: ColorChannel,
    pub colorspace: ColorSpace,
}

impl Header {
    /// Number of pixels the header declares, as a mathematical integer.
    pub open spec fn spec_pixel_amount(self) -> int {
        self.width * self.height
    }

    /// Bytes a stored pixel occupies: the channel count.
    pub open spec fn spec_bytes_per_pixel(self) -> int {
        self.channels.spec_as_u8() as int
    }

    /// Upper bound on the size of any encoding of an image with this header.
    pub open spec fn spec_max_size(self) -> int {
        self.spec_pixel_amount() * (self.spec_bytes_per_pixel() + 1) + crate::HEADER_SIZE
            + crate::STREAM_END_SIZE
    }

    /// Assemble a header from its four fields.
    pub fn new(width: u32, height: u32, channels: ColorChannel, colorspace: ColorSpace) -> (h:
        Header)
        ensures
            h == (Header { width, height, channels, colorspace }),
    {
        Header { width, height, channels, colorspace }
    }

    /// Number of pixels the header declares.
    pub fn pixel_amount(&self) -> (n: usize)
        requires
            self.spec_pixel_amount() <= usize::MAX,
        ensures
            n == self.spec_pixel_amount(),
    {
        (self.width as usize) * (self.height as usize)
    }

    /// Number of bytes the declared pixels occupy when stored raw.
    pub fn pixel_len(&self) -> (n: usize)
        requires
            self.spec_pixel_amount() * self.spec_bytes_per_pixel() <= usize::MAX,
        ensures
            n == self.spec_pixel_amount() * self.spec_bytes_per_pixel(),
    {
        proof {
            assert(self.spec_pixel_amount() * self.spec_bytes_per_pixel() >= self.spec_pixel_amount(
            )) by (nonlinear_arith)
                requires
                    self.spec_bytes_per_pixel() >= 1,
                    self.spec_pixel_amount() >= 0,
            ;
            assert(self.spec_pixel_amount() >= 0) by (nonlinear_arith);
        }
        let n = self.pixel_amount();
        let b = self.bytes_per_pixel();
        proof {
            assert(n * b == self.spec_pixel_amount() * self.spec_bytes_per_pixel());
        }
        n * b
    }

    /// Largest number of bytes one pixel can cost on the wire.
    pub fn max_bytes_per_pixel(&self) -> (n: usize)
        ensures
            n == self.spec_bytes_per_pixel() + 1,
    {
        self.bytes_per_pixel() + 1
    }

    /// Bytes a stored pixel occupies: the channel count.
    pub fn bytes_per_pixel(&self) -> (n: usize)
        ensures
            n == self.spec_bytes_per_pixel(),
    {
        self.channels.as_usize()
    }

    /// Size of a byte buffer guaranteed to hold any encoding of an image
    /// with this header.
    pub fn max_size(&self) -> (n: usize)
        requires
            self.spec_max_size() <= usize::MAX,
        ensures
            n == self.spec_max_size(),
    {
        proof {
            assert(self.spec_pixel_amount() >= 0 && self.spec_pixel_amount() * (
            self.spec_bytes_per_pixel() + 1) >= 0) by (nonlinear_arith)
                requires
                    self.spec_bytes_per_pixel() >= 1,
            ;
            assert(self.spec_pixel_amount() * (self.spec_bytes_per_pixel() + 1)
                >= self.spec_pixel_amount()) by (nonlinear_arith)
                requires
                    self.spec_bytes_per_pixel() >= 1,
                    self.spec_pixel_amount() >= 0,
            ;
        }
        let n = self.pixel_amount();
        let m = self.max_bytes_per_pixel();
        n * m + crate::HEADER_SIZE + crate::STREAM_END_SIZE
    }
}

} // verus!
