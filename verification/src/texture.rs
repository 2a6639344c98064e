//! Plain descriptions of textures: their pixel formats, the sizes of their
//! rows in bytes, and the widening of 24-bit pixels to 32 bits.

use vstd::arithmetic::div_mod::lemma_fundamental_div_mod;
use vstd::arithmetic::div_mod::lemma_mod_multiples_basic;
use vstd::arithmetic::div_mod::lemma_mod_self_0;
use vstd::arithmetic::div_mod::lemma_small_mod;
use vstd::prelude::*;

verus! {

/// How the channels of one pixel are laid out.
#[derive(Clone, Copy, Debug, PartialEq, Eq, Hash)]
pub enum Format {
    R8,
    R8G8,
    R8G8B8,
    R8G8B8A8,
    B8G8R8,
    B8G8R8A8,
    R16,
    R16G16,
    R16G16B16,
    R16G16B16A16,
    R16F,
    R16G16F,
    R16G16B16F,
    R16G16B16A16F,
    R32,
    R32G32,
    R32G32B32,
    R32G32B32A32,
    R32F,
    R32G32F,
    R32G32B32F,
    R32G32B32A32F,
}

impl Default for Format {
    fn default() -> (r: Self)
        ensures
            r == Format::R8G8B8A8,
    {
        Format::R8G8B8A8
    }
}

/// How a texture is sampled beyond its edge.
#[derive(Clone, Debug)]
pub enum WrappingMode {
    ClampToEdge,
    MirroredRepeat,
    Repeat,
}

impl Default for WrappingMode {
    fn default() -> (r: Self)
        ensures
            r == WrappingMode::Repeat,
    {
        WrappingMode::Repeat
    }
}

/// How a texture is sampled between its pixels.
#[derive(Clone, Debug)]
pub enum Filter {
    Nearest,
    Linear,
}

impl Default for Filter {
    fn default() -> (r: Self)
        ensures
            r == Filter::Nearest,
    {
        Filter::Nearest
    }
}

/// How the alpha channel of a material is used.
#[derive(Clone, Copy, Eq, PartialEq, Debug)]
pub enum AlphaMode {
    Opaque,
    Mask,
    Blend,
}

impl Default for AlphaMode {
    fn default() -> (r: Self)
        ensures
            r == AlphaMode::Opaque,
    {
        AlphaMode::Opaque
    }
}

/// The sampling settings of a texture.
#[derive(Clone, Debug)]
pub struct Sampler {
    pub name: String,
    pub min_filter: Filter,
    pub mag_filter: Filter,
    pub wrap_s: WrappingMode,
    pub wrap_t: WrappingMode,
}

/// Whether a sampler has the settings that a texture gets when none are
/// given: no name, nearest filtering, repeating in both directions.
pub open spec fn is_plain_sampler(s: Sampler) -> bool {
    &&& s.name@ == Seq::<char>::empty()
    &&& s.min_filter == Filter::Nearest
    &&& s.mag_filter == Filter::Nearest
    &&& s.wrap_s == WrappingMode::Repeat
    &&& s.wrap_t == WrappingMode::Repeat
}

impl Default for Sampler {
    fn default() -> (r: Self)
        ensures
            is_plain_sampler(r),
    {
        Sampler {
            name: String::new(),
            min_filter: Filter::Nearest,
            mag_filter: Filter::Nearest,
            wrap_s: WrappingMode::Repeat,
            wrap_t: WrappingMode::Repeat,
        }
    }
}

/// Why a texture could not be built.
#[derive(Debug)]
pub enum TextureError {
    /// The pixel data is shorter than three bytes for each pixel.
    RawPixels,
}

impl TextureError {
    /// The human-readable description of the error.
    pub fn message(&self) -> (text: String)
        ensures
            text@ == "Failed to load image from raw pixels!"@,
    {
        "Failed to load image from raw pixels!".to_owned()
    }
}

/// The number of bytes that one pixel of a format takes.
pub open spec fn format_bytes(f: Format) -> nat {
    match f {
        Format::R8 => 1,
        Format::R8G8 => 2,
        Format::R8G8B8 | Format::B8G8R8 => 3,
        Format::R8G8B8A8 | Format::B8G8R8A8 => 4,
        Format::R16 | Format::R16F => 2,
        Format::R16G16 | Format::R16G16F => 4,
        Format::R16G16B16 | Format::R16G16B16F => 6,
        Format::R16G16B16A16 | Format::R16G16B16A16F => 8,
        Format::R32 | Format::R32F => 4,
        Format::R32G32 | Format::R32G32F => 8,
        Format::R32G32B32 | Format::R32G32B32F => 12,
        Format::R32G32B32A32 | Format::R32G32B32A32F => 16,
    }
}

/// Whether a format packs three 8-bit channels into a pixel.
pub open spec fn is_24bit(f: Format) -> bool {
    f == Format::R8G8B8 || f == Format::B8G8R8
}

/// The format that a texture has after its 24-bit pixels were widened: the
/// same channels with an alpha channel behind them. Other formats stay.
pub open spec fn widened(f: Format) -> Format {
    match f {
        Format::R8G8B8 => Format::R8G8B8A8,
        Format::B8G8R8 => Format::B8G8R8A8,
        other => other,
    }
}

/// The first `count` three-byte pixels of `rgb`, each followed by an alpha
/// byte of 255.
pub open spec fn with_alpha(rgb: Seq<u8>, count: nat) -> Seq<u8> {
    Seq::new(
        4 * count,
        |i: int|
            if i % 4 == 3 {
                255u8
            } else {
                rgb[(i / 4) * 3 + i % 4]
            },
    )
}

/// The smallest multiple of `alignment` that is at least `row`.
pub open spec fn padded(row: nat, alignment: nat) -> nat
    recommends
        alignment > 0,
{
    if row % alignment == 0 {
        row
    } else {
        (row + alignment - row % alignment) as nat
    }
}

/// `padded` is a multiple of the alignment, at least the row, and less than
/// one alignment above it.
pub proof fn lemma_padded(row: nat, alignment: nat)
    requires
        alignment > 0,
    ensures
        padded(row, alignment) % alignment == 0,
        row <= padded(row, alignment) < row + alignment,
{
    let a = alignment as int;
    let x = row as int;
    lemma_fundamental_div_mod(x, a);
    if x % a != 0 {
        let q = x / a;
        assert(a * (q + 1) == a * q + a) by (nonlinear_arith);
        assert(padded(row, alignment) == (q + 1) * a) by (nonlinear_arith)
            requires
                padded(row, alignment) == x + a - x % a,
                x == a * q + x % a,
                a * (q + 1) == a * q + a,
        ;
        lemma_mod_multiples_basic(q + 1, a);
    }
}

/// An image in memory: its size in pixels, its pixel data row by row, and
/// the format of a pixel.
#[derive(Debug, Clone)]
pub struct TextureDescription {
    pub width: u32,
    pub height: u32,
    pub pixels: Vec<u8>,
    pub format: Format,
}

impl Default for TextureDescription {
    fn default() -> (r: Self)
        ensures
            r.width == 0,
            r.height == 0,
            r.pixels@ == Seq::<u8>::empty(),
            r.format == Format::R8G8B8A8,
    {
        TextureDescription { width: 0, height: 0, pixels: Vec::new(), format: Format::R8G8B8A8 }
    }
}

impl TextureDescription {
    /// The number of pixels of the image.
    pub open spec fn pixel_count(&self) -> nat {
        (self.width * self.height) as nat
    }

    /// Whether the pixel data holds three bytes for each pixel.
    pub open spec fn holds_rgb(&self) -> bool {
        3 * self.pixel_count() <= self.pixels@.len()
    }

    /// The number of bytes of one row, padded up to a multiple of
    /// `alignment`.
    pub fn padded_bytes_per_row(&self, alignment: u32) -> (r: u32)
        requires
            alignment > 0,
            padded(format_bytes(self.format) * self.width as nat, alignment as nat) <= u32::MAX,
        ensures
            r == padded(format_bytes(self.format) * self.width as nat, alignment as nat),
            r % alignment == 0,
            format_bytes(self.format) * self.width <= r < format_bytes(self.format) * self.width
                + alignment,
    {
        proof {
            lemma_padded(format_bytes(self.format) * self.width as nat, alignment as nat);
        }
        let bytes_per_row = self.bytes_per_row();
        proof {
            let gap = alignment - bytes_per_row % alignment;
            if bytes_per_row % alignment == 0 {
                lemma_mod_self_0(alignment as int);
            } else {
                lemma_small_mod(gap as nat, alignment as nat);
            }
        }
        let padding = (alignment - bytes_per_row % alignment) % alignment;
        bytes_per_row + padding
    }

    /// The number of bytes of one row of pixels.
    pub fn bytes_per_row(&self) -> (r: u32)
        requires
            format_bytes(self.format) * self.width <= u32::MAX,
        ensures
            r == format_bytes(self.format) * self.width,
    {
        self.bytes_per_pixel() * self.width
    }

    /// The number of bytes of one pixel.
    pub fn bytes_per_pixel(&self) -> (r: u32)
        ensures
            r == format_bytes(self.format),
    {
        match self.format {
            Format::R8 => 1,
            Format::R8G8 => 2,
            Format::R8G8B8 | Format::B8G8R8 => 3,
            Format::R8G8B8A8 | Format::B8G8R8A8 => 4,
            Format::R16 | Format::R16F => 2,
            Format::R16G16 | Format::R16G16F => 4,
            Format::R16G16B16 | Format::R16G16B16F => 6,
            Format::R16G16B16A16 | Format::R16G16B16A16F => 8,
            Format::R32 | Format::R32F => 4,
            Format::R32G32 | Format::R32G32F => 8,
            Format::R32G32B32 | Format::R32G32B32F => 12,
            Format::R32G32B32A32 | Format::R32G32B32A32F => 16,
        }
    }

    /// Widens a texture of 24-bit pixels to 32 bits: the format gets its
    /// alpha channel, and so does every pixel. The format changes even where
    /// the pixel data then turns out to be too short. Textures of other
    /// formats stay as they are.
    pub fn convert_24bit_format(&mut self) -> (r: Result<(), TextureError>)
        ensures
            final(self).width == old(self).width,
            final(self).height == old(self).height,
            final(self).format == widened(old(self).format),
            r.is_ok() == (!is_24bit(old(self).format) || old(self).holds_rgb()),
            final(self).pixels@ == (if is_24bit(old(self).format) && old(self).holds_rgb() {
                with_alpha(old(self).pixels@, old(self).pixel_count())
            } else {
                old(self).pixels@
            }),
    {
        let format = match self.format {
            Format::R8G8B8 => Format::R8G8B8A8,
            Format::B8G8R8 => Format::B8G8R8A8,
            _ => {
                return Ok(());
            },
        };
        self.format = format;
        self.attach_alpha_channel()
    }

    /// Reads the pixel data as three bytes for each pixel and puts an alpha
    /// byte of 255 behind each of them; bytes beyond the last pixel are
    /// dropped. Where the data is too short for that, nothing changes.
    pub fn attach_alpha_channel(&mut self) -> (r: Result<(), TextureError>)
        ensures
            final(self).width == old(self).width,
            final(self).height == old(self).height,
            final(self).format == old(self).format,
            r.is_ok() == old(self).holds_rgb(),
            final(self).pixels@ == (if old(self).holds_rgb() {
                with_alpha(old(self).pixels@, old(self).pixel_count())
            } else {
                old(self).pixels@
            }),
    {
        assert(self.width * self.height <= 0xffff_ffff * 0xffff_ffff) by (nonlinear_arith)
            requires
                self.width <= 0xffff_ffff,
                self.height <= 0xffff_ffff,
        ;
        let count: u64 = (self.width as u64) * (self.height as u64);
        let room: usize = self.pixels.len() / 3;
        if count > room as u64 {
            return Err(TextureError::RawPixels);
        }
        let count: usize = count as usize;
        let mut wide: Vec<u8> = Vec::new();
        let mut i: usize = 0;
        while i < count
            invariant
                i <= count,
                3 * count <= self.pixels@.len(),
                self.pixels@.len() <= usize::MAX,
                wide@ =~= with_alpha(self.pixels@, i as nat),
            decreases count - i,
        {
            wide.push(self.pixels[3 * i]);
            wide.push(self.pixels[3 * i + 1]);
            wide.push(self.pixels[3 * i + 2]);
            wide.push(255u8);
            i += 1;
        }
        self.pixels = wide;
        Ok(())
    }
}

/// A texture: an image and how to sample it.
#[derive(Clone, Debug)]
pub struct WorldTexture {
    pub description: TextureDescription,
    pub sampler: Sampler,
}

impl WorldTexture {
    /// A texture from an image, which is widened where its pixels have 24
    /// bits, and from sampling settings, which are the plain ones where none
    /// are given.
    pub fn from_description(description: TextureDescription, sampler: Option<Sampler>) -> (r:
        Result<Self, TextureError>)
        ensures
            r.is_ok() == (!is_24bit(description.format) || description.holds_rgb()),
            match r {
                Ok(t) => {
                    &&& t.description.width == description.width
                    &&& t.description.height == description.height
                    &&& t.description.format == widened(description.format)
                    &&& t.description.pixels@ == (if is_24bit(description.format) {
                        with_alpha(description.pixels@, description.pixel_count())
                    } else {
                        description.pixels@
                    })
                    &&& match sampler {
                        Some(s) => t.sampler == s,
                        None => is_plain_sampler(t.sampler),
                    }
                },
                Err(_) => true,
            },
    {
        let mut description = description;
        match description.convert_24bit_format() {
            Ok(_) => {},
            Err(e) => {
                return Err(e);
            },
        }
        let sampler = match sampler {
            Some(s) => s,
            None => Sampler::default(),
        };
        Ok(WorldTexture { description, sampler })
    }
}

} // verus!
