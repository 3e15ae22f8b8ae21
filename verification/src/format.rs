use vstd::prelude::*;
use vstd::arithmetic::div_mod::{
    lemma_div_is_strictly_smaller, lemma_mod_division_less_than_divisor,
};
use vstd::arithmetic::mul::{
    lemma_mul_inequality, lemma_mul_is_commutative, lemma_mul_is_distributive_add_other_way,
    lemma_mul_nonnegative,
};
use crate::pixel::{
    a1r5g5b5_bits, a1r5g5b5_pixel, a4r4g4b4_bits, a4r4g4b4_pixel, a8b8g8r8_pixel, a8r8g8b8_pixel,
    a8y8_pixel, a8_pixel, ay8_pixel, dist_argb_spec, dist_rgb_spec, le16_of,
    lemma_a1r5g5b5_round_trip, lemma_a4r4g4b4_round_trip, lemma_r5g6b5_round_trip,
    lemma_sq_diff_bounds, luma_spec, r5g6b5_bits, r5g6b5_pixel, x8r8g8b8_pixel, y8_pixel, Pixel,
};

verus! {

/// A contract violation detected before any output is produced.
///
/// All failures are deterministic functions of the caller's input:
/// the same inputs always fail the same way, and nothing is written
/// before the failure is detected.
#[derive(Copy, Clone, PartialEq, Eq, Structural, Debug)]
pub enum TexError {
    /// A buffer length does not match the dimension-derived contract.
    SizeMismatch,
    /// The required-byte computation exceeds the address range.
    Overflow,
    /// A block-compressed layout was requested.
    Unsupported,
    /// The palette has no entries.
    EmptyPalette,
    /// The alpha-bucket filter excluded every palette entry.
    NoCandidate,
}

/// Defines formats supported by the compressor/decompressor.
#[derive(Copy, Clone, PartialEq, Debug)]
pub enum Format {
    /// DXT block compression with optional 1-bit alpha
    DXT1,
    /// DXT block compression with 4-bit explicit alpha
    DXT3,
    /// DXT block compression with interpolated alpha
    DXT5,
    /// BC7 block compression with optional alpha
    BC7,
    /// 8-bit alpha (100% white)
    A8,
    /// 8-bit luminosity (100% opaque)
    Y8,
    /// 8-bit alpha-luminosity (alpha=luminosity)
    AY8,
    /// 8-bit alpha with 8-bit luminosity
    A8Y8,
    /// 5-bit red, 6-bit green, and 5-bit blue (100% opaque)
    R5G6B5,
    /// 1-bit alpha, 5-bit red, green, and blue
    A1R5G5B5,
    /// 4-bit alpha, red, green, and blue
    A4R4G4B4,
    /// 8-bit red, green, and blue (100% opaque)
    X8R8G8B8,
    /// 8-bit alpha, red, green, and blue
    A8R8G8B8,
    /// 8-bit alpha, blue, green, and red
    A8B8G8R8,
    /// 8-bit palettized
    P8([Pixel; 256]),
}

/// The quotient of `x` by `d` rounded up.
pub open spec fn spec_div_ceil(x: int, d: int) -> int
    recommends
        x >= 0,
        d >= 1,
{
    if x % d == 0 {
        x / d
    } else {
        x / d + 1
    }
}

impl Format {
    /// The side of a block in pixels.
    pub open spec fn spec_block_size_pixels(self) -> int {
        match self {
            Format::DXT1 => 4,
            Format::DXT3 => 4,
            Format::DXT5 => 4,
            Format::BC7 => 4,
            _ => 1,
        }
    }

    /// The bytes a block occupies.
    pub open spec fn spec_block_size_bytes(self) -> int {
        match self {
            Format::DXT1 => 8,
            Format::DXT3 => 16,
            Format::DXT5 => 16,
            Format::BC7 => 16,
            Format::A8 => 1,
            Format::Y8 => 1,
            Format::AY8 => 1,
            Format::A8Y8 => 2,
            Format::R5G6B5 => 2,
            Format::A1R5G5B5 => 2,
            Format::A4R4G4B4 => 2,
            Format::X8R8G8B8 => 4,
            Format::A8R8G8B8 => 4,
            Format::A8B8G8R8 => 4,
            Format::P8(_) => 1,
        }
    }

    /// Whether encode and decode are implemented for this layout.
    /// The block-compressed layouts supply geometry only.
    pub open spec fn spec_is_supported(self) -> bool {
        match self {
            Format::DXT1 => false,
            Format::DXT3 => false,
            Format::DXT5 => false,
            Format::BC7 => false,
            _ => true,
        }
    }

    /// Whether this layout converts one pixel at a time at a fixed
    /// byte width: supported and not palettized.
    pub open spec fn spec_is_fixed(self) -> bool {
        match self {
            Format::DXT1 => false,
            Format::DXT3 => false,
            Format::DXT5 => false,
            Format::BC7 => false,
            Format::P8(_) => false,
            _ => true,
        }
    }

    /// The bytes one pixel encodes to, for the fixed layouts.
    pub open spec fn encode_block_spec(self, p: Pixel) -> Seq<u8>
        recommends
            self.spec_is_fixed(),
    {
        match self {
            Format::A8 => seq![p.alpha],
            Format::Y8 => seq![luma_spec(p)],
            Format::AY8 => seq![p.alpha],
            Format::A8Y8 => seq![luma_spec(p), p.alpha],
            Format::R5G6B5 => le16_of(r5g6b5_bits(p)),
            Format::A1R5G5B5 => le16_of(a1r5g5b5_bits(p)),
            Format::A4R4G4B4 => le16_of(a4r4g4b4_bits(p)),
            Format::X8R8G8B8 => seq![p.blue, p.green, p.red, 255u8],
            Format::A8R8G8B8 => seq![p.blue, p.green, p.red, p.alpha],
            Format::A8B8G8R8 => seq![p.red, p.green, p.blue, p.alpha],
            _ => seq![],
        }
    }

    /// The pixel one block of bytes decodes to, for the fixed layouts.
    pub open spec fn decode_block_spec(self, b: Seq<u8>) -> Pixel
        recommends
            self.spec_is_fixed(),
            b.len() == self.spec_block_size_bytes(),
    {
        match self {
            Format::A8 => a8_pixel(b),
            Format::Y8 => y8_pixel(b),
            Format::AY8 => ay8_pixel(b),
            Format::A8Y8 => a8y8_pixel(b),
            Format::R5G6B5 => r5g6b5_pixel(b),
            Format::A1R5G5B5 => a1r5g5b5_pixel(b),
            Format::A4R4G4B4 => a4r4g4b4_pixel(b),
            Format::X8R8G8B8 => x8r8g8b8_pixel(b),
            Format::A8R8G8B8 => a8r8g8b8_pixel(b),
            Format::A8B8G8R8 => a8b8g8r8_pixel(b),
            _ => Pixel { alpha: 0, red: 0, green: 0, blue: 0 },
        }
    }

    /// The bytes a `width` by `height` image needs in this layout:
    /// whole blocks in each direction, rounded up.
    pub open spec fn spec_required_bytes(self, width: int, height: int) -> int {
        spec_div_ceil(height, self.spec_block_size_pixels()) * spec_div_ceil(
            width,
            self.spec_block_size_pixels(),
        ) * self.spec_block_size_bytes()
    }

    /// Size of each block in pixels (in width and height).
    ///
    /// For compressed textures utilizing block compression, the size
    /// will be rounded *up* to the nearest block.  For example, with
    /// DXT1, a 16x17 texture will be compressed as 16x20, and the
    /// extra 3 pixels will be undetermined but valid.
    pub fn block_size_pixels(self) -> (r: usize)
        ensures
            r as int == self.spec_block_size_pixels(),
            1 <= r <= 4,
    {
        match self {
            Format::DXT1 => 4,
            Format::DXT3 => 4,
            Format::DXT5 => 4,
            Format::BC7 => 4,
            _ => 1,
        }
    }

    /// Number of bytes each block takes up.
    pub fn block_size_bytes(self) -> (r: usize)
        ensures
            r as int == self.spec_block_size_bytes(),
            1 <= r <= 16,
    {
        match self {
            Format::DXT1 => 8,
            Format::DXT3 => 16,
            Format::DXT5 => 16,
            Format::BC7 => 16,
            Format::A8 => 1,
            Format::Y8 => 1,
            Format::AY8 => 1,
            Format::A8Y8 => 2,
            Format::R5G6B5 => 2,
            Format::A1R5G5B5 => 2,
            Format::A4R4G4B4 => 2,
            Format::X8R8G8B8 => 4,
            Format::A8R8G8B8 => 4,
            Format::A8B8G8R8 => 4,
            Format::P8(_) => 1,
        }
    }

    /// Convert pixels from the canonical 8-bit form to this layout.
    ///
    /// The pixel buffer must hold exactly `width*height` entries, in
    /// row-major order.  On success the returned byte buffer holds
    /// exactly `required_bytes(width, height)` bytes: each pixel's
    /// packed block in order for the fixed layouts, or one palette
    /// index per pixel for the palettized layout.  Block-compressed
    /// layouts are unimplemented and fail with
    /// [`TexError::Unsupported`].
    pub fn encode_pixels(self, from_pixels: &[Pixel], width: usize, height: usize) -> (r: Result<
        Vec<u8>,
        TexError,
    >)
        ensures
            ({
                let need = self.spec_required_bytes(width as int, height as int);
                let ps = from_pixels@;
                let bs = self.spec_block_size_bytes();
                if need > usize::MAX {
                    r == Err::<Vec<u8>, TexError>(TexError::Overflow)
                } else if ps.len() != width * height {
                    r == Err::<Vec<u8>, TexError>(TexError::SizeMismatch)
                } else if !self.spec_is_supported() {
                    r == Err::<Vec<u8>, TexError>(TexError::Unsupported)
                } else {
                    match self {
                        Format::P8(pal) => if exists|k: int|
                            0 <= k < ps.len() && best_index_spec(pal@, #[trigger] ps[k]) is None {
                            r == Err::<Vec<u8>, TexError>(TexError::NoCandidate)
                        } else {
                            match r {
                                Ok(bytes) => bytes@.len() == need && forall|k: int|
                                    0 <= k < ps.len() ==> best_index_spec(pal@, #[trigger] ps[k])
                                        == Some(bytes@[k] as int),
                                Err(_) => false,
                            }
                        },
                        _ => match r {
                            Ok(bytes) => bytes@.len() == need && forall|k: int|
                                0 <= k < ps.len() ==> bytes@.subrange(k * bs, (k + 1) * bs)
                                    == self.encode_block_spec(#[trigger] ps[k]),
                            Err(_) => false,
                        },
                    }
                }
            }),
    {
        let ghost ps = from_pixels@;
        let need = match self.required_bytes(width, height) {
            Ok(n) => n,
            Err(e) => {
                return Err(e);
            },
        };
        let n_pixels = from_pixels.len();
        let count = match width.checked_mul(height) {
            Some(c) => c,
            None => {
                // The pixel buffer cannot reach a product beyond the
                // address range.
                return Err(TexError::SizeMismatch);
            },
        };
        if n_pixels != count {
            return Err(TexError::SizeMismatch);
        }

        match self {
            // Compressed formats supply geometry only.
            Format::DXT1 | Format::DXT3 | Format::DXT5 | Format::BC7 => Err(TexError::Unsupported),
            // Palettized: one index byte per pixel.
            Format::P8(palette) => {
                proof {
                    lemma_unit_block_bytes(self, width as int, height as int);
                }
                let ids = match encode_palettized(from_pixels, palette.as_slice()) {
                    Ok(v) => v,
                    Err(e) => {
                        return Err(e);
                    },
                };
                let mut out: Vec<u8> = Vec::new();
                let mut k: usize = 0;
                while k < ids.len()
                    invariant
                        0 <= k <= ids@.len(),
                        ids@.len() == ps.len(),
                        out@.len() == k,
                        forall|t: int|
                            0 <= t < ids@.len() ==> best_index_spec(palette@, #[trigger] ps[t])
                                == Some(ids@[t] as int) && ids@[t] < palette@.len(),
                        forall|t: int| 0 <= t < k ==> #[trigger] out@[t] == ids@[t] as u8,
                    decreases ids@.len() - k,
                {
                    let id = ids[k];
                    out.push(id as u8);
                    k = k + 1;
                }
                Ok(out)
            },
            // Simple conversion (uncompressed): one fixed-width block
            // per pixel, in row-major order.
            _ => {
                let bs = self.block_size_bytes();
                proof {
                    lemma_unit_block_bytes(self, width as int, height as int);
                }
                let mut out: Vec<u8> = Vec::new();
                let mut k: usize = 0;
                while k < from_pixels.len()
                    invariant
                        0 <= k <= ps.len(),
                        ps == from_pixels@,
                        self.spec_is_fixed(),
                        bs as int == self.spec_block_size_bytes(),
                        ps.len() * bs <= usize::MAX,
                        out@.len() == k * bs,
                        forall|j: int|
                            0 <= j < k ==> out@.subrange(j * (bs as int), (j + 1) * (bs as int))
                                == self.encode_block_spec(#[trigger] ps[j]),
                    decreases ps.len() - k,
                {
                    let ghost prev = out@;
                    encode_block_push(&self, from_pixels[k], &mut out);
                    proof {
                        lemma_encode_block_len(self, ps[k as int]);
                        lemma_mul_is_distributive_add_other_way(bs as int, k as int, 1);
                        assert forall|j: int| 0 <= j < k + 1 implies out@.subrange(
                            j * (bs as int),
                            (j + 1) * (bs as int),
                        ) == self.encode_block_spec(#[trigger] ps[j]) by {
                            lemma_mul_inequality(j + 1, k as int + 1, bs as int);
                            lemma_mul_is_commutative(j + 1, bs as int);
                            lemma_mul_is_commutative(k as int, bs as int);
                            if j < k {
                                assert(out@.subrange(j * (bs as int), (j + 1) * (bs as int))
                                    =~= prev.subrange(j * (bs as int), (j + 1) * (bs as int)));
                            } else {
                                assert(out@.subrange(j * (bs as int), (j + 1) * (bs as int))
                                    =~= self.encode_block_spec(ps[j]));
                            }
                        }
                    }
                    k = k + 1;
                }
                proof {
                    lemma_mul_is_commutative(ps.len() as int, bs as int);
                }
                Ok(out)
            },
        }
    }

    /// Convert pixels from this layout back to the canonical 8-bit
    /// form.
    ///
    /// The byte buffer must hold exactly `required_bytes(width,
    /// height)` bytes.  On success the returned pixel buffer holds
    /// exactly `width*height` entries: each block decoded in order for
    /// the fixed layouts, or each index byte looked up in the palette
    /// for the palettized layout (an exact table lookup; only encoding
    /// is lossy).  Block-compressed layouts fail with
    /// [`TexError::Unsupported`].
    pub fn decode_pixels(self, from_bytes: &[u8], width: usize, height: usize) -> (r: Result<
        Vec<Pixel>,
        TexError,
    >)
        ensures
            ({
                let need = self.spec_required_bytes(width as int, height as int);
                let bytes = from_bytes@;
                let bs = self.spec_block_size_bytes();
                if need > usize::MAX {
                    r == Err::<Vec<Pixel>, TexError>(TexError::Overflow)
                } else if bytes.len() != need {
                    r == Err::<Vec<Pixel>, TexError>(TexError::SizeMismatch)
                } else if !self.spec_is_supported() {
                    r == Err::<Vec<Pixel>, TexError>(TexError::Unsupported)
                } else {
                    match self {
                        Format::P8(pal) => match r {
                            Ok(pixels) => pixels@.len() == width * height && forall|k: int|
                                0 <= k < pixels@.len() ==> #[trigger] pixels@[k] == pal@[bytes[k] as int],
                            Err(_) => false,
                        },
                        _ => match r {
                            Ok(pixels) => pixels@.len() == width * height && forall|k: int|
                                0 <= k < pixels@.len() ==> #[trigger] pixels@[k]
                                    == self.decode_block_spec(bytes.subrange(k * bs, (k + 1) * bs)),
                            Err(_) => false,
                        },
                    }
                }
            }),
    {
        let ghost bytes = from_bytes@;
        let need = match self.required_bytes(width, height) {
            Ok(n) => n,
            Err(e) => {
                return Err(e);
            },
        };
        if from_bytes.len() != need {
            return Err(TexError::SizeMismatch);
        }

        match self {
            // Compressed formats supply geometry only.
            Format::DXT1 | Format::DXT3 | Format::DXT5 | Format::BC7 => Err(TexError::Unsupported),
            // Palettized: each index byte is looked up directly.
            Format::P8(palette) => {
                proof {
                    lemma_unit_block_bytes(self, width as int, height as int);
                }
                let mut out: Vec<Pixel> = Vec::new();
                let mut k: usize = 0;
                while k < from_bytes.len()
                    invariant
                        0 <= k <= bytes.len(),
                        bytes == from_bytes@,
                        out@.len() == k,
                        forall|t: int|
                            0 <= t < k ==> #[trigger] out@[t] == palette@[bytes[t] as int],
                    decreases bytes.len() - k,
                {
                    let idx = from_bytes[k] as usize;
                    out.push(palette[idx]);
                    k = k + 1;
                }
                Ok(out)
            },
            // Simple conversion (uncompressed).
            _ => {
                let bs = self.block_size_bytes();
                proof {
                    lemma_unit_block_bytes(self, width as int, height as int);
                }
                let count = match width.checked_mul(height) {
                    Some(c) => c,
                    None => {
                        proof {
                            lemma_mul_inequality(1, bs as int, (width * height) as int);
                            lemma_mul_is_commutative((width * height) as int, bs as int);
                        }
                        return Err(TexError::SizeMismatch);
                    },
                };
                let mut out: Vec<Pixel> = Vec::new();
                let mut k: usize = 0;
                while k < count
                    invariant
                        0 <= k <= count,
                        bytes == from_bytes@,
                        self.spec_is_fixed(),
                        bs as int == self.spec_block_size_bytes(),
                        bytes.len() == count * bs,
                        bytes.len() <= usize::MAX,
                        out@.len() == k,
                        forall|t: int|
                            0 <= t < k ==> #[trigger] out@[t] == self.decode_block_spec(
                                bytes.subrange(t * (bs as int), (t + 1) * (bs as int)),
                            ),
                    decreases count - k,
                {
                    proof {
                        lemma_mul_inequality(k as int + 1, count as int, bs as int);
                        lemma_mul_inequality(k as int, k as int + 1, bs as int);
                        lemma_mul_is_distributive_add_other_way(bs as int, k as int, 1);
                        lemma_mul_is_commutative(k as int + 1, bs as int);
                        lemma_mul_is_commutative(count as int, bs as int);
                        lemma_mul_nonnegative(k as int, bs as int);
                    }
                    let p = decode_block(&self, from_bytes, k * bs);
                    out.push(p);
                    k = k + 1;
                }
                Ok(out)
            },
        }
    }

    /// Get the number of bytes required to represent height*width with
    /// the format.
    ///
    /// Fails with [`TexError::Overflow`] if the result would exceed
    /// [`usize::MAX`]; the computation never wraps silently.
    pub fn required_bytes(self, width: usize, height: usize) -> (r: Result<usize, TexError>)
        ensures
            ({
                let need = self.spec_required_bytes(width as int, height as int);
                match r {
                    Ok(n) => n == need,
                    Err(e) => e == TexError::Overflow && need > usize::MAX,
                }
            }),
    {
        let block_size_bytes = self.block_size_bytes();
        let block_size_pixels = self.block_size_pixels();
        let blocks_height = div_ceil_usize(height, block_size_pixels);
        let blocks_width = div_ceil_usize(width, block_size_pixels);

        let Some(block_count) = blocks_height.checked_mul(blocks_width) else {
            proof {
                lemma_required_grows(
                    blocks_height as int,
                    blocks_width as int,
                    self.spec_block_size_bytes(),
                );
            }
            return Err(TexError::Overflow);
        };

        let Some(bytes) = block_count.checked_mul(block_size_bytes) else {
            return Err(TexError::Overflow);
        };

        Ok(bytes)
    }
}

/// When the block product already exceeds the address range, so does
/// the full byte count: the per-block byte size is at least one.
proof fn lemma_required_grows(bh: int, bw: int, bb: int)
    requires
        bh >= 0,
        bw >= 0,
        bb >= 1,
    ensures
        bh * bw * bb >= bh * bw,
{
    lemma_mul_nonnegative(bh, bw);
    lemma_mul_inequality(1, bb, bh * bw);
    vstd::arithmetic::mul::lemma_mul_is_commutative(bh * bw, bb);
}

/// A fixed layout writes exactly its block size for every pixel.
proof fn lemma_encode_block_len(fmt: Format, p: Pixel)
    requires
        fmt.spec_is_fixed(),
    ensures
        fmt.encode_block_spec(p).len() == fmt.spec_block_size_bytes(),
{
}

/// For layouts with one-pixel blocks, the required byte count is just
/// the pixel count times the block byte size.
proof fn lemma_unit_block_bytes(fmt: Format, width: int, height: int)
    requires
        width >= 0,
        height >= 0,
        fmt.spec_block_size_pixels() == 1,
    ensures
        fmt.spec_required_bytes(width, height) == (width * height)
            * fmt.spec_block_size_bytes(),
{
    lemma_mod_division_less_than_divisor(width, 1);
    lemma_mod_division_less_than_divisor(height, 1);
    vstd::arithmetic::div_mod::lemma_fundamental_div_mod(width, 1);
    vstd::arithmetic::div_mod::lemma_fundamental_div_mod(height, 1);
    vstd::arithmetic::mul::lemma_mul_is_commutative(height, width);
}

/// Append the packed form of one pixel to the output buffer.
fn encode_block_push(fmt: &Format, p: Pixel, out: &mut Vec<u8>)
    requires
        fmt.spec_is_fixed(),
    ensures
        final(out)@ == old(out)@ + fmt.encode_block_spec(p),
{
    match fmt {
        Format::A8 => {
            let b = p.as_a8();
            out.push(b[0]);
            proof {
                assert(out@ =~= old(out)@ + fmt.encode_block_spec(p));
            }
        },
        Format::Y8 => {
            let b = p.as_y8();
            out.push(b[0]);
            proof {
                assert(out@ =~= old(out)@ + fmt.encode_block_spec(p));
            }
        },
        Format::AY8 => {
            let b = p.as_ay8();
            out.push(b[0]);
            proof {
                assert(out@ =~= old(out)@ + fmt.encode_block_spec(p));
            }
        },
        Format::A8Y8 => {
            let b = p.as_a8y8();
            out.push(b[0]);
            out.push(b[1]);
            proof {
                assert(out@ =~= old(out)@ + fmt.encode_block_spec(p));
            }
        },
        Format::R5G6B5 => {
            let b = p.as_r5g6b5();
            out.push(b[0]);
            out.push(b[1]);
            proof {
                assert(out@ =~= old(out)@ + fmt.encode_block_spec(p));
            }
        },
        Format::A1R5G5B5 => {
            let b = p.as_a1r5g5b5();
            out.push(b[0]);
            out.push(b[1]);
            proof {
                assert(out@ =~= old(out)@ + fmt.encode_block_spec(p));
            }
        },
        Format::A4R4G4B4 => {
            let b = p.as_a4r4g4b4();
            out.push(b[0]);
            out.push(b[1]);
            proof {
                assert(out@ =~= old(out)@ + fmt.encode_block_spec(p));
            }
        },
        Format::X8R8G8B8 => {
            let b = p.as_x8r8g8b8();
            out.push(b[0]);
            out.push(b[1]);
            out.push(b[2]);
            out.push(b[3]);
            proof {
                assert(out@ =~= old(out)@ + fmt.encode_block_spec(p));
            }
        },
        Format::A8R8G8B8 => {
            let b = p.as_a8r8g8b8();
            out.push(b[0]);
            out.push(b[1]);
            out.push(b[2]);
            out.push(b[3]);
            proof {
                assert(out@ =~= old(out)@ + fmt.encode_block_spec(p));
            }
        },
        Format::A8B8G8R8 => {
            let b = p.as_a8b8g8r8();
            out.push(b[0]);
            out.push(b[1]);
            out.push(b[2]);
            out.push(b[3]);
            proof {
                assert(out@ =~= old(out)@ + fmt.encode_block_spec(p));
            }
        },
        _ => {
        },
    }
}

/// Decode the block of bytes that starts at `pos` into one pixel.
fn decode_block(fmt: &Format, bytes: &[u8], pos: usize) -> (p: Pixel)
    requires
        fmt.spec_is_fixed(),
        pos + fmt.spec_block_size_bytes() <= bytes@.len(),
    ensures
        p == fmt.decode_block_spec(
            bytes@.subrange(pos as int, pos as int + fmt.spec_block_size_bytes()),
        ),
{
    match fmt {
        Format::A8 => {
            let arr: [u8; 1] = [bytes[pos]];
            proof {
                assert(arr@ =~= bytes@.subrange(pos as int, pos as int + 1));
            }
            Pixel::from_a8(arr)
        },
        Format::Y8 => {
            let arr: [u8; 1] = [bytes[pos]];
            proof {
                assert(arr@ =~= bytes@.subrange(pos as int, pos as int + 1));
            }
            Pixel::from_y8(arr)
        },
        Format::AY8 => {
            let arr: [u8; 1] = [bytes[pos]];
            proof {
                assert(arr@ =~= bytes@.subrange(pos as int, pos as int + 1));
            }
            Pixel::from_ay8(arr)
        },
        Format::A8Y8 => {
            let arr: [u8; 2] = [bytes[pos], bytes[pos + 1]];
            proof {
                assert(arr@ =~= bytes@.subrange(pos as int, pos as int + 2));
            }
            Pixel::from_a8y8(arr)
        },
        Format::R5G6B5 => {
            let arr: [u8; 2] = [bytes[pos], bytes[pos + 1]];
            proof {
                assert(arr@ =~= bytes@.subrange(pos as int, pos as int + 2));
            }
            Pixel::from_r5g6b5(arr)
        },
        Format::A1R5G5B5 => {
            let arr: [u8; 2] = [bytes[pos], bytes[pos + 1]];
            proof {
                assert(arr@ =~= bytes@.subrange(pos as int, pos as int + 2));
            }
            Pixel::from_a1r5g5b5(arr)
        },
        Format::A4R4G4B4 => {
            let arr: [u8; 2] = [bytes[pos], bytes[pos + 1]];
            proof {
                assert(arr@ =~= bytes@.subrange(pos as int, pos as int + 2));
            }
            Pixel::from_a4r4g4b4(arr)
        },
        Format::X8R8G8B8 => {
            let arr: [u8; 4] = [bytes[pos], bytes[pos + 1], bytes[pos + 2], bytes[pos + 3]];
            proof {
                assert(arr@ =~= bytes@.subrange(pos as int, pos as int + 4));
            }
            Pixel::from_x8r8g8b8(arr)
        },
        Format::A8R8G8B8 => {
            let arr: [u8; 4] = [bytes[pos], bytes[pos + 1], bytes[pos + 2], bytes[pos + 3]];
            proof {
                assert(arr@ =~= bytes@.subrange(pos as int, pos as int + 4));
            }
            Pixel::from_a8r8g8b8(arr)
        },
        Format::A8B8G8R8 => {
            let arr: [u8; 4] = [bytes[pos], bytes[pos + 1], bytes[pos + 2], bytes[pos + 3]];
            proof {
                assert(arr@ =~= bytes@.subrange(pos as int, pos as int + 4));
            }
            Pixel::from_a8b8g8r8(arr)
        },
        _ => Pixel { alpha: 0, red: 0, green: 0, blue: 0 },
    }
}

/// Every palette entry is fully opaque.
pub open spec fn palette_all_opaque(pal: Seq<Pixel>) -> bool {
    forall|j: int| 0 <= j < pal.len() ==> (#[trigger] pal[j]).alpha == 255
}

/// Every palette entry is fully transparent or fully opaque.
pub open spec fn palette_binary_alpha(pal: Seq<Pixel>) -> bool {
    forall|j: int|
        0 <= j < pal.len() ==> ((#[trigger] pal[j]).alpha == 0 || pal[j].alpha == 255)
}

/// Some palette entry is fully opaque.
pub open spec fn palette_has_opaque(pal: Seq<Pixel>) -> bool {
    exists|j: int| 0 <= j < pal.len() && (#[trigger] pal[j]).alpha == 255
}

/// The palette is matched with binary transparency buckets.
///
/// A palette whose alpha values are all 0 or 255 starts as one-bit;
/// if it also holds an opaque entry it is demoted and alpha is
/// disregarded entirely instead (see `palette_ignores_alpha`), so the
/// buckets remain in force only for a purely transparent palette.
pub open spec fn palette_one_bit_alpha(pal: Seq<Pixel>) -> bool {
    palette_binary_alpha(pal) && !palette_has_opaque(pal)
}

/// The palette is matched on the color channels alone: either every
/// entry is opaque, or the entries mix only full transparency with
/// full opacity, which demotes the one-bit classification.
pub open spec fn palette_ignores_alpha(pal: Seq<Pixel>) -> bool {
    palette_all_opaque(pal) || (palette_binary_alpha(pal) && palette_has_opaque(pal))
}

/// The distance the matcher uses between a palette entry and a source
/// color, under the palette's own classification.
pub open spec fn entry_dist(pal: Seq<Pixel>, q: Pixel, c: Pixel) -> int {
    if palette_one_bit_alpha(pal) || palette_ignores_alpha(pal) {
        dist_rgb_spec(q, c)
    } else {
        dist_argb_spec(q, c)
    }
}

/// Whether the alpha-bucket filter admits palette entry `q` as a
/// candidate for source color `c`: under one-bit matching, a source
/// leaning transparent (alpha at most 127) excludes opaque entries and
/// a source leaning opaque excludes transparent ones.
pub open spec fn candidate_allowed(pal: Seq<Pixel>, q: Pixel, c: Pixel) -> bool {
    if palette_one_bit_alpha(pal) {
        if c.alpha <= 127 {
            q.alpha != 255
        } else {
            q.alpha != 0
        }
    } else {
        true
    }
}

/// The running (best index, best distance) pair after the first `n`
/// palette entries have been scanned in index order.  A strictly
/// smaller distance takes over, so ties keep the earliest index.
pub open spec fn scan_best(pal: Seq<Pixel>, c: Pixel, n: int) -> (Option<int>, int)
    recommends
        0 <= n <= pal.len(),
    decreases n,
{
    if n <= 0 {
        (None::<int>, 0xFFFF_FFFFint)
    } else {
        let prev = scan_best(pal, c, n - 1);
        let q = pal[n - 1];
        if candidate_allowed(pal, q, c) && entry_dist(pal, q, c) < prev.1 {
            (Some(n - 1), entry_dist(pal, q, c))
        } else {
            prev
        }
    }
}

/// The palette index the matcher yields for a source color: the
/// lowest index at the minimal distance among the entries the alpha
/// filter admits, or nothing when the filter excludes every entry.
pub open spec fn best_index_spec(pal: Seq<Pixel>, c: Pixel) -> Option<int> {
    scan_best(pal, c, pal.len() as int).0
}

/// The matcher's distance is bounded well below the scan's sentinel.
proof fn lemma_entry_dist_bounds(pal: Seq<Pixel>, q: Pixel, c: Pixel)
    ensures
        0 <= entry_dist(pal, q, c) <= 260100,
{
    lemma_sq_diff_bounds(q.alpha, c.alpha);
    lemma_sq_diff_bounds(q.red, c.red);
    lemma_sq_diff_bounds(q.green, c.green);
    lemma_sq_diff_bounds(q.blue, c.blue);
}

/// What the scan guarantees of its result: a found index is the first
/// one at the minimal distance among admitted entries, and nothing is
/// found only when no entry is admitted.
proof fn lemma_scan_best_props(pal: Seq<Pixel>, c: Pixel, n: int)
    requires
        0 <= n <= pal.len(),
    ensures
        ({
            let (best, d) = scan_best(pal, c, n);
            match best {
                None => d == 0xFFFF_FFFFint && (forall|j: int|
                    0 <= j < n ==> !candidate_allowed(pal, #[trigger] pal[j], c)),
                Some(i) => {
                    &&& 0 <= i < n
                    &&& candidate_allowed(pal, pal[i], c)
                    &&& entry_dist(pal, pal[i], c) == d
                    &&& 0 <= d <= 260100
                    &&& forall|j: int|
                        0 <= j < n && candidate_allowed(pal, #[trigger] pal[j], c)
                            ==> entry_dist(pal, pal[j], c) >= d
                    &&& forall|j: int|
                        0 <= j < i && candidate_allowed(pal, #[trigger] pal[j], c)
                            ==> entry_dist(pal, pal[j], c) > d
                },
            }
        }),
    decreases n,
{
    if n > 0 {
        lemma_scan_best_props(pal, c, n - 1);
        lemma_entry_dist_bounds(pal, pal[n - 1], c);
    }
}

/// Map each color in a buffer to the index of the nearest entry of a
/// reference palette.
///
/// The palette is scanned once to pick the policy: a palette that is
/// entirely opaque, or that mixes only full transparency with full
/// opacity, is matched on the color channels alone; a purely
/// transparent palette keeps binary alpha buckets, and any other
/// palette is matched on all four channels.  Each color then takes
/// the lowest index at the minimal squared distance, so ties are
/// resolved deterministically toward earlier entries.
pub fn encode_palettized(from_pixels: &[Pixel], palette: &[Pixel]) -> (r: Result<
    Vec<usize>,
    TexError,
>)
    ensures
        ({
            let pal = palette@;
            let ps = from_pixels@;
            if pal.len() == 0 {
                r == Err::<Vec<usize>, TexError>(TexError::EmptyPalette)
            } else if exists|k: int| 0 <= k < ps.len() && best_index_spec(pal, #[trigger] ps[k]) is None {
                r == Err::<Vec<usize>, TexError>(TexError::NoCandidate)
            } else {
                match r {
                    Ok(ids) => {
                        &&& ids@.len() == ps.len()
                        &&& forall|k: int|
                            0 <= k < ps.len() ==> best_index_spec(pal, ps[k]) == Some(
                                #[trigger] ids@[k] as int,
                            ) && ids@[k] < pal.len()
                    },
                    Err(_) => false,
                }
            }
        }),
{
    let ghost pal = palette@;
    let ghost ps = from_pixels@;
    if palette.len() == 0 {
        return Err(TexError::EmptyPalette);
    }

    // Classify the palette's alpha distribution in one scan.
    let mut no_alpha = true;
    let mut one_bit_alpha = true;
    let mut alpha_255_exists = false;
    let mut i: usize = 0;
    while i < palette.len()
        invariant
            0 <= i <= pal.len(),
            pal == palette@,
            no_alpha <==> (forall|j: int| 0 <= j < i ==> (#[trigger] pal[j]).alpha == 255),
            one_bit_alpha <==> (forall|j: int|
                0 <= j < i ==> ((#[trigger] pal[j]).alpha == 0 || pal[j].alpha == 255)),
            alpha_255_exists <==> (exists|j: int|
                0 <= j < i && (#[trigger] pal[j]).alpha == 255),
        decreases pal.len() - i,
    {
        let entry = palette[i];
        if entry.alpha != 255 {
            no_alpha = false;
            if entry.alpha != 0 {
                one_bit_alpha = false;
            }
        } else {
            alpha_255_exists = true;
        }
        i = i + 1;
    }

    // A palette that mixes fully-opaque and fully-transparent entries
    // is not meaningfully binary: disregard alpha entirely instead of
    // bucketing it.
    if one_bit_alpha && alpha_255_exists {
        one_bit_alpha = false;
        no_alpha = true;
    }
    let use_rgb = one_bit_alpha || no_alpha;
    proof {
        assert(one_bit_alpha == palette_one_bit_alpha(pal));
        assert(use_rgb == (palette_one_bit_alpha(pal) || palette_ignores_alpha(pal)));
    }

    let mut out: Vec<usize> = Vec::new();
    let mut k: usize = 0;
    while k < from_pixels.len()
        invariant
            0 <= k <= ps.len(),
            pal == palette@,
            ps == from_pixels@,
            pal.len() > 0,
            one_bit_alpha == palette_one_bit_alpha(pal),
            use_rgb == (palette_one_bit_alpha(pal) || palette_ignores_alpha(pal)),
            out@.len() == k,
            forall|t: int|
                0 <= t < k ==> best_index_spec(pal, #[trigger] ps[t]) == Some(out@[t] as int)
                    && out@[t] < pal.len(),
        decreases ps.len() - k,
    {
        let c = from_pixels[k];
        let mut output: Option<usize> = None;
        let mut distance: u32 = u32::MAX;
        let mut i: usize = 0;
        while i < palette.len()
            invariant
                0 <= i <= pal.len(),
                pal == palette@,
                c == ps[k as int],
                one_bit_alpha == palette_one_bit_alpha(pal),
                use_rgb == (palette_one_bit_alpha(pal) || palette_ignores_alpha(pal)),
                distance as int == scan_best(pal, c, i as int).1,
                match output {
                    None => scan_best(pal, c, i as int).0 is None,
                    Some(b) => scan_best(pal, c, i as int).0 == Some(b as int) && b
                        < pal.len(),
                },
            decreases pal.len() - i,
        {
            let q = palette[i];

            // For one-bit alpha, consider alpha as binary rather than
            // calculating the difference.
            let mut skip = false;
            if one_bit_alpha {
                if c.alpha <= 127 && q.alpha == 255 {
                    skip = true;
                }
                if c.alpha > 127 && q.alpha == 0 {
                    skip = true;
                }
            }
            proof {
                assert(skip == !candidate_allowed(pal, pal[i as int], c));
            }

            if !skip {
                let new_distance = if use_rgb {
                    q.distance_rgb(c)
                } else {
                    q.distance_argb(c)
                };
                if distance > new_distance {
                    distance = new_distance;
                    output = Some(i);
                }
            }
            i = i + 1;
        }
        match output {
            Some(found) => out.push(found),
            None => {
                return Err(TexError::NoCandidate);
            },
        }
        k = k + 1;
    }
    Ok(out)
}

/// A zero squared difference means the two channel values are equal.
proof fn lemma_sq_diff_zero(x: u8, y: u8)
    requires
        crate::pixel::sq_diff(x, y) == 0,
    ensures
        x == y,
{
    assert(x == y) by (nonlinear_arith)
        requires
            (x - y) * (x - y) == 0,
    ;
}

/// Two pixels at distance zero agree on every channel the palette's
/// metric reads, so either can stand as the entry in a distance to any
/// third color.
proof fn lemma_zero_dist(pal: Seq<Pixel>, a: Pixel, b: Pixel)
    requires
        entry_dist(pal, a, b) == 0,
    ensures
        forall|x: Pixel| entry_dist(pal, a, x) == entry_dist(pal, b, x),
{
    lemma_sq_diff_bounds(a.alpha, b.alpha);
    lemma_sq_diff_bounds(a.red, b.red);
    lemma_sq_diff_bounds(a.green, b.green);
    lemma_sq_diff_bounds(a.blue, b.blue);
    lemma_sq_diff_zero(a.red, b.red);
    lemma_sq_diff_zero(a.green, b.green);
    lemma_sq_diff_zero(a.blue, b.blue);
    if !(palette_one_bit_alpha(pal) || palette_ignores_alpha(pal)) {
        lemma_sq_diff_zero(a.alpha, b.alpha);
    }
}

/// Palettized idempotence: re-matching the palette entry that a color
/// matched to yields the same index again, so
/// encode-decode-encode through a palette is stable.
///
/// The matched entry is at distance zero from itself; any
/// earlier entry at distance zero would have tied with the original
/// match and been preferred the first time as well.
pub proof fn lemma_palettized_idempotent(pal: Seq<Pixel>, c: Pixel, i: int)
    requires
        best_index_spec(pal, c) == Some(i),
    ensures
        0 <= i < pal.len(),
        best_index_spec(pal, pal[i]) == Some(i),
{
    let n = pal.len() as int;
    lemma_scan_best_props(pal, c, n);
    let d1 = scan_best(pal, c, n).1;
    let c2 = pal[i];

    // The alpha filter puts the matched entry in the same bucket as
    // the source color, so the two admit the same candidates.
    assert forall|q: Pixel|
        candidate_allowed(pal, q, c2) == candidate_allowed(pal, q, c) by {
        if palette_one_bit_alpha(pal) {
            if c2.alpha == 255 {
                assert(palette_has_opaque(pal));
            }
            assert(c2.alpha == 0 || c2.alpha == 255);
            if c.alpha > 127 {
                // The filter admitted the matched entry, so it is not
                // transparent; a binary non-opaque entry cannot exist.
                assert(candidate_allowed(pal, pal[i], c));
                assert(false);
            }
        }
    }

    lemma_scan_best_props(pal, c2, n);
    assert(entry_dist(pal, c2, c2) == 0) by {
        assert((c2.alpha - c2.alpha) * (c2.alpha - c2.alpha) == 0) by (nonlinear_arith);
        assert((c2.red - c2.red) * (c2.red - c2.red) == 0) by (nonlinear_arith);
        assert((c2.green - c2.green) * (c2.green - c2.green) == 0) by (nonlinear_arith);
        assert((c2.blue - c2.blue) * (c2.blue - c2.blue) == 0) by (nonlinear_arith);
    }

    match scan_best(pal, c2, n).0 {
        None => {
            // Impossible: the matched entry itself is admitted.
            assert(candidate_allowed(pal, pal[i], c2));
            assert(false);
        },
        Some(i2) => {
            let d2 = scan_best(pal, c2, n).1;
            // The minimum for the matched entry is zero: it is its own
            // candidate at distance zero.
            assert(entry_dist(pal, pal[i], c2) == 0);
            assert(d2 == 0);
            // No earlier admitted entry reaches distance zero, and any
            // entry at distance zero from the matched entry ties the
            // original match, so the first scan would have stopped
            // there already.
            lemma_zero_dist(pal, pal[i2 as int], c2);
            assert(entry_dist(pal, pal[i2 as int], c) == d1);
            if i2 < i {
                assert(false);
            }
            if i2 > i {
                assert(entry_dist(pal, pal[i], c2) > 0);
                assert(false);
            }
        },
    }
}

/// Alpha-bucket exclusion: under one-bit-alpha matching, a source
/// color leaning opaque never selects a fully transparent entry, and
/// one leaning transparent never selects a fully opaque entry, however
/// small the color distance.
pub proof fn lemma_one_bit_alpha_excludes(pal: Seq<Pixel>, c: Pixel, i: int)
    requires
        palette_one_bit_alpha(pal),
        best_index_spec(pal, c) == Some(i),
    ensures
        0 <= i < pal.len(),
        c.alpha > 127 ==> pal[i].alpha != 0,
        c.alpha <= 127 ==> pal[i].alpha != 255,
{
    lemma_scan_best_props(pal, c, pal.len() as int);
}

/// Quantization is idempotent for every fixed layout: bytes that came
/// out of the encoder decode and re-encode to the same bytes.  The
/// first pass may lose precision; the second is exact.
pub proof fn lemma_encode_stable(fmt: Format, p: Pixel)
    requires
        fmt.spec_is_fixed(),
    ensures
        fmt.encode_block_spec(fmt.decode_block_spec(fmt.encode_block_spec(p)))
            == fmt.encode_block_spec(p),
{
    let enc = fmt.encode_block_spec(p);
    match fmt {
        Format::R5G6B5 => {
            let v = r5g6b5_bits(p);
            lemma_r5g6b5_round_trip((v % 256) as u8, (v / 256) as u8);
            assert(enc =~= seq![(v % 256) as u8, (v / 256) as u8]);
        },
        Format::A1R5G5B5 => {
            let v = a1r5g5b5_bits(p);
            lemma_a1r5g5b5_round_trip((v % 256) as u8, (v / 256) as u8);
            assert(enc =~= seq![(v % 256) as u8, (v / 256) as u8]);
        },
        Format::A4R4G4B4 => {
            let v = a4r4g4b4_bits(p);
            lemma_a4r4g4b4_round_trip((v % 256) as u8, (v / 256) as u8);
            assert(enc =~= seq![(v % 256) as u8, (v / 256) as u8]);
        },
        _ => {
            // The byte and luma layouts decode to a pixel whose
            // re-encoding reads back exactly the stored bytes; a gray
            // pixel keeps its luma without rounding.
            assert(fmt.encode_block_spec(fmt.decode_block_spec(enc)) =~= enc);
        },
    }
}

/// Quantization of a whole buffer is idempotent for every fixed
/// layout: when a byte buffer is the blockwise encoding of a pixel
/// buffer, decoding it blockwise and encoding the result reproduces
/// the byte buffer exactly.  The hypotheses are precisely what
/// `encode_pixels` and `decode_pixels` guarantee of their outputs.
pub proof fn lemma_encode_buffer_idempotent(
    fmt: Format,
    ps1: Seq<Pixel>,
    bytes1: Seq<u8>,
    ps2: Seq<Pixel>,
    bytes2: Seq<u8>,
)
    requires
        fmt.spec_is_fixed(),
        bytes1.len() == ps1.len() * fmt.spec_block_size_bytes(),
        forall|k: int|
            0 <= k < ps1.len() ==> bytes1.subrange(
                k * fmt.spec_block_size_bytes(),
                (k + 1) * fmt.spec_block_size_bytes(),
            ) == fmt.encode_block_spec(#[trigger] ps1[k]),
        ps2.len() == ps1.len(),
        forall|k: int|
            0 <= k < ps2.len() ==> #[trigger] ps2[k] == fmt.decode_block_spec(
                bytes1.subrange(
                    k * fmt.spec_block_size_bytes(),
                    (k + 1) * fmt.spec_block_size_bytes(),
                ),
            ),
        bytes2.len() == bytes1.len(),
        forall|k: int|
            0 <= k < ps2.len() ==> bytes2.subrange(
                k * fmt.spec_block_size_bytes(),
                (k + 1) * fmt.spec_block_size_bytes(),
            ) == fmt.encode_block_spec(#[trigger] ps2[k]),
    ensures
        bytes2 == bytes1,
{
    let bs = fmt.spec_block_size_bytes();
    assert forall|k: int| 0 <= k < ps1.len() implies bytes2.subrange(
        #[trigger] (k * bs),
        (k + 1) * bs,
    ) == bytes1.subrange(k * bs, (k + 1) * bs) by {
        assert(ps2[k] == fmt.decode_block_spec(bytes1.subrange(k * bs, (k + 1) * bs)));
        assert(bytes2.subrange(k * bs, (k + 1) * bs) == fmt.encode_block_spec(ps2[k]));
        lemma_encode_stable(fmt, ps1[k]);
    }
    assert forall|j: int| 0 <= j < bytes1.len() implies bytes1[j] == bytes2[j] by {
        let k = j / bs;
        let off = j % bs;
        vstd::arithmetic::div_mod::lemma_fundamental_div_mod(j, bs);
        lemma_mod_division_less_than_divisor(j, bs);
        assert(0 <= k < ps1.len()) by {
            vstd::arithmetic::div_mod::lemma_div_pos_is_pos(j, bs);
            vstd::arithmetic::div_mod::lemma_multiply_divide_lt(j, bs, ps1.len() as int);
            lemma_mul_is_commutative(ps1.len() as int, bs);
        }
        assert(bytes1.subrange(k * bs, (k + 1) * bs)[off] == bytes1[j]) by {
            lemma_mul_inequality(k + 1, ps1.len() as int, bs);
            lemma_mul_is_commutative(k + 1, bs);
            lemma_mul_is_commutative(ps1.len() as int, bs);
            lemma_mul_is_distributive_add_other_way(bs, k, 1);
            lemma_mul_nonnegative(k, bs);
        }
        assert(bytes2.subrange(k * bs, (k + 1) * bs)[off] == bytes2[j]) by {
            lemma_mul_inequality(k + 1, ps1.len() as int, bs);
            lemma_mul_is_commutative(k + 1, bs);
            lemma_mul_is_commutative(ps1.len() as int, bs);
            lemma_mul_is_distributive_add_other_way(bs, k, 1);
            lemma_mul_nonnegative(k, bs);
        }
    }
    assert(bytes2 =~= bytes1);
}

/// Palettized idempotence over a whole buffer: indices produced from
/// the palette entries of a first match equal the first match's
/// indices.  The hypotheses are what `encode_palettized` guarantees
/// of its output and what decoding through the palette yields.
pub proof fn lemma_palettized_buffer_idempotent(
    pal: Seq<Pixel>,
    ps1: Seq<Pixel>,
    ids1: Seq<usize>,
    ps2: Seq<Pixel>,
    ids2: Seq<usize>,
)
    requires
        ids1.len() == ps1.len(),
        forall|k: int|
            0 <= k < ps1.len() ==> best_index_spec(pal, #[trigger] ps1[k]) == Some(
                ids1[k] as int,
            ) && ids1[k] < pal.len(),
        ps2.len() == ps1.len(),
        forall|k: int| 0 <= k < ps2.len() ==> #[trigger] ps2[k] == pal[ids1[k] as int],
        ids2.len() == ps2.len(),
        forall|k: int|
            0 <= k < ps2.len() ==> best_index_spec(pal, #[trigger] ps2[k]) == Some(
                ids2[k] as int,
            ),
    ensures
        ids2 == ids1,
{
    assert forall|k: int| 0 <= k < ids1.len() implies ids1[k] == ids2[k] by {
        assert(ps2[k] == pal[ids1[k] as int]);
        assert(best_index_spec(pal, ps2[k]) == Some(ids2[k] as int));
        lemma_palettized_idempotent(pal, ps1[k], ids1[k] as int);
    }
    assert(ids2 =~= ids1);
}

/// The quotient of `x` by `d` rounded up.
fn div_ceil_usize(x: usize, d: usize) -> (r: usize)
    requires
        1 <= d <= 4,
    ensures
        r as int == spec_div_ceil(x as int, d as int),
{
    proof {
        lemma_mod_division_less_than_divisor(x as int, d as int);
        if d == 1 {
            assert(x as int % 1 == 0) by {
                lemma_mod_division_less_than_divisor(x as int, 1);
            }
        } else if x > 0 {
            lemma_div_is_strictly_smaller(x as int, d as int);
        }
    }
    x / d + (if x % d == 0 {
        0
    } else {
        1
    })
}

} // verus!
