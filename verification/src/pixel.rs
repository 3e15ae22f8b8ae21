use vstd::prelude::*;
use vstd::arithmetic::div_mod::{
    lemma_div_denominator, lemma_div_pos_is_pos, lemma_fundamental_div_mod,
    lemma_fundamental_div_mod_converse, lemma_mod_division_less_than_divisor,
    lemma_mod_multiples_vanish, lemma_multiply_divide_lt, lemma_small_mod,
};
use vstd::arithmetic::mul::{
    lemma_mul_inequality, lemma_mul_is_associative, lemma_mul_is_commutative,
    lemma_mul_is_distributive_add_other_way, lemma_mul_is_distributive_sub_other_way,
    lemma_mul_nonnegative,
};
use vstd::arithmetic::power2::{
    lemma2_to64, lemma_pow2_adds, lemma_pow2_pos, lemma_pow2_strictly_increases, lemma_pow2_unfold,
    pow2,
};

verus! {

/// A color with 8-bit alpha, red, green, and blue channels.
///
/// Channels are independent (not premultiplied); there is no invariant
/// beyond the channel range.  Values are copied freely and never
/// shared-mutated.
#[derive(Copy, Clone, PartialEq, Eq, Structural, Debug, Default)]
pub struct Pixel {
    pub alpha: u8,
    pub red: u8,
    pub green: u8,
    pub blue: u8,
}

/// The all-ones value of a channel `bits` wide: `2^bits - 1`.
pub open spec fn ones_spec(bits: u8) -> int
    recommends
        bits <= 8,
{
    pow2(bits as nat) - 1
}

/// A channel value rescaled from a `from_bits`-wide range to a
/// `to_bits`-wide range: scale, then round to nearest with ties up.
///
/// A width of zero means the channel is absent on that side; an absent
/// channel is treated as fully present, so the result is 255.  Values
/// above the `from_bits` range are legal inputs; the quotient is then
/// reduced modulo 256, exactly as the executable conversion truncates.
pub open spec fn rescale_spec(value: u8, from_bits: u8, to_bits: u8) -> u8
    recommends
        from_bits <= 8,
        to_bits <= 8,
{
    if from_bits == 0 || to_bits == 0 {
        255u8
    } else {
        let f = ones_spec(from_bits);
        let t = ones_spec(to_bits);
        ((((value as int) * t + f / 2) / f) % 256) as u8
    }
}

/// The all-ones value for a channel width, as a byte.
fn make_ones(size: usize) -> (r: u8)
    requires
        size <= 8,
    ensures
        r as int == ones_spec(size as u8),
{
    proof {
        lemma2_to64();
    }
    match size {
        0 => 0b00000000,
        1 => 0b00000001,
        2 => 0b00000011,
        3 => 0b00000111,
        4 => 0b00001111,
        5 => 0b00011111,
        6 => 0b00111111,
        7 => 0b01111111,
        _ => 0b11111111,
    }
}

/// Rescale a channel value from one bit width to another.
///
/// Absent channels (width 0 on either side) rescale to 255: a channel
/// that does not exist is treated as fully present, never as zero.
pub fn rescale_channel(value: u8, from_bits: u8, to_bits: u8) -> (r: u8)
    requires
        from_bits <= 8,
        to_bits <= 8,
    ensures
        r == rescale_spec(value, from_bits, to_bits),
{
    if from_bits == 0 || to_bits == 0 {
        255
    } else {
        let f: u16 = make_ones(from_bits as usize) as u16;
        let t: u16 = make_ones(to_bits as usize) as u16;
        proof {
            lemma2_to64();
            vstd::arithmetic::power2::lemma_pow2_strictly_increases(0, from_bits as nat);
            vstd::arithmetic::mul::lemma_mul_upper_bound(value as int, 255, t as int, 255);
        }
        let q: u16 = ((value as u16) * t + f / 2) / f;
        (q % 256) as u8
    }
}

/// The quotient `(v*t + f/2) / f` rounds `v*t/f` to nearest (ties up),
/// so it stays within `[0, t]` whenever `v` is within `[0, f]`.
proof fn lemma_round_quotient_bounds(v: int, f: int, t: int)
    requires
        1 <= f,
        0 <= t,
        0 <= v <= f,
    ensures
        0 <= (v * t + f / 2) / f <= t,
{
    let h = f / 2;
    let x = v * t + h;
    assert(0 <= h < f) by {
        lemma_fundamental_div_mod(f, 2);
    }
    lemma_div_pos_is_pos(x, f);
    assert(v * t <= f * t) by {
        lemma_mul_inequality(v, f, t);
    }
    assert(x < f * (t + 1)) by {
        assert(f * (t + 1) == f * t + f) by {
            vstd::arithmetic::mul::lemma_mul_is_distributive_add(f, t, 1);
        }
    }
    assert(x / f <= t) by {
        lemma_fundamental_div_mod(x, f);
        if x / f > t {
            lemma_mul_inequality(t + 1, x / f, f);
            assert((t + 1) * f <= (x / f) * f);
        }
    }
}

/// Exact round trip of the channel rescale: an `n`-bit value sent up to
/// 8 bits and back down to `n` bits is reproduced exactly, for every
/// width `n` in `[1, 8]` and every representable value.
pub proof fn lemma_rescale_round_trip(n: u8, v: u8)
    requires
        1 <= n <= 8,
        v as int <= ones_spec(n),
    ensures
        rescale_spec(rescale_spec(v, n, 8), 8, n) == v,
{
    let f = ones_spec(n);
    lemma2_to64();
    assert(1 <= f <= 255);
    let h = f / 2;
    let x = (v as int) * 255 + h;
    lemma_round_quotient_bounds(v as int, f, 255);
    let up = x / f;
    lemma_small_mod(up as nat, 256);
    assert(rescale_spec(v, n, 8) == up);

    // Second leg: (up * f + 127) / 255 recovers v.
    lemma_fundamental_div_mod(x, f);
    let r = x % f;
    assert(up * f == x - r);
    assert(0 <= h < f && f <= 2 * h + 1) by {
        lemma_fundamental_div_mod(f, 2);
    }
    let y = up * f + 127;
    assert(h <= 127);
    assert(y >= (v as int) * 255) by {
        assert(r <= f - 1);
    }
    assert(y < (v as int) * 255 + 255);
    assert(y / 255 == v as int) by {
        lemma_fundamental_div_mod_converse(y, 255, v as int, y - (v as int) * 255);
    }
    lemma_small_mod((y / 255) as nat, 256);
}

/// A channel value truncated to its declared width.
pub open spec fn mask_to(value: u8, bits: u8) -> int
    recommends
        bits <= 8,
{
    (value as int) % (pow2(bits as nat) as int)
}

/// Channels bit-concatenated most-significant-first in the order
/// alpha, red, green, blue, each truncated to its declared width.
/// Unused high bits of the container are zero.
pub open spec fn pack_spec(p: Pixel, aw: u8, rw: u8, gw: u8, bw: u8) -> int
    recommends
        aw <= 8 && rw <= 8 && gw <= 8 && bw <= 8,
{
    mask_to(p.alpha, aw) * pow2((rw + gw + bw) as nat) + mask_to(p.red, rw) * pow2(
        (gw + bw) as nat,
    ) + mask_to(p.green, gw) * pow2(bw as nat) + mask_to(p.blue, bw)
}

/// The `width`-bit field of `raw` that starts `low` bits up.
pub open spec fn extract_channel(raw: int, low: nat, width: u8) -> u8
    recommends
        width <= 8,
{
    ((raw / pow2(low) as int) % pow2(width as nat) as int) as u8
}

/// The inverse bit extraction of `pack_spec`: each channel at its
/// native width, no rescaling.
pub open spec fn unpack_spec(raw: int, aw: u8, rw: u8, gw: u8, bw: u8) -> Pixel
    recommends
        aw <= 8 && rw <= 8 && gw <= 8 && bw <= 8,
{
    Pixel {
        alpha: extract_channel(raw, (rw + gw + bw) as nat, aw),
        red: extract_channel(raw, (gw + bw) as nat, rw),
        green: extract_channel(raw, bw as nat, gw),
        blue: extract_channel(raw, 0, bw),
    }
}

/// Every channel rescaled from one set of widths to another.
pub open spec fn convert_spec(
    p: Pixel,
    a1: u8,
    r1: u8,
    g1: u8,
    b1: u8,
    a2: u8,
    r2: u8,
    g2: u8,
    b2: u8,
) -> Pixel {
    Pixel {
        alpha: rescale_spec(p.alpha, a1, a2),
        red: rescale_spec(p.red, r1, r2),
        green: rescale_spec(p.green, g1, g2),
        blue: rescale_spec(p.blue, b1, b2),
    }
}

/// The 16-bit value held by two little-endian bytes.
pub open spec fn le16_val(b: Seq<u8>) -> int
    recommends
        b.len() == 2,
{
    b[0] + 256 * b[1]
}

/// A 16-bit value split into two little-endian bytes.
pub open spec fn le16_of(v: int) -> Seq<u8>
    recommends
        0 <= v < 65536,
{
    seq![(v % 256) as u8, (v / 256) as u8]
}

/// The pixel decoded from a two-byte little-endian R5G6B5 block:
/// native channels extracted and rescaled up to 8 bits, fully opaque.
pub open spec fn r5g6b5_pixel(b: Seq<u8>) -> Pixel
    recommends
        b.len() == 2,
{
    convert_spec(unpack_spec(le16_val(b), 0, 5, 6, 5), 0, 5, 6, 5, 8, 8, 8, 8)
}

/// The 16-bit R5G6B5 value a pixel encodes to.
pub open spec fn r5g6b5_bits(p: Pixel) -> int {
    pack_spec(convert_spec(p, 8, 8, 8, 8, 0, 5, 6, 5), 0, 5, 6, 5)
}

/// The pixel decoded from a two-byte little-endian A1R5G5B5 block.
pub open spec fn a1r5g5b5_pixel(b: Seq<u8>) -> Pixel
    recommends
        b.len() == 2,
{
    convert_spec(unpack_spec(le16_val(b), 1, 5, 5, 5), 1, 5, 5, 5, 8, 8, 8, 8)
}

/// The 16-bit A1R5G5B5 value a pixel encodes to.
pub open spec fn a1r5g5b5_bits(p: Pixel) -> int {
    pack_spec(convert_spec(p, 8, 8, 8, 8, 1, 5, 5, 5), 1, 5, 5, 5)
}

/// The pixel decoded from a two-byte little-endian A4R4G4B4 block.
pub open spec fn a4r4g4b4_pixel(b: Seq<u8>) -> Pixel
    recommends
        b.len() == 2,
{
    convert_spec(unpack_spec(le16_val(b), 4, 4, 4, 4), 4, 4, 4, 4, 8, 8, 8, 8)
}

/// The 16-bit A4R4G4B4 value a pixel encodes to.
pub open spec fn a4r4g4b4_bits(p: Pixel) -> int {
    pack_spec(convert_spec(p, 8, 8, 8, 8, 4, 4, 4, 4), 4, 4, 4, 4)
}

/// `2^e` as a machine word, for field shifts.
fn pow2_u32(e: u8) -> (r: u32)
    requires
        e <= 16,
    ensures
        r as int == pow2(e as nat),
        r >= 1,
{
    let mut r: u32 = 1;
    let mut i: u8 = 0;
    proof {
        lemma_pow2_pos(0);
        assert(pow2(0) == 1) by {
            lemma2_to64();
        }
    }
    while i < e
        invariant
            i <= e,
            e <= 16,
            r as int == pow2(i as nat),
        decreases e - i,
    {
        proof {
            lemma_pow2_unfold((i + 1) as nat);
            lemma2_to64();
            if (i as nat) < 16 {
                lemma_pow2_strictly_increases(i as nat, 16);
            }
        }
        r = r * 2;
        i = i + 1;
    }
    proof {
        lemma_pow2_pos(e as nat);
    }
    r
}

/// `2^w` for a channel width stays within the byte range.
proof fn lemma_pow2_channel(w: u8)
    requires
        w <= 8,
    ensures
        1 <= pow2(w as nat) <= 256,
{
    lemma2_to64();
    if (w as nat) < 8 {
        lemma_pow2_strictly_increases(w as nat, 8);
    }
}

/// One packing step: a high field shifted past a low field stays
/// within the combined width.
proof fn lemma_pack_step(hi: int, hw: u8, lo: int, lw: nat)
    requires
        0 <= hi < pow2(hw as nat),
        0 <= lo < pow2(lw),
    ensures
        0 <= hi * pow2(lw) + lo < pow2(hw as nat + lw),
{
    lemma_pow2_pos(lw);
    lemma_mul_nonnegative(hi, pow2(lw) as int);
    assert(hi * pow2(lw) <= (pow2(hw as nat) - 1) * pow2(lw)) by {
        lemma_mul_inequality(hi, pow2(hw as nat) - 1, pow2(lw) as int);
    }
    assert((pow2(hw as nat) - 1) * pow2(lw) == pow2(hw as nat) * pow2(lw) - pow2(lw)) by {
        lemma_mul_is_distributive_sub_other_way(pow2(lw) as int, pow2(hw as nat) as int, 1);
    }
    lemma_pow2_adds(hw as nat, lw);
}

/// A packed value fits the sum of its channel widths.
pub proof fn lemma_pack_bound(p: Pixel, aw: u8, rw: u8, gw: u8, bw: u8)
    requires
        aw <= 8 && rw <= 8 && gw <= 8 && bw <= 8,
    ensures
        0 <= pack_spec(p, aw, rw, gw, bw) < pow2((aw + rw + gw + bw) as nat),
{
    let a = mask_to(p.alpha, aw);
    let r = mask_to(p.red, rw);
    let g = mask_to(p.green, gw);
    let b = mask_to(p.blue, bw);
    lemma_pow2_pos(aw as nat);
    lemma_pow2_pos(rw as nat);
    lemma_pow2_pos(gw as nat);
    lemma_pow2_pos(bw as nat);
    lemma_mod_division_less_than_divisor(p.alpha as int, pow2(aw as nat) as int);
    lemma_mod_division_less_than_divisor(p.red as int, pow2(rw as nat) as int);
    lemma_mod_division_less_than_divisor(p.green as int, pow2(gw as nat) as int);
    lemma_mod_division_less_than_divisor(p.blue as int, pow2(bw as nat) as int);
    lemma_pack_step(g, gw, b, bw as nat);
    lemma_pack_step(r, rw, g * pow2(bw as nat) + b, (gw + bw) as nat);
    lemma_pack_step(a, aw, r * pow2((gw + bw) as nat) + g * pow2(bw as nat) + b, (
    rw + gw + bw) as nat);
}

/// Packing the channels extracted from a value reproduces the value,
/// whenever the value fits the combined width.
#[verifier::rlimit(40)]
pub proof fn lemma_unpack_pack(v: int, aw: u8, rw: u8, gw: u8, bw: u8)
    requires
        aw <= 8 && rw <= 8 && gw <= 8 && bw <= 8,
        aw + rw + gw + bw <= 16,
        0 <= v < pow2((aw + rw + gw + bw) as nat),
    ensures
        pack_spec(unpack_spec(v, aw, rw, gw, bw), aw, rw, gw, bw) == v,
{
    let pb = pow2(bw as nat) as int;
    let pg = pow2(gw as nat) as int;
    let pr = pow2(rw as nat) as int;
    let pa = pow2(aw as nat) as int;
    lemma_pow2_channel(bw);
    lemma_pow2_channel(gw);
    lemma_pow2_channel(rw);
    lemma_pow2_channel(aw);
    lemma2_to64();

    let b = v % pb;
    let v1 = v / pb;
    let g = v1 % pg;
    let v2 = v1 / pg;
    let r = v2 % pr;
    let v3 = v2 / pr;

    lemma_div_pos_is_pos(v, pb);
    lemma_fundamental_div_mod(v, pb);
    lemma_mod_division_less_than_divisor(v, pb);
    lemma_div_pos_is_pos(v1, pg);
    lemma_fundamental_div_mod(v1, pg);
    lemma_mod_division_less_than_divisor(v1, pg);
    lemma_div_pos_is_pos(v2, pr);
    lemma_fundamental_div_mod(v2, pr);
    lemma_mod_division_less_than_divisor(v2, pr);

    // The nested quotients are single divisions by larger powers.
    assert(v1 == v / pow2(bw as nat) as int);
    assert(v2 == v / pow2((gw + bw) as nat) as int) by {
        lemma_div_denominator(v, pb, pg);
        lemma_pow2_adds(gw as nat, bw as nat);
    }
    assert(v3 == v / pow2((rw + gw + bw) as nat) as int) by {
        lemma_div_denominator(v, pow2((gw + bw) as nat) as int, pr);
        lemma_pow2_adds(rw as nat, (gw + bw) as nat);
        lemma_pow2_pos((gw + bw) as nat);
    }

    // The topmost field is not truncated: v3 already fits aw bits.
    assert(0 <= v3 < pa) by {
        lemma_pow2_adds(aw as nat, (rw + gw + bw) as nat);
        lemma_mul_is_commutative(pa, pow2((rw + gw + bw) as nat) as int);
        lemma_pow2_pos((rw + gw + bw) as nat);
        lemma_multiply_divide_lt(v, pow2((rw + gw + bw) as nat) as int, pa);
        lemma_div_pos_is_pos(v2, pr);
    }
    assert(v3 % pa == v3) by {
        lemma_small_mod(v3 as nat, pa as nat);
    }

    // The extracted channels fit in a byte and mask to themselves.
    let up = unpack_spec(v, aw, rw, gw, bw);
    assert(up.blue as int == b && mask_to(up.blue, bw) == b) by {
        assert(v / pow2(0) as int == v) by {
            lemma2_to64();
        }
        lemma_small_mod(b as nat, pb as nat);
    }
    assert(up.green as int == g && mask_to(up.green, gw) == g) by {
        lemma_small_mod(g as nat, pg as nat);
    }
    assert(up.red as int == r && mask_to(up.red, rw) == r) by {
        lemma_small_mod(r as nat, pr as nat);
    }
    assert(up.alpha as int == v3 && mask_to(up.alpha, aw) == v3) by {
        lemma_small_mod(v3 as nat, pa as nat);
    }

    // Reassemble v from the fields, widest shift first.
    assert(v2 == v3 * pr + r) by {
        lemma_mul_is_commutative(pr, v3);
    }
    assert(v1 == (v3 * pr + r) * pg + g) by {
        lemma_mul_is_commutative(pg, v2);
    }
    assert(v == ((v3 * pr + r) * pg + g) * pb + b) by {
        lemma_mul_is_commutative(pb, v1);
    }
    assert(((v3 * pr + r) * pg + g) * pb == (v3 * pr + r) * pg * pb + g * pb) by {
        lemma_mul_is_distributive_add_other_way(pb, (v3 * pr + r) * pg, g);
    }
    assert((v3 * pr + r) * pg == v3 * pr * pg + r * pg) by {
        lemma_mul_is_distributive_add_other_way(pg, v3 * pr, r);
    }
    assert((v3 * pr * pg + r * pg) * pb == v3 * pr * pg * pb + r * pg * pb) by {
        lemma_mul_is_distributive_add_other_way(pb, v3 * pr * pg, r * pg);
    }
    assert(v3 * pr * pg * pb == v3 * pow2((rw + gw + bw) as nat)) by {
        lemma_mul_is_associative(v3, pr, pg);
        lemma_mul_is_associative(v3 * pr, pg, pb);
        lemma_mul_is_associative(v3, pr * pg, pb);
        lemma_mul_is_associative(pr, pg, pb);
        lemma_mul_is_associative(v3, pr, pg * pb);
        lemma_pow2_adds(gw as nat, bw as nat);
        lemma_pow2_adds(rw as nat, (gw + bw) as nat);
    }
    assert(r * pg * pb == r * pow2((gw + bw) as nat)) by {
        lemma_mul_is_associative(r, pg, pb);
        lemma_pow2_adds(gw as nat, bw as nat);
    }
}

/// Extract channels from a packed value, each at its native width.
pub fn unpack_channels(raw: u16, aw: u8, rw: u8, gw: u8, bw: u8) -> (p: Pixel)
    requires
        aw <= 8 && rw <= 8 && gw <= 8 && bw <= 8,
        aw + rw + gw + bw <= 16,
    ensures
        p == unpack_spec(raw as int, aw, rw, gw, bw),
{
    let v: u32 = raw as u32;
    let pb = pow2_u32(bw);
    let pg = pow2_u32(gw);
    let pr = pow2_u32(rw);
    let pa = pow2_u32(aw);
    proof {
        lemma_pow2_channel(aw);
        lemma_pow2_channel(rw);
        lemma_pow2_channel(gw);
        lemma_pow2_channel(bw);
        lemma2_to64();
        assert(v as int / pow2(0) as int == v as int);
    }
    let sg = pow2_u32(bw + gw);
    let sr = pow2_u32(bw + gw + rw);
    proof {
        lemma_pow2_adds(gw as nat, bw as nat);
        lemma_pow2_adds(rw as nat, (gw + bw) as nat);
        lemma_div_denominator(v as int, pb as int, pg as int);
        lemma_div_denominator(v as int, sg as int, pr as int);
        lemma_div_pos_is_pos(v as int, pb as int);
        lemma_div_pos_is_pos(v as int, sg as int);
        lemma_mod_division_less_than_divisor(v as int, pb as int);
        lemma_mod_division_less_than_divisor((v / pb) as int, pg as int);
        lemma_mod_division_less_than_divisor((v / sg) as int, pr as int);
        lemma_mod_division_less_than_divisor((v / sr) as int, pa as int);
    }
    Pixel {
        alpha: ((v / sr) % pa) as u8,
        red: ((v / sg) % pr) as u8,
        green: ((v / pb) % pg) as u8,
        blue: (v % pb) as u8,
    }
}

/// Pack channels into a single value, each truncated to its width.
pub fn pack_channels(p: Pixel, aw: u8, rw: u8, gw: u8, bw: u8) -> (r: u16)
    requires
        aw <= 8 && rw <= 8 && gw <= 8 && bw <= 8,
        aw + rw + gw + bw <= 16,
    ensures
        r as int == pack_spec(p, aw, rw, gw, bw),
{
    let a = (p.alpha as u32) % pow2_u32(aw);
    let r_ = (p.red as u32) % pow2_u32(rw);
    let g = (p.green as u32) % pow2_u32(gw);
    let b = (p.blue as u32) % pow2_u32(bw);
    proof {
        lemma_pack_bound(p, aw, rw, gw, bw);
        if ((aw + rw + gw + bw) as nat) < 16 {
            lemma_pow2_strictly_increases((aw + rw + gw + bw) as nat, 16);
        }
        lemma2_to64();
        lemma_mul_nonnegative(a as int, pow2((rw + gw + bw) as nat) as int);
        lemma_mul_nonnegative(r_ as int, pow2((gw + bw) as nat) as int);
        lemma_mul_nonnegative(g as int, pow2(bw as nat) as int);
    }
    let v: u32 = a * pow2_u32(rw + gw + bw) + r_ * pow2_u32(gw + bw) + g * pow2_u32(bw) + b;
    v as u16
}

/// A channel extracted from a packed value is representable at its
/// native width.
proof fn lemma_extract_in_range(raw: int, low: nat, width: u8)
    requires
        raw >= 0,
        width <= 8,
    ensures
        extract_channel(raw, low, width) as int <= ones_spec(width),
        mask_to(extract_channel(raw, low, width), width) == extract_channel(
            raw,
            low,
            width,
        ) as int,
{
    lemma_pow2_channel(width);
    lemma_pow2_pos(low);
    lemma_div_pos_is_pos(raw, pow2(low) as int);
    lemma_mod_division_less_than_divisor(raw / pow2(low) as int, pow2(width as nat) as int);
    lemma_small_mod(extract_channel(raw, low, width) as nat, pow2(width as nat));
}

/// Decoding a full 16-bit packed block and encoding it again gives the
/// identical bit pattern, for any channel layout that covers all 16
/// bits with color channels at least one bit wide.
proof fn lemma_packed16_round_trip(b0: u8, b1: u8, aw: u8, rw: u8, gw: u8, bw: u8)
    requires
        aw <= 8 && 1 <= rw <= 8 && 1 <= gw <= 8 && 1 <= bw <= 8,
        aw + rw + gw + bw == 16,
    ensures
        le16_of(
            pack_spec(
                convert_spec(
                    convert_spec(
                        unpack_spec(le16_val(seq![b0, b1]), aw, rw, gw, bw),
                        aw,
                        rw,
                        gw,
                        bw,
                        8,
                        8,
                        8,
                        8,
                    ),
                    8,
                    8,
                    8,
                    8,
                    aw,
                    rw,
                    gw,
                    bw,
                ),
                aw,
                rw,
                gw,
                bw,
            ),
        ) == seq![b0, b1],
{
    let v = le16_val(seq![b0, b1]);
    lemma2_to64();
    assert(0 <= v < pow2(16));

    let up = unpack_spec(v, aw, rw, gw, bw);
    lemma_extract_in_range(v, (gw + bw) as nat, rw);
    lemma_extract_in_range(v, bw as nat, gw);
    lemma_extract_in_range(v, 0, bw);
    lemma_extract_in_range(v, (rw + gw + bw) as nat, aw);

    let down = convert_spec(
        convert_spec(up, aw, rw, gw, bw, 8, 8, 8, 8),
        8,
        8,
        8,
        8,
        aw,
        rw,
        gw,
        bw,
    );
    lemma_rescale_round_trip(rw, up.red);
    lemma_rescale_round_trip(gw, up.green);
    lemma_rescale_round_trip(bw, up.blue);
    if aw == 0 {
        // An absent alpha rescales to 255 in both directions, and a
        // zero-width field masks everything to nothing.
        assert(pow2(0) == 1);
        assert(mask_to(down.alpha, 0) == mask_to(up.alpha, 0)) by {
            lemma_mod_division_less_than_divisor(down.alpha as int, 1);
            lemma_mod_division_less_than_divisor(up.alpha as int, 1);
        }
    } else {
        lemma_rescale_round_trip(aw, up.alpha);
    }
    assert(pack_spec(down, aw, rw, gw, bw) == pack_spec(up, aw, rw, gw, bw));

    lemma_unpack_pack(v, aw, rw, gw, bw);
    assert(pack_spec(up, aw, rw, gw, bw) == v);

    // Splitting v back into little-endian bytes recovers b0 and b1.
    assert(v % 256 == b0 as int) by {
        lemma_mod_multiples_vanish(b1 as int, b0 as int, 256);
        lemma_small_mod(b0 as nat, 256);
    }
    assert(v / 256 == b1 as int) by {
        lemma_fundamental_div_mod_converse(v, 256, b1 as int, b0 as int);
    }
    assert(le16_of(v) =~= seq![b0, b1]);
}

/// Full-domain round trip of the R5G6B5 layout: decoding any 16-bit
/// pattern and re-encoding it reproduces the pattern exactly.
pub proof fn lemma_r5g6b5_round_trip(b0: u8, b1: u8)
    ensures
        le16_of(r5g6b5_bits(r5g6b5_pixel(seq![b0, b1]))) == seq![b0, b1],
{
    lemma_packed16_round_trip(b0, b1, 0, 5, 6, 5);
}

/// Full-domain round trip of the A1R5G5B5 layout.
pub proof fn lemma_a1r5g5b5_round_trip(b0: u8, b1: u8)
    ensures
        le16_of(a1r5g5b5_bits(a1r5g5b5_pixel(seq![b0, b1]))) == seq![b0, b1],
{
    lemma_packed16_round_trip(b0, b1, 1, 5, 5, 5);
}

/// Full-domain round trip of the A4R4G4B4 layout.
pub proof fn lemma_a4r4g4b4_round_trip(b0: u8, b1: u8)
    ensures
        le16_of(a4r4g4b4_bits(a4r4g4b4_pixel(seq![b0, b1]))) == seq![b0, b1],
{
    lemma_packed16_round_trip(b0, b1, 4, 4, 4, 4);
}

/// The squared difference of two channel values.
pub open spec fn sq_diff(a: u8, b: u8) -> int {
    (a - b) * (a - b)
}

/// Squared Euclidean distance over the red, green and blue channels,
/// alpha disregarded.
pub open spec fn dist_rgb_spec(a: Pixel, b: Pixel) -> int {
    sq_diff(a.red, b.red) + sq_diff(a.green, b.green) + sq_diff(a.blue, b.blue)
}

/// Squared Euclidean distance over all four channels, equally
/// weighted.
pub open spec fn dist_argb_spec(a: Pixel, b: Pixel) -> int {
    sq_diff(a.alpha, b.alpha) + dist_rgb_spec(a, b)
}

/// A squared channel difference lies within `[0, 255^2]`.
pub proof fn lemma_sq_diff_bounds(a: u8, b: u8)
    ensures
        0 <= sq_diff(a, b) <= 65025,
{
    assert(0 <= (a - b) * (a - b) <= 65025) by (nonlinear_arith)
        requires
            -255 <= a - b <= 255,
    ;
}

/// The absolute difference of two channel values.
fn channel_diff(x: u8, y: u8) -> (d: u32)
    ensures
        d <= 255,
        (d as int) * (d as int) == sq_diff(x, y),
{
    let d: u32 = if x >= y {
        (x - y) as u32
    } else {
        (y - x) as u32
    };
    proof {
        assert((x - y) * (x - y) == (y - x) * (y - x)) by (nonlinear_arith);
    }
    d
}

/// Rescale every channel of a pixel from one set of widths to another.
fn convert_pixel(
    p: Pixel,
    a1: u8,
    r1: u8,
    g1: u8,
    b1: u8,
    a2: u8,
    r2: u8,
    g2: u8,
    b2: u8,
) -> (r: Pixel)
    requires
        a1 <= 8 && r1 <= 8 && g1 <= 8 && b1 <= 8,
        a2 <= 8 && r2 <= 8 && g2 <= 8 && b2 <= 8,
    ensures
        r == convert_spec(p, a1, r1, g1, b1, a2, r2, g2, b2),
{
    Pixel {
        alpha: rescale_channel(p.alpha, a1, a2),
        red: rescale_channel(p.red, r1, r2),
        green: rescale_channel(p.green, g1, g2),
        blue: rescale_channel(p.blue, b1, b2),
    }
}

/// The luma (perceived brightness) of a color.
///
/// An already-gray color keeps its shared channel value exactly.  Any
/// other color goes through the Rec. 601 weights (0.299, 0.587, 0.114)
/// in fixed point, each channel rounded on its own before the weighted
/// sum is scaled back down.
pub open spec fn luma_spec(p: Pixel) -> u8 {
    if p.red == p.blue && p.blue == p.green {
        p.blue
    } else {
        let red = (299 * p.red as int + 127) / 255;
        let green = (587 * p.green as int + 127) / 255;
        let blue = (114 * p.blue as int + 127) / 255;
        (((red + green + blue) * 255) / 1000) as u8
    }
}

/// The pixel decoded from a one-byte A8 block: alpha from the byte,
/// the absent color channels fully present.
pub open spec fn a8_pixel(b: Seq<u8>) -> Pixel
    recommends
        b.len() == 1,
{
    Pixel { alpha: b[0], red: 255, green: 255, blue: 255 }
}

/// The pixel decoded from a one-byte AY8 block: every channel takes
/// the byte.
pub open spec fn ay8_pixel(b: Seq<u8>) -> Pixel
    recommends
        b.len() == 1,
{
    Pixel { alpha: b[0], red: b[0], green: b[0], blue: b[0] }
}

/// The pixel decoded from a one-byte Y8 block: gray at the byte's
/// level, fully opaque.
pub open spec fn y8_pixel(b: Seq<u8>) -> Pixel
    recommends
        b.len() == 1,
{
    Pixel { alpha: 255, red: b[0], green: b[0], blue: b[0] }
}

/// The pixel decoded from a two-byte little-endian A8Y8 block: gray at
/// the first byte's level, alpha from the second.
pub open spec fn a8y8_pixel(b: Seq<u8>) -> Pixel
    recommends
        b.len() == 2,
{
    Pixel { alpha: b[1], red: b[0], green: b[0], blue: b[0] }
}

/// The pixel decoded from a four-byte little-endian X8R8G8B8 block:
/// the stored alpha byte is ignored and the pixel is fully opaque.
pub open spec fn x8r8g8b8_pixel(b: Seq<u8>) -> Pixel
    recommends
        b.len() == 4,
{
    Pixel { alpha: 255, red: b[2], green: b[1], blue: b[0] }
}

/// The pixel decoded from a four-byte little-endian A8R8G8B8 block.
pub open spec fn a8r8g8b8_pixel(b: Seq<u8>) -> Pixel
    recommends
        b.len() == 4,
{
    Pixel { alpha: b[3], red: b[2], green: b[1], blue: b[0] }
}

/// The pixel decoded from a four-byte little-endian A8B8G8R8 block.
pub open spec fn a8b8g8r8_pixel(b: Seq<u8>) -> Pixel
    recommends
        b.len() == 4,
{
    Pixel { alpha: b[3], red: b[0], green: b[1], blue: b[2] }
}

impl Pixel {
    /// Load a pixel from 8-bit A8.
    ///
    /// Red, green, and blue channels will be set to 255.
    pub fn from_a8(a8: [u8; 1]) -> (r: Self)
        ensures
            r == a8_pixel(a8@),
    {
        Self { alpha: a8[0], red: 255, green: 255, blue: 255 }
    }

    /// Encode the pixel as 8-bit A8.
    pub fn as_a8(self) -> (r: [u8; 1])
        ensures
            r@ == seq![self.alpha],
    {
        let r: [u8; 1] = [self.alpha];
        proof {
            assert(r@ =~= seq![self.alpha]);
        }
        r
    }

    /// Load a pixel from 8-bit AY8.
    pub fn from_ay8(ay8: [u8; 1]) -> (r: Self)
        ensures
            r == ay8_pixel(ay8@),
    {
        Self { alpha: ay8[0], red: ay8[0], green: ay8[0], blue: ay8[0] }
    }

    /// Encode the pixel as 8-bit AY8.
    ///
    /// This functionally does the same thing as [`as_a8()`](Pixel::as_a8).
    pub fn as_ay8(self) -> (r: [u8; 1])
        ensures
            r@ == seq![self.alpha],
    {
        self.as_a8()
    }

    /// Load a pixel from 8-bit Y8.
    ///
    /// The pixel will have 255 alpha.
    pub fn from_y8(y8: [u8; 1]) -> (r: Self)
        ensures
            r == y8_pixel(y8@),
            r.alpha == 255,
    {
        let y: u8 = y8[0];
        Self { alpha: 255, red: y, green: y, blue: y }
    }

    /// Encode the pixel as 8-bit Y8.
    ///
    /// Rec. 601 luma will be used to convert non-monochrome colors to
    /// monochrome; an already-gray pixel keeps its value exactly.
    pub fn as_y8(self) -> (r: [u8; 1])
        ensures
            r@ == seq![luma_spec(self)],
    {
        if self.red == self.blue && self.blue == self.green {
            let r: [u8; 1] = [self.blue];
            proof {
                assert(r@ =~= seq![luma_spec(self)]);
            }
            return r;
        }
        let red: u32 = (299 * self.red as u32 + 127) / 255;
        let green: u32 = (587 * self.green as u32 + 127) / 255;
        let blue: u32 = (114 * self.blue as u32 + 127) / 255;
        let sum: u32 = red + green + blue;
        let r: [u8; 1] = [(sum * 255 / 1000) as u8];
        proof {
            assert(r@ =~= seq![luma_spec(self)]);
        }
        r
    }

    /// Load a pixel from 16-bit A8Y8 (little endian).
    pub fn from_a8y8(a8y8: [u8; 2]) -> (r: Self)
        ensures
            r == a8y8_pixel(a8y8@),
    {
        let y: u8 = a8y8[0];
        Self { alpha: a8y8[1], red: y, green: y, blue: y }
    }

    /// Encode the pixel as 16-bit A8Y8 (little endian).
    pub fn as_a8y8(self) -> (r: [u8; 2])
        ensures
            r@ == seq![luma_spec(self), self.alpha],
    {
        let y8 = self.as_y8();
        let r: [u8; 2] = [y8[0], self.alpha];
        proof {
            assert(r@ =~= seq![luma_spec(self), self.alpha]);
        }
        r
    }

    /// Load a pixel from 16-bit R5G6B5 (little endian).
    ///
    /// The pixel will have 255 alpha.
    pub fn from_r5g6b5(r5g6b5: [u8; 2]) -> (r: Self)
        ensures
            r == r5g6b5_pixel(r5g6b5@),
            r.alpha == 255,
    {
        let raw: u16 = r5g6b5[0] as u16 + (r5g6b5[1] as u16) * 256;
        let native = unpack_channels(raw, 0, 5, 6, 5);
        convert_pixel(native, 0, 5, 6, 5, 8, 8, 8, 8)
    }

    /// Encode the pixel as 16-bit R5G6B5 (little endian).
    pub fn as_r5g6b5(self) -> (r: [u8; 2])
        ensures
            r@ == le16_of(r5g6b5_bits(self)),
    {
        let c = convert_pixel(self, 8, 8, 8, 8, 0, 5, 6, 5);
        let v = pack_channels(c, 0, 5, 6, 5);
        let r: [u8; 2] = [(v % 256) as u8, (v / 256) as u8];
        proof {
            assert(r@ =~= le16_of(r5g6b5_bits(self)));
        }
        r
    }

    /// Load a pixel from 16-bit A1R5G5B5 (little endian).
    pub fn from_a1r5g5b5(a1r5g5b5: [u8; 2]) -> (r: Self)
        ensures
            r == a1r5g5b5_pixel(a1r5g5b5@),
    {
        let raw: u16 = a1r5g5b5[0] as u16 + (a1r5g5b5[1] as u16) * 256;
        let native = unpack_channels(raw, 1, 5, 5, 5);
        convert_pixel(native, 1, 5, 5, 5, 8, 8, 8, 8)
    }

    /// Encode the pixel as 16-bit A1R5G5B5 (little endian).
    pub fn as_a1r5g5b5(self) -> (r: [u8; 2])
        ensures
            r@ == le16_of(a1r5g5b5_bits(self)),
    {
        let c = convert_pixel(self, 8, 8, 8, 8, 1, 5, 5, 5);
        let v = pack_channels(c, 1, 5, 5, 5);
        let r: [u8; 2] = [(v % 256) as u8, (v / 256) as u8];
        proof {
            assert(r@ =~= le16_of(a1r5g5b5_bits(self)));
        }
        r
    }

    /// Load a pixel from 16-bit A4R4G4B4 (little endian).
    pub fn from_a4r4g4b4(a4r4g4b4: [u8; 2]) -> (r: Self)
        ensures
            r == a4r4g4b4_pixel(a4r4g4b4@),
    {
        let raw: u16 = a4r4g4b4[0] as u16 + (a4r4g4b4[1] as u16) * 256;
        let native = unpack_channels(raw, 4, 4, 4, 4);
        convert_pixel(native, 4, 4, 4, 4, 8, 8, 8, 8)
    }

    /// Encode the pixel as 16-bit A4R4G4B4 (little endian).
    pub fn as_a4r4g4b4(self) -> (r: [u8; 2])
        ensures
            r@ == le16_of(a4r4g4b4_bits(self)),
    {
        let c = convert_pixel(self, 8, 8, 8, 8, 4, 4, 4, 4);
        let v = pack_channels(c, 4, 4, 4, 4);
        let r: [u8; 2] = [(v % 256) as u8, (v / 256) as u8];
        proof {
            assert(r@ =~= le16_of(a4r4g4b4_bits(self)));
        }
        r
    }

    /// Load a pixel from 32-bit X8R8G8B8 (little endian).
    ///
    /// The pixel will have 255 alpha.
    pub fn from_x8r8g8b8(pixel: [u8; 4]) -> (r: Self)
        ensures
            r == x8r8g8b8_pixel(pixel@),
            r.alpha == 255,
    {
        Self { alpha: 255, red: pixel[2], green: pixel[1], blue: pixel[0] }
    }

    /// Encode the pixel as 32-bit X8R8G8B8 (little endian).
    ///
    /// The alpha value of the pixel will be ignored.
    pub fn as_x8r8g8b8(self) -> (r: [u8; 4])
        ensures
            r@ == seq![self.blue, self.green, self.red, 255u8],
    {
        let r: [u8; 4] = [self.blue, self.green, self.red, 0xFF];
        proof {
            assert(r@ =~= seq![self.blue, self.green, self.red, 255u8]);
        }
        r
    }

    /// Load a pixel from 32-bit A8R8G8B8 (little endian).
    pub fn from_a8r8g8b8(bytes: [u8; 4]) -> (r: Self)
        ensures
            r == a8r8g8b8_pixel(bytes@),
    {
        Self { alpha: bytes[3], red: bytes[2], green: bytes[1], blue: bytes[0] }
    }

    /// Encode the pixel as 32-bit A8R8G8B8 (little endian).
    pub fn as_a8r8g8b8(self) -> (r: [u8; 4])
        ensures
            r@ == seq![self.blue, self.green, self.red, self.alpha],
    {
        let r: [u8; 4] = [self.blue, self.green, self.red, self.alpha];
        proof {
            assert(r@ =~= seq![self.blue, self.green, self.red, self.alpha]);
        }
        r
    }

    /// Load a pixel from 32-bit A8B8G8R8 (little endian).
    pub fn from_a8b8g8r8(bytes: [u8; 4]) -> (r: Self)
        ensures
            r == a8b8g8r8_pixel(bytes@),
    {
        Self { alpha: bytes[3], red: bytes[0], green: bytes[1], blue: bytes[2] }
    }

    /// Encode the pixel as 32-bit A8B8G8R8 (little endian).
    pub fn as_a8b8g8r8(self) -> (r: [u8; 4])
        ensures
            r@ == seq![self.red, self.green, self.blue, self.alpha],
    {
        let r: [u8; 4] = [self.red, self.green, self.blue, self.alpha];
        proof {
            assert(r@ =~= seq![self.red, self.green, self.blue, self.alpha]);
        }
        r
    }

    /// Squared Euclidean distance to another pixel over the color
    /// channels only.
    pub fn distance_rgb(self, other: Pixel) -> (d: u32)
        ensures
            d as int == dist_rgb_spec(self, other),
    {
        let dr = channel_diff(self.red, other.red);
        let dg = channel_diff(self.green, other.green);
        let db = channel_diff(self.blue, other.blue);
        proof {
            lemma_sq_diff_bounds(self.red, other.red);
            lemma_sq_diff_bounds(self.green, other.green);
            lemma_sq_diff_bounds(self.blue, other.blue);
        }
        dr * dr + dg * dg + db * db
    }

    /// Squared Euclidean distance to another pixel over all four
    /// channels.
    pub fn distance_argb(self, other: Pixel) -> (d: u32)
        ensures
            d as int == dist_argb_spec(self, other),
    {
        let da = channel_diff(self.alpha, other.alpha);
        proof {
            lemma_sq_diff_bounds(self.alpha, other.alpha);
            lemma_sq_diff_bounds(self.red, other.red);
            lemma_sq_diff_bounds(self.green, other.green);
            lemma_sq_diff_bounds(self.blue, other.blue);
        }
        da * da + self.distance_rgb(other)
    }
}

/// Decoding a layout that lacks a channel defaults that channel to
/// fully present, whatever the input bits: the alpha-only layout
/// decodes with white color channels, and the alpha-less layouts
/// decode fully opaque.
pub proof fn lemma_absent_channel_defaults(b1: Seq<u8>, b2: Seq<u8>, b4: Seq<u8>)
    ensures
        a8_pixel(b1).red == 255 && a8_pixel(b1).green == 255 && a8_pixel(b1).blue == 255,
        y8_pixel(b1).alpha == 255,
        r5g6b5_pixel(b2).alpha == 255,
        x8r8g8b8_pixel(b4).alpha == 255,
{
}

} // verus!
