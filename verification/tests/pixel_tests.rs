use macaroni_tex::pixel::{rescale_channel, unpack_channels, pack_channels};
use macaroni_tex::Pixel;

#[test]
pub fn white_to_white() {
    let white = Pixel { alpha: 255, red: 255, green: 255, blue: 255 };

    assert_eq!(u32::MAX, u32::from_le_bytes(white.as_x8r8g8b8()));
    assert_eq!(u32::MAX, u32::from_le_bytes(white.as_a8r8g8b8()));
    assert_eq!(u16::MAX, u16::from_le_bytes(white.as_r5g6b5()));
    assert_eq!(u16::MAX, u16::from_le_bytes(white.as_a1r5g5b5()));
    assert_eq!(u16::MAX, u16::from_le_bytes(white.as_a4r4g4b4()));
    assert_eq!(u8::MAX, white.as_a8()[0]);
    assert_eq!(u8::MAX, white.as_y8()[0]);

    assert_eq!(white, Pixel::from_x8r8g8b8(u32::MAX.to_le_bytes()));
    assert_eq!(white, Pixel::from_a8r8g8b8(u32::MAX.to_le_bytes()));
    assert_eq!(white, Pixel::from_r5g6b5(u16::MAX.to_le_bytes()));
    assert_eq!(white, Pixel::from_a1r5g5b5(u16::MAX.to_le_bytes()));
    assert_eq!(white, Pixel::from_a4r4g4b4(u16::MAX.to_le_bytes()));
    assert_eq!(white, Pixel::from_a8([u8::MAX]));
    assert_eq!(white, Pixel::from_y8([u8::MAX]));
}

#[test]
pub fn black_to_black() {
    let black_opaque = Pixel { alpha: 255, red: 0, green: 0, blue: 0 };
    let black_transparent = Pixel { alpha: 0, red: 0, green: 0, blue: 0 };
    let white_transparent = Pixel { alpha: 0, red: 255, green: 255, blue: 255 };

    assert_eq!(0xFF000000, u32::from_le_bytes(black_opaque.as_x8r8g8b8()));
    assert_eq!(0xFF000000, u32::from_le_bytes(black_opaque.as_a8r8g8b8()));
    assert_eq!(0, u16::from_le_bytes(black_opaque.as_r5g6b5()));
    assert_eq!(0b1000000000000000, u16::from_le_bytes(black_opaque.as_a1r5g5b5()));
    assert_eq!(0b1111000000000000, u16::from_le_bytes(black_opaque.as_a4r4g4b4()));
    assert_eq!(0, black_opaque.as_y8()[0]);
    assert_eq!(0, black_transparent.as_y8()[0]);
    assert_eq!(0, black_transparent.as_a8()[0]);
    assert_eq!(255, black_opaque.as_a8()[0]);

    assert_eq!(0, white_transparent.as_a8()[0]);

    assert_eq!(0xFF000000, u32::from_le_bytes(black_transparent.as_x8r8g8b8()));
    assert_eq!(0, u32::from_le_bytes(black_transparent.as_a8r8g8b8()));
    assert_eq!(0, u16::from_le_bytes(black_transparent.as_r5g6b5()));
    assert_eq!(0, u16::from_le_bytes(black_transparent.as_a1r5g5b5()));
    assert_eq!(0, u16::from_le_bytes(black_transparent.as_a4r4g4b4()));
    assert_eq!(0, black_transparent.as_y8()[0]);

    assert_eq!(black_opaque, Pixel::from_x8r8g8b8(0u32.to_le_bytes()));
    assert_eq!(black_opaque, Pixel::from_x8r8g8b8(0xFF000000u32.to_le_bytes()));
    assert_eq!(black_opaque, Pixel::from_a8r8g8b8(0xFF000000u32.to_le_bytes()));
    assert_eq!(black_opaque, Pixel::from_r5g6b5(0u16.to_le_bytes()));
    assert_eq!(black_opaque, Pixel::from_a1r5g5b5(0b1000000000000000u16.to_le_bytes()));
    assert_eq!(black_opaque, Pixel::from_a4r4g4b4(0b1111000000000000u16.to_le_bytes()));
    assert_eq!(black_opaque, Pixel::from_y8([0]));

    assert_eq!(black_transparent, Pixel::from_a8r8g8b8(0u32.to_le_bytes()));
    assert_eq!(black_transparent, Pixel::from_a1r5g5b5(0u16.to_le_bytes()));
    assert_eq!(black_transparent, Pixel::from_a4r4g4b4(0u16.to_le_bytes()));
    assert_eq!(black_transparent, Pixel::from_a1r5g5b5(0u16.to_le_bytes()));
    assert_eq!(black_transparent, Pixel::from_a4r4g4b4(0u16.to_le_bytes()));

    assert_eq!(white_transparent, Pixel::from_a8([0]));
}

#[test]
pub fn round_trip() {
    for i in 0u16..=65535 {
        assert_eq!(i, u16::from_le_bytes(Pixel::from_r5g6b5(i.to_le_bytes()).as_r5g6b5()));
        assert_eq!(i, u16::from_le_bytes(Pixel::from_a1r5g5b5(i.to_le_bytes()).as_a1r5g5b5()));
        assert_eq!(i, u16::from_le_bytes(Pixel::from_a4r4g4b4(i.to_le_bytes()).as_a4r4g4b4()));
    }
}

#[test]
pub fn rescale_round_trip_all_widths() {
    // Every representable N-bit value survives the trip up to 8 bits
    // and back, for every width in [1, 8].
    for n in 1u8..=8 {
        let max: u16 = (1u16 << n) - 1;
        for v in 0..=max {
            let up = rescale_channel(v as u8, n, 8);
            assert_eq!(v as u8, rescale_channel(up, 8, n));
        }
    }
}

#[test]
pub fn rescale_exact_values() {
    // Absent channels on either side rescale to fully present.
    assert_eq!(255, rescale_channel(0, 0, 8));
    assert_eq!(255, rescale_channel(123, 8, 0));
    assert_eq!(255, rescale_channel(0, 0, 0));

    // Scale-then-round-to-nearest, ties up: (v*TO + FROM/2) / FROM.
    assert_eq!(0, rescale_channel(0, 5, 8));
    assert_eq!(132, rescale_channel(16, 5, 8)); // (16*255 + 15) / 31
    assert_eq!(255, rescale_channel(31, 5, 8));
    assert_eq!(31, rescale_channel(255, 8, 5));
    assert_eq!(16, rescale_channel(132, 8, 5)); // (132*31 + 127) / 255
    assert_eq!(255, rescale_channel(1, 1, 8));
    assert_eq!(1, rescale_channel(255, 8, 1));
    assert_eq!(1, rescale_channel(128, 8, 1)); // tie leans to opaque
    assert_eq!(0, rescale_channel(127, 8, 1));
}

#[test]
pub fn luma_exact_values() {
    // Gray pixels keep their value exactly, whatever the alpha.
    assert_eq!([90], Pixel { alpha: 3, red: 90, green: 90, blue: 90 }.as_y8());
    // Rec. 601 in fixed point with per-channel rounding:
    // red: (299*255+127)/255 = 299, then 299*255/1000 = 76.
    assert_eq!([76], Pixel { alpha: 255, red: 255, green: 0, blue: 0 }.as_y8());
    // green: 587 -> 587*255/1000 = 149.
    assert_eq!([149], Pixel { alpha: 255, red: 0, green: 255, blue: 0 }.as_y8());
    // blue: 114 -> 114*255/1000 = 29.
    assert_eq!([29], Pixel { alpha: 255, red: 0, green: 0, blue: 255 }.as_y8());
}

#[test]
pub fn absent_channel_defaults() {
    // Decoding maximum alpha-only input gives white.
    let decoded = Pixel::from_a8([255]);
    assert_eq!(255, decoded.red);
    assert_eq!(255, decoded.green);
    assert_eq!(255, decoded.blue);
    // Alpha-less layouts always decode fully opaque.
    assert_eq!(255, Pixel::from_y8([0]).alpha);
    assert_eq!(255, Pixel::from_r5g6b5([0x2F, 0x13]).alpha);
    assert_eq!(255, Pixel::from_x8r8g8b8([1, 2, 3, 0]).alpha);
}

#[test]
pub fn pack_unpack_exact() {
    // Pure red in R5G6B5 sits in the top five bits.
    let p = unpack_channels(0xF800, 0, 5, 6, 5);
    assert_eq!(Pixel { alpha: 0, red: 31, green: 0, blue: 0 }, p);
    assert_eq!(0xF800, pack_channels(p, 0, 5, 6, 5));

    // A1R5G5B5: the alpha bit is the topmost.
    let p = unpack_channels(0x8000, 1, 5, 5, 5);
    assert_eq!(Pixel { alpha: 1, red: 0, green: 0, blue: 0 }, p);
    assert_eq!(0x8000, pack_channels(p, 1, 5, 5, 5));

    // Channels are truncated to their declared widths when packing.
    let wide = Pixel { alpha: 255, red: 255, green: 255, blue: 255 };
    assert_eq!(0xFFFF, pack_channels(wide, 4, 4, 4, 4));
}

#[test]
pub fn little_endian_layouts() {
    // Pure opaque red through each multi-byte layout.
    let red = Pixel { alpha: 255, red: 255, green: 0, blue: 0 };
    assert_eq!([0x00, 0xF8], red.as_r5g6b5());
    assert_eq!([0x00, 0xFC], red.as_a1r5g5b5());
    assert_eq!([0x00, 0xFF], red.as_a4r4g4b4());
    assert_eq!([0x00, 0x00, 0xFF, 0xFF], red.as_a8r8g8b8());
    assert_eq!([0xFF, 0x00, 0x00, 0xFF], red.as_a8b8g8r8());
    // A8Y8 stores luma first, alpha second.
    let p = Pixel { alpha: 9, red: 40, green: 40, blue: 40 };
    assert_eq!([40, 9], p.as_a8y8());
    assert_eq!(p, Pixel::from_a8y8([40, 9]));
}

#[test]
pub fn distance_exact_values() {
    let a = Pixel { alpha: 10, red: 20, green: 30, blue: 40 };
    let b = Pixel { alpha: 14, red: 17, green: 35, blue: 28 };
    // rgb: 3^2 + 5^2 + 12^2 = 178; argb adds 4^2.
    assert_eq!(178, a.distance_rgb(b));
    assert_eq!(194, a.distance_argb(b));
    assert_eq!(178, b.distance_rgb(a));
    assert_eq!(0, a.distance_argb(a));
    // Alpha plays no part in the rgb distance.
    let c = Pixel { alpha: 200, ..a };
    assert_eq!(178, c.distance_rgb(b));
}
