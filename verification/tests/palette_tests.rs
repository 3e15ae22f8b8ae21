use macaroni_tex::{encode_palettized, Pixel, TexError};

fn opaque(red: u8, green: u8, blue: u8) -> Pixel {
    Pixel { alpha: 255, red, green, blue }
}

fn transparent(red: u8, green: u8, blue: u8) -> Pixel {
    Pixel { alpha: 0, red, green, blue }
}

#[test]
pub fn empty_palette_is_an_error() {
    let colors = [opaque(1, 2, 3)];
    assert_eq!(Err(TexError::EmptyPalette), encode_palettized(&colors, &[]));
}

#[test]
pub fn nearest_by_rgb_for_opaque_palette() {
    let palette = [opaque(0, 0, 0), opaque(100, 100, 100), opaque(255, 255, 255)];
    let colors = [
        opaque(10, 5, 0),
        opaque(90, 110, 100),
        opaque(200, 220, 255),
        // Alpha is disregarded for a fully opaque palette.
        Pixel { alpha: 0, red: 250, green: 250, blue: 250 },
    ];
    assert_eq!(Ok(vec![0, 1, 2, 2]), encode_palettized(&colors, &palette));
}

#[test]
pub fn ties_keep_the_earliest_index() {
    // Two identical entries: the lower index wins, both directly and
    // for a source at equal distance from two distinct entries.
    let palette = [opaque(10, 10, 10), opaque(10, 10, 10), opaque(14, 10, 10)];
    let colors = [opaque(10, 10, 10), opaque(12, 10, 10)];
    assert_eq!(Ok(vec![0, 0]), encode_palettized(&colors, &palette));
}

#[test]
pub fn argb_distance_for_graded_alpha_palette() {
    // An entry with alpha strictly between 0 and 255 switches the
    // metric to all four channels.
    let palette = [
        Pixel { alpha: 0, red: 50, green: 50, blue: 50 },
        Pixel { alpha: 128, red: 50, green: 50, blue: 50 },
        Pixel { alpha: 255, red: 50, green: 50, blue: 50 },
    ];
    let colors = [
        Pixel { alpha: 10, red: 50, green: 50, blue: 50 },
        Pixel { alpha: 120, red: 50, green: 50, blue: 50 },
        Pixel { alpha: 250, red: 50, green: 50, blue: 50 },
    ];
    assert_eq!(Ok(vec![0, 1, 2]), encode_palettized(&colors, &palette));
}

#[test]
pub fn alpha_bucket_excludes_opposite_bucket() {
    // A purely transparent palette keeps one-bit alpha buckets: a
    // source leaning opaque (alpha 200) never selects an alpha=0
    // entry, even at color distance zero - there is no candidate at
    // all.
    let palette = [transparent(10, 20, 30), transparent(200, 200, 200)];
    let exact_match_but_opaque = [Pixel { alpha: 200, red: 10, green: 20, blue: 30 }];
    assert_eq!(
        Err(TexError::NoCandidate),
        encode_palettized(&exact_match_but_opaque, &palette)
    );

    // A transparent-leaning source matches within the bucket.
    let transparent_source = [Pixel { alpha: 100, red: 190, green: 210, blue: 205 }];
    assert_eq!(Ok(vec![1]), encode_palettized(&transparent_source, &palette));
}

#[test]
pub fn mixed_binary_palette_is_demoted() {
    // A palette that mixes fully-transparent and fully-opaque entries
    // is not treated as one-bit: alpha is disregarded entirely, so an
    // opaque-leaning source may land on a transparent entry that wins
    // on color alone.
    let palette = [transparent(10, 20, 30), opaque(200, 200, 200)];
    let colors = [Pixel { alpha: 200, red: 10, green: 20, blue: 30 }];
    assert_eq!(Ok(vec![0]), encode_palettized(&colors, &palette));
}

#[test]
pub fn palettized_match_is_idempotent() {
    // Re-encoding the entries the first match produced yields the
    // same indices.
    let palette = [
        opaque(0, 0, 0),
        opaque(60, 60, 60),
        opaque(60, 60, 60),
        opaque(130, 10, 220),
        opaque(255, 255, 255),
    ];
    let colors = [
        opaque(5, 0, 9),
        opaque(70, 55, 61),
        opaque(140, 0, 200),
        opaque(250, 255, 240),
        opaque(128, 128, 128),
    ];
    let first = encode_palettized(&colors, &palette).unwrap();
    let decoded: Vec<Pixel> = first.iter().map(|&i| palette[i]).collect();
    let second = encode_palettized(&decoded, &palette).unwrap();
    assert_eq!(first, second);
}

#[test]
pub fn one_index_per_color_in_order() {
    let palette = [opaque(0, 0, 0), opaque(255, 255, 255)];
    let colors = [opaque(1, 1, 1), opaque(254, 254, 254), opaque(0, 0, 0)];
    let ids = encode_palettized(&colors, &palette).unwrap();
    assert_eq!(3, ids.len());
    assert_eq!(vec![0, 1, 0], ids);
}
