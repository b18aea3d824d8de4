use subsetter::face::{checksum, parse};
use subsetter::{subset, Error, GlyphData, GlyphRemapper, Metrics};

fn tag(t: &[u8; 4]) -> u32 {
    u32::from_be_bytes(*t)
}

/// A font file of the given kind with the given tables, sorted by tag.
fn build_font(version: u32, tables: &[(&[u8; 4], Vec<u8>)]) -> Vec<u8> {
    let n = tables.len();
    let mut out = Vec::new();
    out.extend(version.to_be_bytes());
    out.extend((n as u16).to_be_bytes());
    out.extend([0u8; 6]);
    let mut offset = 12 + 16 * n;
    let mut body = Vec::new();
    for (t, data) in tables {
        out.extend(t.iter());
        out.extend(0u32.to_be_bytes());
        out.extend((offset as u32).to_be_bytes());
        out.extend((data.len() as u32).to_be_bytes());
        body.extend(data.iter());
        while body.len() % 4 != 0 {
            body.push(0);
        }
        offset = 12 + 16 * n + body.len();
    }
    out.extend(body);
    out
}

fn head() -> Vec<u8> {
    let mut h = vec![0u8; 54];
    h[0..4].copy_from_slice(&0x00010000u32.to_be_bytes());
    h[8..12].copy_from_slice(&[1, 2, 3, 4]);
    h[51] = 1;
    h
}

fn hhea() -> Vec<u8> {
    let mut h = vec![7u8; 36];
    h[34] = 0;
    h[35] = 100;
    h
}

fn maxp() -> Vec<u8> {
    let mut m = vec![0u8; 32];
    m[0..4].copy_from_slice(&0x00010000u32.to_be_bytes());
    m[4..6].copy_from_slice(&100u16.to_be_bytes());
    m
}

fn truetype_font() -> Vec<u8> {
    build_font(
        0x00010000,
        &[
            (b"glyf", vec![0u8; 8]),
            (b"head", head()),
            (b"hhea", hhea()),
            (b"hmtx", vec![0u8; 400]),
            (b"maxp", maxp()),
            (b"post", 0x00030000u32.to_be_bytes().to_vec()),
        ],
    )
}

fn glyphs() -> Vec<GlyphData> {
    vec![
        GlyphData {
            description: vec![1, 2, 3],
            num_points: 4,
            num_contours: 1,
            metrics: Metrics { advance_width: 500, lsb: 10 },
        },
        GlyphData {
            description: vec![],
            num_points: 0,
            num_contours: 0,
            metrics: Metrics { advance_width: 250, lsb: 0 },
        },
        GlyphData {
            description: vec![9, 9],
            num_points: 7,
            num_contours: 2,
            metrics: Metrics { advance_width: 600, lsb: -5 },
        },
    ]
}

fn mapper() -> GlyphRemapper {
    let mut m = GlyphRemapper::new();
    m.remap(68);
    m.remap(69);
    m
}

#[test]
fn subset_truetype_font() {
    let font = truetype_font();
    let sub = subset(&font, 0, &mapper(), &glyphs()).unwrap();
    let face = parse(&sub, 0).unwrap();
    // The glyph descriptions, each padded to an even length.
    assert_eq!(face.table(tag(b"glyf")).unwrap(), &[1, 2, 3, 0, 9, 9][..]);
    // Short offsets, halved.
    assert_eq!(face.table(tag(b"loca")).unwrap(), &[0, 0, 0, 2, 0, 2, 0, 3][..]);
    // The short loca format.
    assert_eq!(&face.table(tag(b"head")).unwrap()[50..52], &[0, 0]);
    // The number of metrics.
    assert_eq!(&face.table(tag(b"hhea")).unwrap()[34..36], &[0, 3]);
    assert_eq!(
        face.table(tag(b"hmtx")).unwrap(),
        &[1, 244, 0, 10, 0, 250, 0, 0, 2, 88, 255, 251][..]
    );
    let m = face.table(tag(b"maxp")).unwrap();
    assert_eq!(&m[0..6], &[0, 1, 0, 0, 0, 3]);
    // The most points and contours, then one zone, and a component depth of one.
    assert_eq!(&m[6..10], &[0, 7, 0, 2]);
    assert_eq!(&m[14..16], &[0, 1]);
    assert_eq!(&m[30..32], &[0, 1]);
    assert_eq!(face.table(tag(b"post")).unwrap(), &[0, 3, 0, 0][..]);
    // The tables that are not needed are gone; the whole font sums to the magic number.
    assert_eq!(face.table(tag(b"cmap")), None);
    assert_eq!(checksum(&sub), 0xB1B0AFBA);
}

#[test]
fn subset_without_outlines_is_unknown_kind() {
    let font = build_font(0x00010000, &[(b"head", head())]);
    assert_eq!(subset(&font, 0, &mapper(), &glyphs()), Err(Error::UnknownKind));
}

#[test]
fn subset_of_unknown_file_is_unknown_kind() {
    assert_eq!(subset(&[1, 2, 3, 4, 5], 0, &mapper(), &glyphs()), Err(Error::UnknownKind));
}

#[test]
fn subset_hmtx_without_hhea_is_malformed() {
    let font = build_font(
        0x00010000,
        &[(b"glyf", vec![0u8; 4]), (b"head", head()), (b"hmtx", vec![0u8; 4])],
    );
    assert_eq!(subset(&font, 0, &mapper(), &glyphs()), Err(Error::MalformedFont));
}

#[test]
fn subset_short_head_is_malformed() {
    let font = build_font(0x00010000, &[(b"glyf", vec![0u8; 4]), (b"head", vec![0u8; 20])]);
    assert_eq!(subset(&font, 0, &mapper(), &glyphs()), Err(Error::MalformedFont));
}

#[test]
fn subset_font_in_collection() {
    let font = truetype_font();
    let mut ttc = Vec::new();
    ttc.extend(b"ttcf");
    ttc.extend(0x00010000u32.to_be_bytes());
    ttc.extend(1u32.to_be_bytes());
    ttc.extend(16u32.to_be_bytes());
    // The offsets in the font's directory are relative to the file, so shift them.
    let mut shifted = font.clone();
    let n = u16::from_be_bytes([font[4], font[5]]) as usize;
    for i in 0..n {
        let p = 12 + 16 * i + 8;
        let off = u32::from_be_bytes([font[p], font[p + 1], font[p + 2], font[p + 3]]) + 16;
        shifted[p..p + 4].copy_from_slice(&off.to_be_bytes());
    }
    ttc.extend(shifted);
    let a = subset(&ttc, 0, &mapper(), &glyphs()).unwrap();
    let b = subset(&font, 0, &mapper(), &glyphs()).unwrap();
    assert_eq!(a, b);
}

#[test]
fn checksum_pads_with_zeros() {
    assert_eq!(checksum(&[0, 0, 0, 1, 0, 0, 0, 2]), 3);
    assert_eq!(checksum(&[1]), 0x0100_0000);
    assert_eq!(checksum(&[0xFF, 0xFF, 0xFF, 0xFF, 0, 0, 0, 2]), 1);
}
