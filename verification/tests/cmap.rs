use subsetter::cmap::subset;
use subsetter::cmap::subtable12::{subset_subtable12, Subtable12};
use subsetter::cmap::subtable4::{subset_subtable4, Subtable4};
use subsetter::Error;
use subsetter::GlyphRemapper;

fn u16s(v: &[u16]) -> Vec<u8> {
    v.iter().flat_map(|x| x.to_be_bytes()).collect()
}

/// A format 4 subtable mapping 'A'..='C' to glyphs 3..=5 by a delta.
fn subtable4() -> Vec<u8> {
    let mut d = u16s(&[4, 32, 0, 4, 4, 1, 0]);
    d.extend(u16s(&[0x43, 0xFFFF]));
    d.extend(u16s(&[0]));
    d.extend(u16s(&[0x41, 0xFFFF]));
    d.extend(u16s(&[(-62i16) as u16, 1]));
    d.extend(u16s(&[0, 0]));
    d
}

fn mapper_3_5() -> GlyphRemapper {
    let mut m = GlyphRemapper::new();
    m.remap(3);
    m.remap(5);
    m
}

fn expected_subtable4() -> Vec<u8> {
    let mut e = u16s(&[4, 40, 0, 6, 4, 1, 2]);
    e.extend(u16s(&[0x41, 0x43, 0xFFFF]));
    e.extend(u16s(&[0]));
    e.extend(u16s(&[0x41, 0x43, 0xFFFF]));
    e.extend(u16s(&[(-64i16) as u16, (-65i16) as u16, 1]));
    e.extend(u16s(&[0, 0, 0]));
    e
}

#[test]
fn subtable4_glyph_index_and_codepoints() {
    let data = subtable4();
    let t = Subtable4::parse(&data).unwrap();
    assert_eq!(t.glyph_index(0x41), Some(3));
    assert_eq!(t.glyph_index(0x43), Some(5));
    assert_eq!(t.glyph_index(0x44), None);
    assert_eq!(t.glyph_index(0x10000), None);
    assert_eq!(t.codepoints(), vec![0x41, 0x42, 0x43]);
}

#[test]
fn subtable4_too_short_is_malformed() {
    assert_eq!(Subtable4::parse(&[0, 4, 0, 0]).err(), Some(Error::MalformedFont));
}

#[test]
fn subset_subtable4_keeps_requested_glyphs() {
    let data = subtable4();
    let mapper = mapper_3_5();
    let sub = subset_subtable4(&data, &[3, 5], &mapper).unwrap();
    assert_eq!(sub, expected_subtable4());
}

#[test]
fn subset_subtable4_merges_consecutive_codes() {
    let data = subtable4();
    let mut mapper = GlyphRemapper::new();
    mapper.remap(3);
    mapper.remap(4);
    mapper.remap(5);
    let sub = subset_subtable4(&data, &[3, 4, 5], &mapper).unwrap();
    // One segment 'A'..='C' with delta 1 - 0x41, and the closing one.
    let mut e = u16s(&[4, 32, 0, 4, 4, 1, 0]);
    e.extend(u16s(&[0x43, 0xFFFF]));
    e.extend(u16s(&[0]));
    e.extend(u16s(&[0x41, 0xFFFF]));
    e.extend(u16s(&[(-64i16) as u16, 1]));
    e.extend(u16s(&[0, 0]));
    assert_eq!(sub, e);
}

#[test]
fn subset_cmap_table() {
    let mut cmap = u16s(&[0, 1, 3, 1]);
    cmap.extend(12u32.to_be_bytes());
    cmap.extend(subtable4());
    let mapper = mapper_3_5();
    let sub = subset(&cmap, &[3, 5], &mapper).unwrap();
    let mut e = u16s(&[0, 1, 3, 1]);
    e.extend(12u32.to_be_bytes());
    e.extend(expected_subtable4());
    assert_eq!(sub, e);
}

#[test]
fn subset_cmap_without_unicode_subtable_is_unimplemented() {
    let mut cmap = u16s(&[0, 1, 1, 0]);
    cmap.extend(12u32.to_be_bytes());
    cmap.extend(subtable4());
    let mapper = mapper_3_5();
    assert_eq!(subset(&cmap, &[3, 5], &mapper), Err(Error::Unimplemented));
}

#[test]
fn subset_cmap_bad_offset_is_malformed() {
    let mut cmap = u16s(&[0, 1, 3, 1]);
    cmap.extend(1000u32.to_be_bytes());
    let mapper = mapper_3_5();
    assert_eq!(subset(&cmap, &[3, 5], &mapper), Err(Error::MalformedFont));
}

fn subtable12() -> Vec<u8> {
    let mut d = u16s(&[12, 0]);
    d.extend(28u32.to_be_bytes());
    d.extend(0u32.to_be_bytes());
    d.extend(1u32.to_be_bytes());
    d.extend(0x1F600u32.to_be_bytes());
    d.extend(0x1F602u32.to_be_bytes());
    d.extend(10u32.to_be_bytes());
    d
}

#[test]
fn subtable12_glyph_index() {
    let data = subtable12();
    let t = Subtable12::parse(&data).unwrap();
    assert_eq!(t.glyph_index(0x1F600), Some(10));
    assert_eq!(t.glyph_index(0x1F602), Some(12));
    assert_eq!(t.glyph_index(0x1F603), None);
    assert_eq!(t.codepoints(), vec![0x1F600, 0x1F601, 0x1F602]);
}

#[test]
fn subset_subtable12_groups() {
    let data = subtable12();
    let mut mapper = GlyphRemapper::new();
    mapper.remap(10);
    mapper.remap(12);
    let sub = subset_subtable12(&data, &[10, 12], &mapper).unwrap();
    let mut e = u16s(&[12, 0]);
    e.extend(40u32.to_be_bytes());
    e.extend(0u32.to_be_bytes());
    e.extend(2u32.to_be_bytes());
    for (s, end, g) in [(0x1F600u32, 0x1F600u32, 1u32), (0x1F602, 0x1F602, 2)] {
        e.extend(s.to_be_bytes());
        e.extend(end.to_be_bytes());
        e.extend(g.to_be_bytes());
    }
    assert_eq!(sub, e);
}

#[test]
fn subset_subtable12_reads_back() {
    let data = subtable12();
    let mut mapper = GlyphRemapper::new();
    mapper.remap(10);
    mapper.remap(11);
    mapper.remap(12);
    let sub = subset_subtable12(&data, &[10, 11, 12], &mapper).unwrap();
    let t = Subtable12::parse(&sub).unwrap();
    // Consecutive code points with consecutive new glyphs form one group.
    assert_eq!(t.codepoints(), vec![0x1F600, 0x1F601, 0x1F602]);
    assert_eq!(t.glyph_index(0x1F600), Some(1));
    assert_eq!(t.glyph_index(0x1F601), Some(2));
    assert_eq!(t.glyph_index(0x1F602), Some(3));
    assert_eq!(t.glyph_index(0x1F5FF), None);
    assert_eq!(t.glyph_index(0x1F603), None);
}

#[test]
fn subset_subtable4_reads_back() {
    let data = subtable4();
    let mapper = mapper_3_5();
    let sub = subset_subtable4(&data, &[3, 5], &mapper).unwrap();
    let t = Subtable4::parse(&sub).unwrap();
    assert_eq!(t.glyph_index(0x41), Some(1));
    assert_eq!(t.glyph_index(0x42), None);
    assert_eq!(t.glyph_index(0x43), Some(2));
    assert_eq!(t.glyph_index(0x44), None);
}
