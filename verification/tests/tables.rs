use subsetter::face::FontKind;
use subsetter::maxp::MaxpData;
use subsetter::{glyf, head, hmtx, maxp, name, post, Error, GlyphRemapper};

fn u16s(v: &[u16]) -> Vec<u8> {
    v.iter().flat_map(|x| x.to_be_bytes()).collect()
}

#[test]
fn name_keeps_unicode_names_once() {
    let mut d = u16s(&[0, 4, 54]);
    d.extend(u16s(&[3, 1, 0x409, 1, 2, 0]));
    d.extend(u16s(&[3, 1, 0x409, 2, 2, 0]));
    d.extend(u16s(&[1, 0, 0, 1, 2, 2]));
    d.extend(u16s(&[3, 1, 0x409, 7, 2, 2]));
    d.extend(b"ABCD");
    let mut e = u16s(&[0, 2, 30]);
    e.extend(u16s(&[3, 1, 0x409, 1, 2, 0]));
    e.extend(u16s(&[3, 1, 0x409, 2, 2, 0]));
    e.extend(b"AB");
    assert_eq!(name::subset(&d), Ok(e));
}

#[test]
fn name_version1_is_unchanged() {
    let d = u16s(&[1, 0, 6]);
    assert_eq!(name::subset(&d), Ok(d.clone()));
}

#[test]
fn name_string_outside_storage_fails() {
    let mut d = u16s(&[0, 1, 18]);
    d.extend(u16s(&[3, 1, 0x409, 1, 10, 0]));
    d.extend(b"AB");
    assert_eq!(name::subset(&d), Err(Error::SubsetError));
}

fn post_v2() -> Vec<u8> {
    let mut d = 0x00020000u32.to_be_bytes().to_vec();
    d.extend([0u8; 28]);
    d.extend(u16s(&[3, 0, 258, 259]));
    d.extend([1, b'a', 2, b'b', b'c']);
    d
}

#[test]
fn post_version2_renames_in_new_order() {
    let mut mapper = GlyphRemapper::new();
    mapper.remap(2);
    mapper.remap(1);
    let sub = post::subset(&post_v2(), &mapper).unwrap();
    let mut e = 0x00020000u32.to_be_bytes().to_vec();
    e.extend([0u8; 28]);
    e.extend(u16s(&[3, 0, 258, 259]));
    e.extend([2, b'b', b'c', 1, b'a']);
    assert_eq!(sub, e);
}

#[test]
fn post_other_versions_are_unchanged() {
    let d = 0x00030000u32.to_be_bytes().to_vec();
    assert_eq!(post::subset(&d, &GlyphRemapper::new()), Ok(d.clone()));
    assert_eq!(post::subset(&[0, 2], &GlyphRemapper::new()), Err(Error::MalformedFont));
}

#[test]
fn head_sets_loca_format() {
    let h = vec![0xAAu8; 54];
    let sub = head::subset(&h, true).unwrap();
    assert_eq!(&sub[50..52], &[0, 1]);
    assert_eq!(&sub[..50], &h[..50]);
    assert_eq!(head::subset(&h[..51], false), Err(Error::MalformedFont));
}

#[test]
fn hhea_and_hmtx() {
    let hhea = vec![5u8; 36];
    let sub = hmtx::subset_hhea(&hhea, 258).unwrap();
    assert_eq!(&sub[34..], &[1, 2]);
    assert_eq!(hmtx::subset_hhea(&[1], 1), Err(Error::MalformedFont));
    let m = [hmtx::Metrics { advance_width: 1, lsb: -1 }];
    assert_eq!(hmtx::subset_hmtx(&m), vec![0, 1, 255, 255]);
}

#[test]
fn maxp_versions() {
    let mut m = 0x00010000u32.to_be_bytes().to_vec();
    m.extend(u16s(&[10, 1, 2]));
    assert_eq!(maxp::subset(&m, FontKind::Cff, 3, None), Ok(vec![0, 0, 0x50, 0, 0, 3]));
    assert_eq!(maxp::subset(&m, FontKind::TrueType, 3, None), Ok(vec![0, 1, 0, 0, 0, 3, 0, 1, 0, 2]));
    let custom = MaxpData::new();
    let sub = maxp::subset(&m, FontKind::TrueType, 3, Some(custom)).unwrap();
    assert_eq!(sub.len(), 6 + 26);
    assert_eq!(&sub[14..16], &[0, 1]);
    assert_eq!(maxp::subset(&m[..5], FontKind::Cff, 3, None), Err(Error::MalformedFont));
}

#[test]
fn glyf_long_offsets_when_large() {
    let entries = vec![vec![0u8; 70000], vec![1u8; 70000]];
    let (loca, glyf, long) = glyf::subset(&entries).unwrap();
    assert!(long);
    assert_eq!(glyf.len(), 140000);
    assert_eq!(loca, [0u32, 70000, 140000].iter().flat_map(|x| x.to_be_bytes()).collect::<Vec<_>>());
}

#[test]
fn post_version2_names_read_back() {
    let mut mapper = GlyphRemapper::new();
    mapper.remap(2);
    mapper.remap(1);
    let sub = post::subset(&post_v2(), &mapper).unwrap();
    let t = post::Version2Table::parse(&sub).unwrap();
    let names = t.names().collect();
    // New glyph 0 keeps the standard name 0; new glyphs 1 and 2 have the names of old
    // glyphs 2 and 1.
    assert_eq!(t.glyph_indexes.get(0), Some(0));
    assert_eq!(t.glyph_indexes.get(1), Some(258));
    assert_eq!(t.glyph_indexes.get(2), Some(259));
    assert_eq!(names, vec![&b"bc"[..], &b"a"[..]]);
}
