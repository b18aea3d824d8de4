use subsetter::remapper::Remapper;
use subsetter::mapper::GidMapper;
use subsetter::cff::number::StringId;
use subsetter::cff::remapper::SidRemapper;
use subsetter::remapper::GlyphRemapper;

#[test]
fn test_remap_1() {
    let mut sid_remapper = SidRemapper::new();
    assert_eq!(sid_remapper.remap(&b"hi".to_vec()), StringId(391));
    assert_eq!(sid_remapper.remap(&b"there".to_vec()), StringId(392));
    assert_eq!(sid_remapper.remap(&b"hi".to_vec()), StringId(391));
    assert_eq!(sid_remapper.remap(&b"test".to_vec()), StringId(393));

    assert_eq!(
        sid_remapper.sorted_strings().clone(),
        vec![b"hi".to_vec(), b"there".to_vec(), b"test".to_vec()]
    )
}

#[test]
fn glyph_remapper_keeps_notdef_first() {
    let mut remapper = GlyphRemapper::new();
    assert_eq!(remapper.remap(68), 1);
    assert_eq!(remapper.remap(69), 2);
    assert_eq!(remapper.remap(70), 3);
    // Remapping again gives the same ID.
    assert_eq!(remapper.remap(69), 2);
    assert_eq!(remapper.get(0), Some(0));
    assert_eq!(remapper.get(68), Some(1));
    assert_eq!(remapper.get(71), None);
    assert_eq!(remapper.num_gids(), 4);
    assert_eq!(remapper.remapped_gids(), vec![0, 68, 69, 70]);
}

#[test]
fn glyph_remapper_from_glyphs_is_ordered() {
    let remapper = GlyphRemapper::new_from_glyphs(&[9, 4, 16, 4]);
    assert_eq!(remapper.remapped_gids(), vec![0, 4, 9, 16]);
    assert_eq!(remapper.get(16), Some(3));
}

#[test]
fn identity_remapper() {
    let remapper = GlyphRemapper::identity();
    assert!(remapper.is_identity());
    assert_eq!(remapper.get(1234), Some(1234));
}

#[test]
fn gid_mapper_keeps_given_order() {
    let mapper = GidMapper::from_gid_set(&[5, 2, 5, 9]);
    assert_eq!(mapper.old_gids(), &[0, 5, 2, 9][..]);
    assert_eq!(mapper.get(2), Some(2));
    assert_eq!(mapper.get(9), Some(3));
    assert_eq!(mapper.get(7), None);
    assert_eq!(mapper.get_reverse(1), Some(5));
    assert_eq!(mapper.num_gids(), 4);
}

#[test]
fn gid_mapper_takes_all_but_the_last_glyph() {
    let gids: Vec<u16> = (0..u16::MAX).collect();
    let mapper = GidMapper::from_gid_set(&gids);
    assert_eq!(mapper.num_gids(), u16::MAX);
    assert_eq!(mapper.get(65534), Some(65534));
}

#[test]
fn remapper_numbers_by_first_appearance() {
    let mut r = Remapper::new();
    for x in [7u16, 3, 7, 9, 3] {
        r.remap(x);
    }
    assert_eq!(r.get(7), Some(0));
    assert_eq!(r.get(3), Some(1));
    assert_eq!(r.get(9), Some(2));
    assert_eq!(r.get(5), None);
    assert_eq!(r.len(), 3);
    assert_eq!(r.sorted_iter(), vec![7, 3, 9]);
}
