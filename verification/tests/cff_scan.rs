use std::collections::HashSet;
use subsetter::cff::charstring::Decompiler;
use subsetter::cff::subroutines::SubroutineHandler;
use subsetter::cff::index::{create_index, parse_index16};
use subsetter::cff::charset::rewrite_charset;
use subsetter::write::Writer;
use subsetter::GlyphRemapper;
use subsetter::cff::encoding::{parse_encoding, EncodingKind};
use subsetter::cff::subset::{discover_subrs, parse_int1, parse_int2, parse_int3};
use subsetter::read::{LazyArray16, Reader};
use subsetter::Error;

#[test]
fn discover_local_and_global_subroutines() {
    let mut gsubr = HashSet::new();
    let mut lsubr = HashSet::new();
    // 0 callsubr, -107 callgsubr, endchar
    let cs = [139u8, 10, 32, 29, 14];
    assert_eq!(discover_subrs(&mut gsubr, &mut lsubr, 0, 5, &cs), Ok(()));
    assert_eq!(lsubr, HashSet::from([107]));
    assert_eq!(gsubr, HashSet::from([0]));
}

#[test]
fn discover_keeps_each_subroutine_once() {
    let mut gsubr = HashSet::new();
    let mut lsubr = HashSet::from([107]);
    let cs = [139u8, 10, 139, 10];
    assert_eq!(discover_subrs(&mut gsubr, &mut lsubr, 0, 0, &cs), Ok(()));
    assert_eq!(lsubr, HashSet::from([107]));
}

#[test]
fn discover_uses_bias_of_large_index() {
    let mut gsubr = HashSet::new();
    let mut lsubr = HashSet::new();
    // 1131 is the bias for 1240 up to 33899 subroutines; -1131 + 1131 = 0.
    let cs = [254u8, 255, 10];
    assert_eq!(discover_subrs(&mut gsubr, &mut lsubr, 0, 2000, &cs), Ok(()));
    assert_eq!(lsubr, HashSet::from([0]));
}

#[test]
fn discover_fixed_operand_truncates() {
    let mut gsubr = HashSet::new();
    let mut lsubr = HashSet::new();
    // 5.5 as 16.16 fixed, then callsubr: 5 + 107.
    let cs = [255u8, 0x00, 0x05, 0x80, 0x00, 10];
    assert_eq!(discover_subrs(&mut gsubr, &mut lsubr, 0, 0, &cs), Ok(()));
    assert_eq!(lsubr, HashSet::from([112]));
}

#[test]
fn discover_reserved_operator_is_malformed() {
    let mut gsubr = HashSet::new();
    let mut lsubr = HashSet::new();
    assert_eq!(discover_subrs(&mut gsubr, &mut lsubr, 0, 0, &[0u8]), Err(Error::MalformedFont));
}

#[test]
fn discover_seac_is_unimplemented() {
    let mut gsubr = HashSet::new();
    let mut lsubr = HashSet::new();
    let cs = [139u8, 139, 139, 139, 14];
    assert_eq!(discover_subrs(&mut gsubr, &mut lsubr, 0, 0, &cs), Err(Error::Unimplemented));
}

#[test]
fn discover_negative_index_is_malformed() {
    let mut gsubr = HashSet::new();
    let mut lsubr = HashSet::new();
    // -1131 + 107 is negative.
    let cs = [254u8, 255, 10];
    assert_eq!(discover_subrs(&mut gsubr, &mut lsubr, 0, 0, &cs), Err(Error::MalformedFont));
}

#[test]
fn discover_full_stack_is_an_error() {
    let mut gsubr = HashSet::new();
    let mut lsubr = HashSet::new();
    let cs = [139u8; 49];
    assert_eq!(discover_subrs(&mut gsubr, &mut lsubr, 0, 0, &cs), Err(Error::CFFError));
}

#[test]
fn operand_integers() {
    assert_eq!(parse_int1(139), 0);
    assert_eq!(parse_int1(32), -107);
    let data = [255u8];
    let mut r = Reader::new(&data);
    assert_eq!(parse_int2(250, &mut r), Ok(1131));
    let mut r = Reader::new(&data);
    assert_eq!(parse_int3(254, &mut r), Ok(-1131));
    let mut r = Reader::new(&[]);
    assert_eq!(parse_int2(247, &mut r), Err(Error::MalformedFont));
}

#[test]
fn encoding_format0() {
    let data = [0u8, 3, 10, 20, 30];
    let mut r = Reader::new(&data);
    let enc = parse_encoding(&mut r).unwrap().unwrap();
    assert!(enc.kind.is_custom());
    assert_eq!(enc.kind.gid_to_code(20), Some(2));
    assert_eq!(enc.kind.gid_to_code(21), None);
}

#[test]
fn encoding_format1() {
    let data = [1u8, 2, 10, 2, 50, 0];
    let mut r = Reader::new(&data);
    let enc = parse_encoding(&mut r).unwrap().unwrap();
    assert_eq!(enc.kind.gid_to_code(11), Some(2));
    assert_eq!(enc.kind.gid_to_code(50), Some(4));
    assert_eq!(enc.kind.gid_to_code(13), None);
}

#[test]
fn encoding_supplemental_is_unimplemented() {
    let data = [0x80u8, 0];
    let mut r = Reader::new(&data);
    assert!(matches!(parse_encoding(&mut r), Err(Error::Unimplemented)));
}

#[test]
fn encoding_other_format_is_none() {
    let data = [2u8, 0];
    let mut r = Reader::new(&data);
    assert!(matches!(parse_encoding(&mut r), Ok(None)));
    assert!(!EncodingKind::Standard.is_custom());
}

#[test]
fn lazy_array_binary_search() {
    let data = [0u8, 1, 0, 5, 0, 9, 0, 12];
    let a: LazyArray16<u16> = LazyArray16::new(&data);
    assert_eq!(a.binary_search(9), Some((2, 9)));
    assert_eq!(a.binary_search(10), None);
    assert_eq!(a.binary_search_by(|v| v.cmp(&5)), Some((1, 5)));
    let mut it = a.into_iter();
    assert_eq!(it.next(), Some(1));
    assert_eq!(it.count(), 3);
}

#[test]
fn charset_maps_glyphs_to_their_ids() {
    let mut mapper = GlyphRemapper::new();
    mapper.remap(7);
    mapper.remap(3);
    let mut w = Writer::new();
    assert_eq!(rewrite_charset(&mapper, &mut w), Ok(()));
    // Format 2, one range: CID 1 for glyph 1 and one more glyph after it.
    assert_eq!(w.finish(), vec![2, 0, 1, 0, 1]);

    let only_notdef = GlyphRemapper::new();
    let mut w = Writer::new();
    assert_eq!(rewrite_charset(&only_notdef, &mut w), Ok(()));
    assert_eq!(w.finish(), vec![0]);
}

#[test]
fn index_reads_back() {
    let items = vec![b"ab".to_vec(), vec![], b"xyz".to_vec()];
    let ix = create_index(items).unwrap();
    // Count 3, offsets of one byte: 1, 3, 3, 6, then the item data.
    assert_eq!(ix.data, vec![0, 3, 1, 1, 3, 3, 6, b'a', b'b', b'x', b'y', b'z']);
    assert_eq!(ix.header_size, 7);
    let mut r = Reader::new(&ix.data);
    let parsed = parse_index16(&mut r).unwrap();
    assert_eq!(parsed.items(), vec![&b"ab"[..], &b""[..], &b"xyz"[..]]);

    let empty = create_index(vec![]).unwrap();
    assert_eq!(empty.data, vec![0, 0]);
}

#[test]
fn decompile_inlines_subroutines() {
    // One local subroutine: `10 10 rlineto return`.
    let lsubrs: Vec<&[u8]> = vec![&[149, 149, 5, 11]];
    let gsubrs: Vec<&[u8]> = vec![];
    let lhandler = SubroutineHandler::new(&lsubrs);
    let ghandler = SubroutineHandler::new(&gsubrs);
    // `-107 callsubr endchar`: with one subroutine the bias is 107, so it calls number 0.
    let cs = [32u8, 10, 14];
    let program = Decompiler::new(ghandler, lhandler).decompile(&cs).unwrap();
    assert_eq!(program.compile(), vec![149, 149, 5, 14]);
}
