use subsetter::cff::number::{parse_float_nibble, FixedNumber, IntegerNumber, Number, RealNumber, U24};
use subsetter::read::Reader;
use subsetter::write::Writer;

#[test]
fn u24() {
    let nums = [0u32, 45, 345, 54045, 32849324, 16777215];

    for num in nums {
        let wrapped = U24(num);

        let mut w = Writer::new();
        w.write(wrapped);
        let first = w.finish();

        let mut r = Reader::new(&first);
        let rewritten = r.read::<U24>().unwrap();
        let mut w = Writer::new();
        w.write(rewritten);
        let second = w.finish();

        assert_eq!(first, second);
    }
}

#[test]
fn size1_roundtrip() {
    let nums = [0, 1, -1, 93, 107, -107];

    for num in nums {
        let integer = IntegerNumber(num);
        let mut w = Writer::new();
        w.write(integer);
        let buffer = w.finish();
        let mut reader = Reader::new(&buffer);

        let reparsed = IntegerNumber::parse(&mut reader).unwrap();
        let mut w = Writer::new();
        w.write(reparsed);
        let bytes = w.finish();
        assert_eq!(bytes.len(), 1);
        assert_eq!(reparsed.0, num);
    }
}

#[test]
fn size2_roundtrip() {
    let nums = [108, -108, 255, -255, 349, -349, 845, -845, 1131, -1131];

    for num in nums {
        let integer = IntegerNumber(num);
        let mut w = Writer::new();
        w.write(integer);
        let buffer = w.finish();
        let mut reader = Reader::new(&buffer);

        let reparsed = IntegerNumber::parse(&mut reader).unwrap();
        let mut w = Writer::new();
        w.write(reparsed);
        let bytes = w.finish();
        assert_eq!(bytes.len(), 2);
        assert_eq!(reparsed.0, num);
    }
}

#[test]
fn size3_roundtrip() {
    let nums = [1132, -1132, 2450, -2450, 4096, -4096, 8965, -8965, 32767, -32768];

    for num in nums {
        let integer = IntegerNumber(num);
        let mut w = Writer::new();
        w.write(integer);
        let buffer = w.finish();
        let mut reader = Reader::new(&buffer);

        let reparsed = IntegerNumber::parse(&mut reader).unwrap();
        let mut w = Writer::new();
        w.write(reparsed);
        let bytes = w.finish();
        assert_eq!(bytes.len(), 3);
        assert_eq!(reparsed.0, num);
    }
}

#[test]
fn size5_roundtrip() {
    let nums = [32768, -32769, i32::MAX, i32::MIN];

    for num in nums {
        let integer = IntegerNumber(num);
        let mut w = Writer::new();
        w.write(integer);
        let buffer = w.finish();
        let mut reader = Reader::new(&buffer);

        let reparsed = IntegerNumber::parse(&mut reader).unwrap();
        let mut w = Writer::new();
        w.write(reparsed);
        let bytes = w.finish();
        assert_eq!(bytes.len(), 5);
        assert_eq!(reparsed.0, num);
    }
}

#[test]
fn fixed() {
    let num = [255u8, 154, 104, 120, 40];

    let mut r = Reader::new(&num);
    let parsed = FixedNumber::parse(&mut r).unwrap();

    let mut w = Writer::new();
    w.write(parsed);

    assert_eq!(num, w.finish().as_ref());
}

#[test]
fn integer_encodings_exact_bytes() {
    // One byte: the value plus 139.
    let mut w = Writer::new();
    w.write(IntegerNumber(0));
    assert_eq!(w.finish(), vec![139]);
    // Two bytes, positive: 247 + (v - 108) / 256, then the rest.
    let mut w = Writer::new();
    w.write(IntegerNumber(1000));
    assert_eq!(w.finish(), vec![250, 124]);
    // Two bytes, negative.
    let mut w = Writer::new();
    w.write(IntegerNumber(-1000));
    assert_eq!(w.finish(), vec![254, 124]);
    // Three bytes: 28 and a 16-bit number.
    let mut w = Writer::new();
    w.write(IntegerNumber(10000));
    assert_eq!(w.finish(), vec![28, 0x27, 0x10]);
    // Five bytes: 29 and a 32-bit number.
    let mut w = Writer::new();
    w.write(IntegerNumber(100000));
    assert_eq!(w.finish(), vec![29, 0, 1, 0x86, 0xA0]);
}

#[test]
fn number_as_i32() {
    assert_eq!(Number::from_i32(-5).as_i32(), Some(-5));
    assert_eq!(Number::from_i32(7).as_u32(), Some(7));
    assert_eq!(Number::from_i32(-7).as_u32(), None);
}

/// The bytes of a real operand, written.
fn w2_bytes(real: RealNumber) -> Vec<u8> {
    let mut w = Writer::new();
    w.write(real);
    w.finish()
}

/// The decimal text of a real operand's nibbles (after the prefix byte 30).
fn real_text(bytes: &[u8]) -> Vec<u8> {
    let mut text = Vec::new();
    let mut idx = 0;
    for &b in &bytes[1..] {
        for nibble in [b >> 4, b & 15] {
            if nibble == 15 {
                return text;
            }
            idx = parse_float_nibble(nibble, idx, &mut text).unwrap();
        }
    }
    text
}

#[test]
fn parse_float() {
    let num = [0x1E, 0xE2, 0x49, 0x32, 0xA1, 0x2C, 0x2F];
    let mut r = Reader::new(&num);
    let real = RealNumber::parse(&mut r).unwrap();
    assert!(r.at_end());
    let mut w = Writer::new();
    w.write(real);
    let written = w.finish();
    assert_eq!(written, num.to_vec());
    let text = real_text(&written);
    assert_eq!(text, b"-24932.12E-2".to_vec());
    let value: f32 = std::str::from_utf8(&text).unwrap().parse().unwrap();
    assert_eq!(-249.3212, value);
}

#[test]
fn float_roundtrip() {
    // 0.58, -0.21, 3.98, 16.49, 159.18 and 5906.2, as real operands.
    let nums: [(&[u8], &[u8]); 6] = [
        (&[30, 0x0A, 0x58, 0xFF], b"0.58"),
        (&[30, 0xE0, 0xA2, 0x1F], b"-0.21"),
        (&[30, 0x3A, 0x98, 0xFF], b"3.98"),
        (&[30, 0x16, 0xA4, 0x9F], b"16.49"),
        (&[30, 0x15, 0x9A, 0x18, 0xFF], b"159.18"),
        (&[30, 0x59, 0x06, 0xA2, 0xFF], b"5906.2"),
    ];

    for (bytes, text) in nums {
        let mut r = Reader::new(bytes);
        let real = RealNumber::parse(&mut r).unwrap();
        let mut w = Writer::new();
        w.write(real);
        let buffer = w.finish();
        assert_eq!(buffer, bytes.to_vec());
        let mut reader = Reader::new(&buffer);
        let reparsed = RealNumber::parse(&mut reader).unwrap();
        let mut w2 = Writer::new();
        w2.write(reparsed);
        assert_eq!(w2.finish(), buffer);
        assert_eq!(real_text(&buffer), text.to_vec());
        let value: f32 = std::str::from_utf8(text).unwrap().parse().unwrap();
        let reparsed_text = real_text(&w2_bytes(reparsed));
        let revalue: f32 = std::str::from_utf8(&reparsed_text).unwrap().parse().unwrap();
        assert_eq!(revalue, value);
    }
}

#[test]
fn writer_holds_writes_in_order() {
    let mut w = Writer::new();
    w.write(0x1234u16);
    w.extend(b"ab");
    w.write(7u8);
    w.write(0x01020304u32);
    assert_eq!(w.len(), 9);
    w.align(4);
    assert_eq!(w.len(), 12);
    assert_eq!(w.finish(), vec![0x12, 0x34, b'a', b'b', 7, 1, 2, 3, 4, 0, 0, 0]);
}
