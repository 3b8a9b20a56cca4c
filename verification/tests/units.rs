//! Unit tests for the byte primitives, item accessors, the stores and the
//! Sony transform.

use quickexif::bytes::{read_i32, read_u16, read_u32, u16_to_bytes, u32_to_bytes};
use quickexif::ifd::IFDItem;
use quickexif::sony::sony_decrypt;
use quickexif::store::ResultStore;
use quickexif::value::Value;
use quickexif::parsed_info::ParsedInfo;

#[test]
fn endian_reads() {
    let b = [0x01u8, 0x02, 0x03, 0x04];
    assert_eq!(read_u16(&b, 0, true), 0x0201);
    assert_eq!(read_u16(&b, 0, false), 0x0102);
    assert_eq!(read_u16(&b, 2, true), 0x0403);
    assert_eq!(read_u32(&b, 0, true), 0x04030201);
    assert_eq!(read_u32(&b, 0, false), 0x01020304);
    let n = [0xffu8, 0xff, 0xff, 0xfe];
    assert_eq!(read_i32(&n, 0, false), -2);
}

#[test]
fn endian_encodes() {
    assert_eq!(u32_to_bytes(0x04030201, true), [0x01, 0x02, 0x03, 0x04]);
    assert_eq!(u32_to_bytes(0x04030201, false), [0x04, 0x03, 0x02, 0x01]);
    assert_eq!(u16_to_bytes(0x0201, true), [0x01, 0x02]);
    assert_eq!(u16_to_bytes(0x0201, false), [0x02, 0x01]);
}

#[test]
fn endian_round_trip_on_items() {
    // reading the inline value and re-encoding it in the item's own byte
    // order gives the four inline bytes back
    for is_le in [true, false] {
        let item = IFDItem {
            is_le,
            tag: 1,
            format: [0, 3],
            size: [0, 0, 0, 1],
            value: [0xde, 0xad, 0xbe, 0xef],
            actual_value: None,
        };
        assert_eq!(u32_to_bytes(item.u32(), is_le), [0xde, 0xad, 0xbe, 0xef]);
    }
}

fn payload_item(is_le: bool, payload: &[u8]) -> IFDItem {
    IFDItem {
        is_le,
        tag: 1,
        format: [0, 0],
        size: [0, 0, 0, 0],
        value: [0, 0, 0, 0],
        actual_value: Some(payload.to_vec()),
    }
}

#[test]
fn item_accessors() {
    let item = payload_item(true, &[0x01, 0x02, 0x03, 0x04, 0x05, 0x06, 0x07, 0x08]);
    assert_eq!(item.u16s(), Some(vec![0x0201, 0x0403, 0x0605, 0x0807]));
    assert_eq!(item.u32s(), Some(vec![0x04030201, 0x08070605]));
    assert_eq!(item.r64s(), Some(vec![(0x04030201, 0x08070605)]));
    assert_eq!(item.raw(), &[0x01, 0x02, 0x03, 0x04, 0x05, 0x06, 0x07, 0x08]);

    let inline = IFDItem {
        is_le: false,
        tag: 7,
        format: [0, 3],
        size: [0, 0, 0, 2],
        value: [0x12, 0x34, 0x56, 0x78],
        actual_value: None,
    };
    assert_eq!(inline.u16(), 0x1234);
    assert_eq!(inline.u32(), 0x12345678);
    assert_eq!(inline.size(), 2);
    assert_eq!(inline.raw(), &[0x12, 0x34, 0x56, 0x78]);
    assert_eq!(inline.u16s(), None);
    assert_eq!(inline.str(), None);
}

#[test]
fn item_str_strips_one_nul() {
    assert_eq!(payload_item(true, b"SONY\0").str(), Some("SONY"));
    assert_eq!(payload_item(true, b"A\0\0").str(), Some("A\0"));
    // a trailing NUL is dropped only when present
    assert_eq!(payload_item(true, b"SONY").str(), Some("SONY"));
    // invalid UTF-8 yields no text
    assert_eq!(payload_item(true, &[0xff, 0xfe, 0x00]).str(), None);
    assert_eq!(payload_item(true, b"").str(), Some(""));
}

#[test]
fn item_r64s_negative_numerator() {
    let item = payload_item(false, &[0xff, 0xff, 0xff, 0xfe, 0x00, 0x00, 0x00, 0x0a]);
    assert_eq!(item.r64s(), Some(vec![(-2, 10)]));
}

#[test]
fn store_overwrites_per_key() {
    // the store holds at most one item per (path, tag) key
    let mut store = ResultStore::new();
    assert_eq!(store.len(), 0);
    store.insert((0, 1), payload_item(true, b"a\0"));
    store.insert((0, 2), payload_item(true, b"b\0"));
    assert_eq!(store.len(), 2);
    store.insert((0, 1), payload_item(true, b"c\0"));
    assert_eq!(store.len(), 2);
    assert_eq!(store.get(&(0, 1)).unwrap().str(), Some("c"));
    assert_eq!(store.get(&(0, 2)).unwrap().str(), Some("b"));
    assert!(store.get(&(1, 1)).is_none());
}

#[test]
fn sony_transform_is_self_inverse() {
    // applying the SR2Private transform twice with the same key gives the
    // data back, on whole words
    let data: Vec<u8> = (0u8..32).collect();
    for key in [0u32, 1, 0x89ab_cdef, u32::MAX] {
        for is_le in [true, false] {
            let once = sony_decrypt(&data, key, is_le);
            assert_eq!(once.len(), 32);
            let twice = sony_decrypt(&once, key, is_le);
            assert_eq!(twice, data);
        }
    }
}

#[test]
fn sony_transform_drops_trailing_fragment() {
    let data = [1u8, 2, 3, 4, 5, 6];
    let out = sony_decrypt(&data, 7, true);
    assert_eq!(out.len(), 4);
}

#[test]
fn value_accessors() {
    assert_eq!(Value::U16(7).u16(), Ok(7));
    assert_eq!(Value::U16(7).u32(), Ok(7));
    assert_eq!(Value::U32(0x12345).u16(), Ok(0x2345));
    assert_eq!(Value::U32(9).u32(), Ok(9));
    assert_eq!(Value::U32(9).usize(), Ok(9));
    assert_eq!(Value::R64(-1, 3).r64(), Ok((-1, 3)));
    assert!(Value::R64(-1, 3).u32().is_err());
    assert!(Value::Str(String::from("x")).u16().is_err());
    assert_eq!(Value::Str(String::from("x")).str(), Ok("x"));
    assert!(Value::U16(1).str().is_err());
    assert_eq!(Value::U32(0x04030201).u8a4(true), Ok([0x01, 0x02, 0x03, 0x04]));
    assert_eq!(Value::U32(0x04030201).u8a4(false), Ok([0x04, 0x03, 0x02, 0x01]));
    assert!(Value::U16(1).u8a4(true).is_err());
    assert_eq!(Value::U16(1).size(), 2);
    assert_eq!(Value::U32(1).size(), 4);
    assert_eq!(Value::Str(String::new()).size(), 1);
    assert_eq!(Value::R64(0, 0).size(), 8);
}

#[test]
fn parsed_info_fields() {
    let mut info = ParsedInfo::new(true);
    assert!(info.is_le);
    info.insert("width", Value::U32(6000));
    info.insert("make", Value::Str(String::from("SONY")));
    info.insert("exposure", Value::R64(1, 30));
    assert_eq!(info.u32("width"), Ok(6000));
    assert_eq!(info.u16("width"), Ok(6000));
    assert_eq!(info.str("make"), Ok("SONY"));
    assert_eq!(info.r64("exposure"), Ok((1, 30)));
    assert_eq!(info.u8a4("width").unwrap(), 6000u32.to_le_bytes());
    assert_eq!(info.i32("width"), Ok(6000));
    assert_eq!(info.usize("width"), Ok(6000));
    assert!(info.u32("missing").is_err());
    assert!(info.i32("exposure").is_err());
    assert!(info.usize("make").is_err());
    assert!(info.str("width").is_err());
    // a later capture under the same name replaces the earlier one
    info.insert("width", Value::U16(9));
    assert_eq!(info.u32("width"), Ok(9));
}

#[test]
fn report_carries_place_and_error() {
    let r = quickexif::report::Report::new("walker.rs", 17, quickexif::Error::Io);
    assert_eq!(r.file, "walker.rs");
    assert_eq!(r.line, 17);
    assert_eq!(*r.source(), quickexif::Error::Io);
}

#[test]
fn errlog_carries_place_and_error() {
    let e = quickexif::log_helper::ErrLog::new("parser.rs", 3, quickexif::Error::PartNotDefined(9));
    assert_eq!(e.file, "parser.rs");
    assert_eq!(e.line, 3);
    assert_eq!(*e.source(), quickexif::Error::PartNotDefined(9));
}
