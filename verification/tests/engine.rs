//! Rule-engine runs over synthetic TIFF buffers.

use quickexif::parser::{parse, Error};
use quickexif::rule::{CondType, OffsetType, ParsingRule};
use quickexif::value::Value;

/// The same little-endian TIFF as the walker tests use: IFD0 with a make
/// string, a width and an ExifIFD pointer; an ExifIFD with an iso value and
/// an exposure rational; IFD1 on the chain with a thumbnail offset.
fn sample_tiff_le() -> Vec<u8> {
    let mut d = Vec::new();
    d.extend_from_slice(&[0x49, 0x49, 0x2a, 0x00]);
    d.extend_from_slice(&8u32.to_le_bytes());
    d.extend_from_slice(&3u16.to_le_bytes());
    d.extend_from_slice(&0x010fu16.to_le_bytes());
    d.extend_from_slice(&2u16.to_le_bytes());
    d.extend_from_slice(&5u32.to_le_bytes());
    d.extend_from_slice(&50u32.to_le_bytes());
    d.extend_from_slice(&0x0100u16.to_le_bytes());
    d.extend_from_slice(&3u16.to_le_bytes());
    d.extend_from_slice(&1u32.to_le_bytes());
    d.extend_from_slice(&6000u16.to_le_bytes());
    d.extend_from_slice(&[0, 0]);
    d.extend_from_slice(&0x8769u16.to_le_bytes());
    d.extend_from_slice(&4u16.to_le_bytes());
    d.extend_from_slice(&1u32.to_le_bytes());
    d.extend_from_slice(&56u32.to_le_bytes());
    d.extend_from_slice(&86u32.to_le_bytes());
    d.extend_from_slice(b"SONY\0");
    d.push(0);
    // ExifIFD at 56: iso and a pointer to an exposure rational
    d.extend_from_slice(&2u16.to_le_bytes());
    d.extend_from_slice(&0x8827u16.to_le_bytes());
    d.extend_from_slice(&3u16.to_le_bytes());
    d.extend_from_slice(&1u32.to_le_bytes());
    d.extend_from_slice(&160u16.to_le_bytes());
    d.extend_from_slice(&[0, 0]);
    d.extend_from_slice(&0x829au16.to_le_bytes());
    d.extend_from_slice(&5u16.to_le_bytes());
    d.extend_from_slice(&1u32.to_le_bytes());
    d.extend_from_slice(&104u32.to_le_bytes()); // rational at 104
    d.extend_from_slice(&0u32.to_le_bytes());
    assert_eq!(d.len(), 86);
    // IFD1 at 86
    d.extend_from_slice(&1u16.to_le_bytes());
    d.extend_from_slice(&0x0201u16.to_le_bytes());
    d.extend_from_slice(&4u16.to_le_bytes());
    d.extend_from_slice(&1u32.to_le_bytes());
    d.extend_from_slice(&0x1234u32.to_le_bytes());
    d.extend_from_slice(&0u32.to_le_bytes());
    assert_eq!(d.len(), 104);
    // the exposure rational 1/30
    d.extend_from_slice(&1u32.to_le_bytes());
    d.extend_from_slice(&30u32.to_le_bytes());
    d
}

fn sample_rule() -> ParsingRule {
    ParsingRule::Tiff(vec![
        ParsingRule::Jump {
            tag: 0x010f,
            is_optional: false,
            rules: vec![ParsingRule::OffsetItem {
                offset: 0,
                name: "make",
                t: Value::Str(String::new()),
            }],
        },
        ParsingRule::TagItem {
            tag: 0x0100,
            name: "width",
            len: Some("width_len"),
            is_optional: false,
            is_value_u16: true,
        },
        ParsingRule::Jump {
            tag: 0x8769,
            is_optional: false,
            rules: vec![
                ParsingRule::TagItem {
                    tag: 0x8827,
                    name: "iso",
                    len: None,
                    is_optional: false,
                    is_value_u16: true,
                },
                ParsingRule::Jump {
                    tag: 0x829a,
                    is_optional: false,
                    rules: vec![ParsingRule::OffsetItem {
                        offset: 0,
                        name: "exposure_time",
                        t: Value::R64(0, 0),
                    }],
                },
            ],
        },
    ])
}

#[test]
fn engine_scenario() {
    let data = sample_tiff_le();
    let info = parse(&data, &sample_rule()).unwrap();
    assert!(info.is_le);
    assert_eq!(info.str("make"), Ok("SONY"));
    assert_eq!(info.u16("width"), Ok(6000));
    assert_eq!(info.u32("width_len"), Ok(1));
    assert_eq!(info.u16("iso"), Ok(160));
    assert_eq!(info.r64("exposure_time"), Ok((1, 30)));
}

#[test]
fn engine_skips_jpeg_preface() {
    // the first twelve bytes of a JPEG envelope are transparent
    let mut data = vec![0xff, 0xd8, 0xff, 0xe1];
    data.extend_from_slice(b"....Exif");
    data.extend_from_slice(&sample_tiff_le());
    let info = parse(&data, &sample_rule()).unwrap();
    assert_eq!(info.str("make"), Ok("SONY"));
    assert_eq!(info.u16("width"), Ok(6000));
}

#[test]
fn engine_jump_next() {
    let data = sample_tiff_le();
    let rule = ParsingRule::Tiff(vec![
        ParsingRule::TagItem {
            tag: 0x0100,
            name: "width",
            len: None,
            is_optional: false,
            is_value_u16: true,
        },
        ParsingRule::JumpNext(vec![ParsingRule::TagItem {
            tag: 0x0201,
            name: "thumb",
            len: None,
            is_optional: false,
            is_value_u16: false,
        }]),
    ]);
    let info = parse(&data, &rule).unwrap();
    assert_eq!(info.u32("thumb"), Ok(0x1234));
}

#[test]
fn engine_conditions() {
    let data = sample_tiff_le();
    let rule = ParsingRule::Tiff(vec![
        ParsingRule::TagItem {
            tag: 0x0100,
            name: "width",
            len: None,
            is_optional: false,
            is_value_u16: true,
        },
        ParsingRule::Condition {
            cond: (CondType::EXIST, "width", 0),
            left: vec![ParsingRule::OffsetItem { offset: 0, name: "seen", t: Value::U16(0) }],
            right: vec![],
        },
        ParsingRule::Condition {
            cond: (CondType::EXIST, "absent", 0),
            left: vec![],
            right: vec![ParsingRule::OffsetItem { offset: 1, name: "other", t: Value::U16(0) }],
        },
        ParsingRule::Condition {
            cond: (CondType::LT, "width", 7000),
            left: vec![ParsingRule::OffsetItem { offset: 2, name: "small", t: Value::U16(0) }],
            right: vec![],
        },
        ParsingRule::Condition {
            cond: (CondType::GT, "width", 7000),
            left: vec![ParsingRule::OffsetItem { offset: 3, name: "large", t: Value::U16(0) }],
            right: vec![],
        },
        ParsingRule::Condition {
            cond: (CondType::EQ, "width", 6000),
            left: vec![ParsingRule::OffsetItem { offset: 4, name: "exact", t: Value::U16(0) }],
            right: vec![],
        },
    ]);
    let info = parse(&data, &rule).unwrap();
    assert!(info.u16("seen").is_ok());
    assert!(info.u16("other").is_ok());
    assert!(info.u16("small").is_ok());
    assert!(info.u16("large").is_err());
    assert!(info.u16("exact").is_ok());
}

#[test]
fn engine_condition_missing_field_fails() {
    let data = sample_tiff_le();
    let rule = ParsingRule::Tiff(vec![ParsingRule::Condition {
        cond: (CondType::LT, "nobody", 1),
        left: vec![],
        right: vec![],
    }]);
    let r = parse(&data, &rule);
    assert!(matches!(
        r,
        Err(Error::RawInfoError(quickexif::parsed_info::Error::FieldNotFound(_)))
    ));
}

#[test]
fn engine_scan_records_position() {
    // II, three non-matching bytes, then a whole TIFF at position five
    let mut data = vec![0x49, 0x49, 0xaa, 0xbb, 0xcc];
    data.extend_from_slice(&sample_tiff_le());
    let rule = ParsingRule::Scan {
        marker: &[0x49, 0x49, 0x2a, 0x00],
        name: Some("tiff_at"),
        rules: vec![ParsingRule::Tiff(vec![ParsingRule::TagItem {
            tag: 0x0100,
            name: "width",
            len: None,
            is_optional: false,
            is_value_u16: true,
        }])],
    };
    let info = parse(&data, &rule).unwrap();
    assert_eq!(info.u32("tiff_at"), Ok(5));
    assert_eq!(info.u16("width"), Ok(6000));
}

#[test]
fn engine_scan_failed() {
    let data = sample_tiff_le();
    let rule = ParsingRule::Tiff(vec![ParsingRule::Scan {
        marker: &[0xde, 0xad, 0xbe, 0xef],
        name: None,
        rules: vec![],
    }]);
    assert!(matches!(parse(&data, &rule), Err(Error::ScanFailed(_))));
}

#[test]
fn engine_offsets() {
    let data = sample_tiff_le();
    let rule = ParsingRule::Tiff(vec![
        ParsingRule::TagItem {
            tag: 0x0100,
            name: "width",
            len: None,
            is_optional: false,
            is_value_u16: true,
        },
        // a zero-byte relocation keeps the frame and its cached entries;
        // the cursor stands at the first entry, whose tag it reads
        ParsingRule::Offset(
            OffsetType::Bytes(0),
            vec![ParsingRule::OffsetItem { offset: 0, name: "first_tag", t: Value::U16(0) }],
        ),
        ParsingRule::Offset(OffsetType::PrevField("width"), vec![]),
    ]);
    let info = parse(&data, &rule).unwrap();
    assert_eq!(info.u16("width"), Ok(6000));
    assert_eq!(info.u16("first_tag"), Ok(0x010f));
}

#[test]
fn engine_optional_tags() {
    let data = sample_tiff_le();
    let rule = ParsingRule::Tiff(vec![
        ParsingRule::TagItem {
            tag: 0x9999,
            name: "nothing",
            len: None,
            is_optional: true,
            is_value_u16: false,
        },
        ParsingRule::Jump { tag: 0x9999, is_optional: true, rules: vec![] },
    ]);
    let info = parse(&data, &rule).unwrap();
    assert!(info.u32("nothing").is_err());
}

#[test]
fn engine_required_tag_missing() {
    let data = sample_tiff_le();
    let rule = ParsingRule::Tiff(vec![ParsingRule::TagItem {
        tag: 0x9999,
        name: "nothing",
        len: None,
        is_optional: false,
        is_value_u16: false,
    }]);
    assert!(matches!(parse(&data, &rule), Err(Error::TagNotFound(0x9999))));
}

#[test]
fn engine_bad_byte_order() {
    let r = parse(&[0x58, 0x58, 0, 0], &ParsingRule::Tiff(vec![]));
    assert!(matches!(r, Err(Error::InvalidTiffHeaderByteOrder(0x5858))));
}

#[test]
fn engine_sony_decrypt() {
    // a region encrypted in place: the engine decrypts it and reads the
    // inner IFD from the plaintext
    let key = 0xfeed_beefu32;
    let mut inner = Vec::new();
    inner.extend_from_slice(&1u16.to_le_bytes());
    inner.extend_from_slice(&0x7310u16.to_le_bytes());
    inner.extend_from_slice(&3u16.to_le_bytes());
    inner.extend_from_slice(&1u32.to_le_bytes());
    inner.extend_from_slice(&512u16.to_le_bytes());
    inner.extend_from_slice(&[0, 0]);
    inner.extend_from_slice(&0u32.to_le_bytes());
    inner.extend_from_slice(&[0, 0]);
    assert_eq!(inner.len(), 20);
    let cipher = quickexif::sony::sony_decrypt(&inner, key, true);

    let mut d = Vec::new();
    d.extend_from_slice(&[0x49, 0x49, 0x2a, 0x00]);
    d.extend_from_slice(&8u32.to_le_bytes());
    d.extend_from_slice(&3u16.to_le_bytes());
    for (tag, value) in [(0x7200u16, 56u32), (0x7201, 20), (0x7221, key)] {
        d.extend_from_slice(&tag.to_le_bytes());
        d.extend_from_slice(&4u16.to_le_bytes());
        d.extend_from_slice(&1u32.to_le_bytes());
        d.extend_from_slice(&value.to_le_bytes());
    }
    d.extend_from_slice(&0u32.to_le_bytes());
    d.extend_from_slice(&[0; 6]);
    assert_eq!(d.len(), 56);
    d.extend_from_slice(&cipher);

    let rule = ParsingRule::Tiff(vec![ParsingRule::SonyDecrypt {
        offset_tag: 0x7200,
        len_tag: 0x7201,
        key_tag: 0x7221,
        rules: vec![ParsingRule::TagItem {
            tag: 0x7310,
            name: "black_level",
            len: None,
            is_optional: false,
            is_value_u16: true,
        }],
    }]);
    let info = parse(&d, &rule).unwrap();
    assert_eq!(info.u16("black_level"), Ok(512));
}

#[test]
fn engine_offset_item_value_types() {
    // each offset-scalar type decodes from the cursor position
    let mut d = Vec::new();
    d.extend_from_slice(&[0x49, 0x49, 0x2a, 0x00]);
    d.extend_from_slice(&8u32.to_le_bytes());
    d.extend_from_slice(&0x1234u16.to_le_bytes());
    d.extend_from_slice(&0x5678u16.to_le_bytes());
    let rule = ParsingRule::Offset(
        OffsetType::Bytes(8),
        vec![
            ParsingRule::OffsetItem { offset: 0, name: "first", t: Value::U16(0) },
            ParsingRule::OffsetItem { offset: 1, name: "second", t: Value::U16(0) },
            ParsingRule::OffsetItem { offset: 0, name: "both", t: Value::U32(0) },
        ],
    );
    let info = parse(&d, &rule).unwrap();
    assert_eq!(info.u16("first"), Ok(0x1234));
    assert_eq!(info.u16("second"), Ok(0x5678));
    assert_eq!(info.u32("both"), Ok(0x5678_1234));
}

#[test]
fn engine_string_is_trimmed() {
    // the text capture stops at the first NUL and trims ASCII whitespace
    let mut d = Vec::new();
    d.extend_from_slice(&[0x49, 0x49, 0x2a, 0x00]);
    d.extend_from_slice(&8u32.to_le_bytes());
    d.extend_from_slice(b"  hi \0x");
    let rule = ParsingRule::Offset(
        OffsetType::Bytes(8),
        vec![ParsingRule::OffsetItem { offset: 0, name: "text", t: Value::Str(String::new()) }],
    );
    let info = parse(&d, &rule).unwrap();
    assert_eq!(info.str("text"), Ok("hi"));
}

#[test]
fn rule_wf_rejects_empty_markers() {
    assert!(quickexif::parser::rule_wf(&sample_rule()));
    let bad = ParsingRule::Tiff(vec![ParsingRule::Scan {
        marker: &[],
        name: None,
        rules: vec![],
    }]);
    assert!(!quickexif::parser::rule_wf(&bad));
}

#[test]
fn engine_offset_prev_field_never_captured() {
    // a relocation by a field that nothing captured fails with that name
    let data = sample_tiff_le();
    let rule = ParsingRule::Offset(OffsetType::PrevField("missing"), vec![]);
    match parse(&data, &rule) {
        Err(Error::RawInfoError(quickexif::parsed_info::Error::FieldNotFound(n))) => {
            assert_eq!(n, "missing");
        },
        other => panic!("expected FieldNotFound, got {:?}", other),
    }
}

#[test]
fn engine_nested_tiff_bad_byte_order() {
    // a nested TIFF frame at a non-zero offset reads its own byte order and
    // reports the two bytes it found when they name neither order
    let mut data = sample_tiff_le();
    let at = data.len();
    data.extend_from_slice(b"ZZ");
    let rule = ParsingRule::Tiff(vec![ParsingRule::Offset(
        OffsetType::Bytes((at - 8) as i64),
        vec![ParsingRule::Tiff(vec![])],
    )]);
    match parse(&data, &rule) {
        Err(Error::InvalidTiffHeaderByteOrder(v)) => assert_eq!(v, 0x5a5a),
        other => panic!("expected InvalidTiffHeaderByteOrder, got {:?}", other),
    }
}
