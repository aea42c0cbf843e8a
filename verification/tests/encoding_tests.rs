use fileforge::encoding::{decode_bytes, detect_encoding, utf16_units, DecodeError, Encoding};

#[test]
fn detect_boms_and_utf8() {
    assert_eq!(detect_encoding(&[0xEF, 0xBB, 0xBF, b'a']), Encoding::Utf8Bom);
    assert_eq!(detect_encoding(&[0xFF, 0xFE, b'a', 0]), Encoding::Utf16Le);
    assert_eq!(detect_encoding(&[0xFE, 0xFF, 0, b'a']), Encoding::Utf16Be);
    assert_eq!(detect_encoding("héllo".as_bytes()), Encoding::Utf8);
    assert_eq!(detect_encoding(b""), Encoding::Utf8);
    assert_eq!(detect_encoding(&[0xC3, 0x28]), Encoding::Unknown);
}

#[test]
fn decode_each_encoding() {
    assert_eq!(decode_bytes(Encoding::Utf8, "日本".as_bytes()).unwrap(), "日本");
    assert_eq!(decode_bytes(Encoding::Utf8Bom, &[0xEF, 0xBB, 0xBF, b'h', b'i']).unwrap(), "hi");
    assert_eq!(decode_bytes(Encoding::Utf8Bom, b"hi").unwrap(), "hi");
    assert_eq!(decode_bytes(Encoding::Utf16Le, &[0xFF, 0xFE, b'h', 0, b'i', 0]).unwrap(), "hi");
    assert_eq!(decode_bytes(Encoding::Utf16Be, &[0xFE, 0xFF, 0, b'h', 0, b'i']).unwrap(), "hi");
    // a trailing odd byte is ignored
    assert_eq!(decode_bytes(Encoding::Utf16Le, &[b'h', 0, b'i']).unwrap(), "h");
    // a surrogate pair
    assert_eq!(decode_bytes(Encoding::Utf16Le, &[0x3D, 0xD8, 0x00, 0xDE]).unwrap(), "\u{1F600}");
}

#[test]
fn decode_errors() {
    assert_eq!(decode_bytes(Encoding::Utf8, &[0xFF]).err(), Some(DecodeError::InvalidUtf8));
    assert_eq!(decode_bytes(Encoding::Utf16Le, &[0x00, 0xD8]).err(), Some(DecodeError::InvalidUtf16));
    assert_eq!(decode_bytes(Encoding::Unknown, b"abc").err(), Some(DecodeError::UnknownEncoding));
}

#[test]
fn detected_utf8_decodes() {
    let b = "plain text\n".as_bytes();
    assert_eq!(detect_encoding(b), Encoding::Utf8);
    assert_eq!(decode_bytes(Encoding::Utf8, b).unwrap(), "plain text\n");
}

#[test]
fn utf16_units_both_orders() {
    assert_eq!(utf16_units(&[0x34, 0x12, 0x78], true), vec![0x1234]);
    assert_eq!(utf16_units(&[0x12, 0x34], false), vec![0x1234]);
}

#[test]
fn encoding_names() {
    assert_eq!(Encoding::Utf8.name(), "Utf8");
    assert_eq!(Encoding::Utf8Bom.name(), "Utf8Bom");
    assert_eq!(Encoding::Utf16Le.name(), "Utf16Le");
    assert_eq!(Encoding::Utf16Be.name(), "Utf16Be");
    assert_eq!(Encoding::Unknown.name(), "Unknown");
    assert_eq!(Encoding::Utf16Le.name(), format!("{:?}", Encoding::Utf16Le));
}

#[test]
fn utf16_surrogate_pairs_and_unpaired() {
    let text = "a😀é€";
    let units: Vec<u16> = text.encode_utf16().collect();
    let decoded = fileforge::encoding::decode_utf16_units(&units).unwrap();
    assert_eq!(decoded.iter().collect::<String>(), text);
    assert!(fileforge::encoding::decode_utf16_units(&[0x61, 0xD800]).is_none());
    assert!(fileforge::encoding::decode_utf16_units(&[0xDC00, 0x61]).is_none());
    let mut le = vec![0xFF, 0xFE];
    for u in &units {
        le.extend_from_slice(&u.to_le_bytes());
    }
    assert_eq!(decode_bytes(Encoding::Utf16Le, &le).unwrap(), text);
}

#[test]
fn utf16_bytes_without_mark_in_both_orders() {
    let text = "x😀y";
    let units: Vec<u16> = text.encode_utf16().collect();
    let le: Vec<u8> = units.iter().flat_map(|u| u.to_le_bytes()).collect();
    let be: Vec<u8> = units.iter().flat_map(|u| u.to_be_bytes()).collect();
    assert_eq!(decode_bytes(Encoding::Utf16Le, &le).unwrap(), text);
    assert_eq!(decode_bytes(Encoding::Utf16Be, &be).unwrap(), text);
    let mut marked = vec![0xFE, 0xFF];
    marked.extend_from_slice(&be);
    assert_eq!(decode_bytes(Encoding::Utf16Be, &marked).unwrap(), text);
}
