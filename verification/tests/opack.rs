use idevice::opack::{opack_to_plist, plist_to_opack, OpackError};
use idevice::opack_encode::plist_to_opack_inner;
use idevice::plist_model::{PlistValue, RealBits};

fn s(text: &str) -> PlistValue {
    PlistValue::String(text.to_string())
}

fn pairing_dictionary() -> PlistValue {
    PlistValue::Dictionary(vec![
        (
            "altIRK".to_string(),
            PlistValue::Data(b"\xe9\xe8-\xc0jIykVoT\x00\x19\xb1\xc7{".to_vec()),
        ),
        ("btAddr".to_string(), s("11:22:33:44:55:66")),
        ("mac".to_string(), PlistValue::Data(b"\x11\x22\x33\x44\x55\x66".to_vec())),
        ("remotepairing_serial_number".to_string(), s("AAAAAAAAAAAA")),
        ("accountID".to_string(), s("lolsssss")),
        ("model".to_string(), s("computer-model")),
        ("name".to_string(), s("reeeee")),
    ])
}

const PAIRING_BYTES: [u8; 154] = [
    0xe7, 0x46, 0x61, 0x6c, 0x74, 0x49, 0x52, 0x4b, 0x80, 0xe9, 0xe8, 0x2d, 0xc0, 0x6a, 0x49, 0x79,
    0x6b, 0x56, 0x6f, 0x54, 0x00, 0x19, 0xb1, 0xc7, 0x7b, 0x46, 0x62, 0x74, 0x41, 0x64, 0x64, 0x72,
    0x51, 0x31, 0x31, 0x3a, 0x32, 0x32, 0x3a, 0x33, 0x33, 0x3a, 0x34, 0x34, 0x3a, 0x35, 0x35, 0x3a,
    0x36, 0x36, 0x43, 0x6d, 0x61, 0x63, 0x76, 0x11, 0x22, 0x33, 0x44, 0x55, 0x66, 0x5b, 0x72, 0x65,
    0x6d, 0x6f, 0x74, 0x65, 0x70, 0x61, 0x69, 0x72, 0x69, 0x6e, 0x67, 0x5f, 0x73, 0x65, 0x72, 0x69,
    0x61, 0x6c, 0x5f, 0x6e, 0x75, 0x6d, 0x62, 0x65, 0x72, 0x4c, 0x41, 0x41, 0x41, 0x41, 0x41, 0x41,
    0x41, 0x41, 0x41, 0x41, 0x41, 0x41, 0x49, 0x61, 0x63, 0x63, 0x6f, 0x75, 0x6e, 0x74, 0x49, 0x44,
    0x48, 0x6c, 0x6f, 0x6c, 0x73, 0x73, 0x73, 0x73, 0x73, 0x45, 0x6d, 0x6f, 0x64, 0x65, 0x6c, 0x4e,
    0x63, 0x6f, 0x6d, 0x70, 0x75, 0x74, 0x65, 0x72, 0x2d, 0x6d, 0x6f, 0x64, 0x65, 0x6c, 0x44, 0x6e,
    0x61, 0x6d, 0x65, 0x46, 0x72, 0x65, 0x65, 0x65, 0x65, 0x65,
];

#[test]
fn t1() {
    let v = pairing_dictionary();
    let res = plist_to_opack(&v);
    println!("{res:02X?}");
    assert_eq!(res, PAIRING_BYTES);
}

#[test]
fn t2() {
    let expected = pairing_dictionary();
    let res = opack_to_plist(&PAIRING_BYTES).unwrap();
    println!("{res:02X?}");
    assert_eq!(res, expected);
}

fn roundtrip(v: PlistValue) {
    let bytes = plist_to_opack(&v);
    assert_eq!(opack_to_plist(&bytes), Ok(v));
}

#[test]
fn scalars_encode_compactly() {
    assert_eq!(plist_to_opack(&PlistValue::Boolean(true)), vec![0x01]);
    assert_eq!(plist_to_opack(&PlistValue::Boolean(false)), vec![0x02]);
    assert_eq!(plist_to_opack(&PlistValue::Integer(0)), vec![0x08]);
    assert_eq!(plist_to_opack(&PlistValue::Integer(0x27)), vec![0x2f]);
    assert_eq!(plist_to_opack(&PlistValue::Integer(0x28)), vec![0x30, 0x28]);
    assert_eq!(plist_to_opack(&PlistValue::Integer(0x100)), vec![0x32, 0x00, 0x01, 0x00, 0x00]);
    assert_eq!(
        plist_to_opack(&PlistValue::Integer(0x1_0000_0000)),
        vec![0x33, 0, 0, 0, 0, 1, 0, 0, 0]
    );
    assert_eq!(plist_to_opack(&PlistValue::Integer(-3)), vec![0x08]);
    assert_eq!(
        plist_to_opack(&PlistValue::Real(RealBits::Single(0x3f80_0000))),
        vec![0x35, 0x3f, 0x80, 0x00, 0x00]
    );
    assert_eq!(
        plist_to_opack(&PlistValue::Real(RealBits::Double(0x3ff0_0000_0000_0000))),
        vec![0x36, 0x3f, 0xf0, 0, 0, 0, 0, 0, 0]
    );
    assert_eq!(plist_to_opack(&PlistValue::Unencodable), Vec::<u8>::new());
}

#[test]
fn sized_payloads_pick_their_length_encoding() {
    assert_eq!(plist_to_opack(&s("")), vec![0x40]);
    let long = "x".repeat(0x21);
    let mut expected = vec![0x61, 0x21];
    expected.extend_from_slice(long.as_bytes());
    assert_eq!(plist_to_opack(&PlistValue::String(long)), expected);
    let data = vec![7u8; 0x100];
    let encoded = plist_to_opack(&PlistValue::Data(data.clone()));
    assert_eq!(&encoded[..3], &[0x92, 0x00, 0x01]);
    assert_eq!(encoded.len(), 3 + 0x100);
    roundtrip(PlistValue::Data(data));
    roundtrip(PlistValue::String("é漢字".to_string()));
}

#[test]
fn long_containers_use_a_terminator() {
    let items = || (0..15).map(PlistValue::Integer).collect::<Vec<PlistValue>>();
    let encoded = plist_to_opack(&PlistValue::Array(items()));
    assert_eq!(encoded[0], 0xdf);
    assert_eq!(*encoded.last().unwrap(), 0x03);
    roundtrip(PlistValue::Array(items()));
    let short = || (0..14).map(PlistValue::Integer).collect::<Vec<PlistValue>>();
    assert_eq!(plist_to_opack(&PlistValue::Array(short()))[0], 0xde);
    roundtrip(PlistValue::Array(short()));
    let entries: Vec<(String, PlistValue)> =
        (0..20).map(|i| (format!("k{i}"), PlistValue::Integer(i))).collect();
    roundtrip(PlistValue::Dictionary(entries));
}

#[test]
fn nested_values_roundtrip() {
    roundtrip(PlistValue::Array(vec![
        PlistValue::Dictionary(vec![("a".to_string(), PlistValue::Array(vec![]))]),
        PlistValue::Real(RealBits::Double(1)),
        PlistValue::Integer(u64::MAX as i128),
        PlistValue::Boolean(false),
    ]));
}

#[test]
fn decoding_errors() {
    assert_eq!(opack_to_plist(&[]), Err(OpackError::EndOfInput));
    assert_eq!(opack_to_plist(&[0x01, 0x01]), Err(OpackError::TrailingBytes(1)));
    assert_eq!(opack_to_plist(&[0x03]), Err(OpackError::UnexpectedTerminator));
    assert_eq!(opack_to_plist(&[0x04]), Err(OpackError::UnsupportedTag(0x04)));
    assert_eq!(opack_to_plist(&[0x30]), Err(OpackError::EndOfInput));
    assert_eq!(opack_to_plist(&[0x32, 1, 2]), Err(OpackError::Truncated(4)));
    assert_eq!(opack_to_plist(&[0x43, b'a']), Err(OpackError::Truncated(3)));
    assert_eq!(opack_to_plist(&[0x41, 0xff]), Err(OpackError::InvalidUtf8));
    assert_eq!(opack_to_plist(&[0xe1, 0x08, 0x08]), Err(OpackError::KeyNotString));
    assert_eq!(opack_to_plist(&[0xdf, 0x08]), Err(OpackError::EndOfInput));
}

#[test]
fn decoding_keeps_one_entry_per_key() {
    let bytes = [0xe3, 0x41, b'a', 0x08, 0x41, b'b', 0x09, 0x41, b'a', 0x0a];
    assert_eq!(
        opack_to_plist(&bytes),
        Ok(PlistValue::Dictionary(vec![
            ("a".to_string(), PlistValue::Integer(2)),
            ("b".to_string(), PlistValue::Integer(1)),
        ]))
    );
}

#[test]
fn decoding_reads_every_length_encoding() {
    assert_eq!(opack_to_plist(&[0x61, 1, b'z']), Ok(s("z")));
    assert_eq!(opack_to_plist(&[0x62, 1, 0, b'z']), Ok(s("z")));
    assert_eq!(opack_to_plist(&[0x63, 1, 0, 0, 0, b'z']), Ok(s("z")));
    assert_eq!(opack_to_plist(&[0x64, 1, 0, 0, 0, 0, 0, 0, 0, b'z']), Ok(s("z")));
    assert_eq!(opack_to_plist(&[0x71, 9]), Ok(PlistValue::Data(vec![9])));
    assert_eq!(opack_to_plist(&[0x35, 0x3f, 0x80, 0, 0]), Ok(PlistValue::Real(RealBits::Single(0x3f80_0000))));
}

#[test]
fn encoding_appends_after_what_the_buffer_holds() {
    let mut buf = vec![0xaa, 0xbb];
    let v = pairing_dictionary();
    plist_to_opack_inner(&v, &mut buf);
    assert_eq!(&buf[..2], &[0xaa, 0xbb]);
    assert_eq!(&buf[2..], &plist_to_opack(&v)[..]);
}

#[test]
fn bytes_after_a_complete_payload_are_refused() {
    let mut bytes = plist_to_opack(&pairing_dictionary());
    assert!(opack_to_plist(&bytes).is_ok());
    bytes.extend_from_slice(&[0x01, 0x02, 0x03]);
    assert_eq!(opack_to_plist(&bytes), Err(OpackError::TrailingBytes(3)));
}
