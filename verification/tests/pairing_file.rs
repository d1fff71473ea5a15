use ed25519_dalek::{SigningKey, VerifyingKey};
use idevice::pairing_file::{PairingField, PairingFileError, RpPairingFile};
use idevice::plist_model::PlistValue;

fn public_of(secret: &[u8; 32]) -> [u8; 32] {
    VerifyingKey::from(&SigningKey::from_bytes(secret)).to_bytes()
}

fn sample() -> RpPairingFile {
    let secret = [7u8; 32];
    RpPairingFile {
        e_private_key: secret,
        e_public_key: public_of(&secret),
        identifier: "host-id".to_string(),
        alt_irk: Some([9u8; 16]),
    }
}

#[test]
fn generate_derives_the_public_key_and_identifier() {
    let f = RpPairingFile::generate("example.local");
    assert_eq!(f.e_public_key, public_of(&f.e_private_key));
    assert_ne!(f.e_public_key, f.e_private_key);
    let expected =
        uuid::Uuid::new_v3(&uuid::Uuid::NAMESPACE_DNS, "example.local".as_bytes()).to_string();
    assert_eq!(f.identifier(), expected);
    assert_ne!(f.identifier(), "example.local");
    assert!(f.alt_irk().is_none());
    assert_eq!(f.public_key_bytes(), f.e_public_key.to_vec());
    assert_eq!(f.private_key_bytes(), f.e_private_key.to_vec());
}

#[test]
fn recreating_keys_keeps_the_identifier() {
    let mut f = sample();
    f.recreate_signing_keys();
    assert_eq!(f.identifier(), "host-id");
    assert!(f.alt_irk.is_none());
    assert_eq!(f.e_public_key, public_of(&f.e_private_key));
}

#[test]
fn dictionary_roundtrip() {
    let f = sample();
    let dict = f.to_dictionary();
    assert_eq!(dict.len(), 4);
    assert_eq!(dict[0].0, "public_key");
    assert_eq!(dict[3], ("alt_irk".to_string(), PlistValue::Data(vec![9; 16])));
    let back = RpPairingFile::from_dictionary(&dict).unwrap();
    assert_eq!(back.e_private_key, f.e_private_key);
    assert_eq!(back.e_public_key, f.e_public_key);
    assert_eq!(back.identifier, f.identifier);
    assert_eq!(back.alt_irk, f.alt_irk);
}

fn without(key: &str) -> Vec<(String, PlistValue)> {
    sample().to_dictionary().into_iter().filter(|(k, _)| k != key).collect()
}

#[test]
fn missing_fields_are_reported() {
    assert_eq!(
        RpPairingFile::from_dictionary(&without("public_key")).err(),
        Some(PairingFileError::MissingField(PairingField::PublicKey))
    );
    assert_eq!(
        RpPairingFile::from_dictionary(&without("private_key")).err(),
        Some(PairingFileError::MissingField(PairingField::PrivateKey))
    );
    assert_eq!(
        RpPairingFile::from_dictionary(&without("identifier")).err(),
        Some(PairingFileError::MissingField(PairingField::Identifier))
    );
    let no_irk = RpPairingFile::from_dictionary(&without("alt_irk")).unwrap();
    assert!(no_irk.alt_irk.is_none());
}

#[test]
fn key_lengths_and_points_are_checked() {
    let mut short = sample().to_dictionary();
    short[1].1 = PlistValue::Data(vec![0; 31]);
    assert_eq!(
        RpPairingFile::from_dictionary(&short).err(),
        Some(PairingFileError::MissingField(PairingField::PrivateKey))
    );
    let mut invalid = [0u8; 32];
    let mut y = 2u8;
    loop {
        invalid[0] = y;
        if VerifyingKey::from_bytes(&invalid).is_err() {
            break;
        }
        y += 1;
    }
    let mut bad_point = sample().to_dictionary();
    bad_point[0].1 = PlistValue::Data(invalid.to_vec());
    assert_eq!(
        RpPairingFile::from_dictionary(&bad_point).err(),
        Some(PairingFileError::MissingField(PairingField::PublicKey))
    );
    let mut wrong_kind = sample().to_dictionary();
    wrong_kind[2].1 = PlistValue::Data(vec![]);
    assert_eq!(
        RpPairingFile::from_dictionary(&wrong_kind).err(),
        Some(PairingFileError::MissingField(PairingField::Identifier))
    );
}

#[test]
fn alt_irk_is_kept_only_at_sixteen_bytes() {
    let f = sample();
    assert_eq!(f.alt_irk(), Some(&[9u8; 16][..]));
    let mut short = f.to_dictionary();
    short[3].1 = PlistValue::Data(vec![1, 2, 3]);
    let back = RpPairingFile::from_dictionary(&short).unwrap();
    assert!(back.alt_irk.is_none());
    assert!(back.alt_irk().is_none());
}

fn xml_of(entries: Vec<(&str, plist::Value)>) -> Vec<u8> {
    let mut dict = plist::Dictionary::new();
    for (k, v) in entries {
        dict.insert(k.to_string(), v);
    }
    let mut out = Vec::new();
    plist::Value::Dictionary(dict).to_writer_xml(&mut out).unwrap();
    out
}

#[test]
fn reads_pairing_files_from_property_list_bytes() {
    let f = sample();
    let bytes = xml_of(vec![
        ("public_key", plist::Value::Data(f.e_public_key.to_vec())),
        ("private_key", plist::Value::Data(f.e_private_key.to_vec())),
        ("identifier", plist::Value::String("host-id".to_string())),
        ("alt_irk", plist::Value::Data(vec![9; 16])),
        ("other", plist::Value::Integer(5.into())),
    ]);
    let back = RpPairingFile::from_bytes(&bytes).unwrap();
    assert_eq!(back.e_public_key, f.e_public_key);
    assert_eq!(back.e_private_key, f.e_private_key);
    assert_eq!(back.identifier, "host-id");
    assert_eq!(back.alt_irk, Some([9u8; 16]));

    let no_identifier = xml_of(vec![
        ("public_key", plist::Value::Data(f.e_public_key.to_vec())),
        ("private_key", plist::Value::Data(f.e_private_key.to_vec())),
        ("identifier", plist::Value::Integer(1.into())),
    ]);
    assert_eq!(
        RpPairingFile::from_bytes(&no_identifier).err(),
        Some(PairingFileError::MissingField(PairingField::Identifier))
    );
    assert_eq!(
        RpPairingFile::from_bytes(b"not a plist").err(),
        Some(PairingFileError::NotADictionary)
    );
    let mut array = Vec::new();
    plist::Value::Array(vec![]).to_writer_xml(&mut array).unwrap();
    assert_eq!(
        RpPairingFile::from_bytes(&array).err(),
        Some(PairingFileError::NotADictionary)
    );
}

#[test]
fn generated_files_read_back_from_their_dictionary() {
    let f = RpPairingFile::generate("host.local");
    let back = RpPairingFile::from_dictionary(&f.to_dictionary()).unwrap();
    assert_eq!(back.e_public_key, f.e_public_key);
    assert_eq!(back.e_private_key, f.e_private_key);
    assert_eq!(back.identifier, f.identifier);
    assert_eq!(back.alt_irk, None);
}

#[test]
fn pairing_files_read_back_from_their_bytes() {
    let f = sample();
    let bytes = f.to_bytes();
    assert!(String::from_utf8(bytes.clone()).unwrap().contains("<key>identifier</key>"));
    let back = RpPairingFile::from_bytes(&bytes).unwrap();
    assert_eq!(back.e_public_key, f.e_public_key);
    assert_eq!(back.e_private_key, f.e_private_key);
    assert_eq!(back.identifier, f.identifier);
    assert_eq!(back.alt_irk, f.alt_irk);
}
