use aes::cipher::block_padding::NoPadding;
use aes::cipher::{BlockEncryptMut, KeyIvInit};
use sha2::{Digest, Sha512};

use office_crypto_core::agile::AgileEncryptionInfo;
use office_crypto_core::error::DecryptError;
use office_crypto_core::xml::{XmlAttribute, XmlElement, XmlEvent};

const BLOCK3: [u8; 8] = [0x14, 0x6E, 0x0B, 0xE7, 0xAB, 0xAC, 0xD0, 0xD6];

fn b64(bytes: &[u8]) -> String {
    const ALPHABET: &[u8] = b"ABCDEFGHIJKLMNOPQRSTUVWXYZabcdefghijklmnopqrstuvwxyz0123456789+/";
    let mut out = String::new();
    for chunk in bytes.chunks(3) {
        let b = [chunk[0], *chunk.get(1).unwrap_or(&0), *chunk.get(2).unwrap_or(&0)];
        let n = ((b[0] as u32) << 16) | ((b[1] as u32) << 8) | b[2] as u32;
        for i in 0..4 {
            if i <= chunk.len() {
                out.push(ALPHABET[((n >> (18 - 6 * i)) & 63) as usize] as char);
            } else {
                out.push('=');
            }
        }
    }
    out
}

fn cbc_encrypt(key: &[u8], iv: &[u8], plaintext: &[u8]) -> Vec<u8> {
    assert_eq!(plaintext.len() % 16, 0);
    let mut out = vec![0u8; plaintext.len()];
    cbc::Encryptor::<aes::Aes256>::new(key.into(), iv.into())
        .encrypt_padded_b2b_mut::<NoPadding>(plaintext, &mut out)
        .unwrap();
    out
}

fn sha512(data: &[u8]) -> Vec<u8> {
    Sha512::digest(data).to_vec()
}

fn utf16le(text: &str) -> Vec<u8> {
    text.encode_utf16().flat_map(|u| u.to_le_bytes()).collect()
}

/// The key that the scheme derives from a password.
fn password_key(salt: &[u8], password: &str, spin_count: u32) -> Vec<u8> {
    let mut h = sha512(&[salt, &utf16le(password)].concat());
    for i in 0..spin_count {
        h = sha512(&[&i.to_le_bytes()[..], &h].concat());
    }
    sha512(&[&h[..], &BLOCK3[..]].concat())[..32].to_vec()
}

struct Descriptor {
    key_data_salt: Vec<u8>,
    key_data_hash: &'static str,
    password_salt: Vec<u8>,
    password_hash: &'static str,
    spin_count: u32,
    key_bits: u32,
    encrypted_key_value: Vec<u8>,
}

fn descriptor_xml(d: &Descriptor) -> String {
    format!(
        r#"<?xml version="1.0" encoding="UTF-8" standalone="yes"?>
<encryption xmlns="http://schemas.microsoft.com/office/2006/encryption" xmlns:p="http://schemas.microsoft.com/office/2006/keyEncryptor/password">
  <keyData saltSize="16" blockSize="16" keyBits="256" hashSize="64" cipherAlgorithm="AES" cipherChaining="ChainingModeCBC" hashAlgorithm="{}" saltValue="{}"/>
  <dataIntegrity encryptedHmacKey="{}" encryptedHmacValue="{}"/>
  <keyEncryptors>
    <keyEncryptor uri="http://schemas.microsoft.com/office/2006/keyEncryptor/password">
      <p:encryptedKey spinCount="{}" saltSize="16" blockSize="16" keyBits="{}" hashSize="64" cipherAlgorithm="AES" cipherChaining="ChainingModeCBC" hashAlgorithm="{}" saltValue="{}" encryptedVerifierHashInput="{}" encryptedVerifierHashValue="{}" encryptedKeyValue="{}"/>
    </keyEncryptor>
  </keyEncryptors>
</encryption>"#,
        d.key_data_hash,
        b64(&d.key_data_salt),
        b64(&[1, 2, 3, 4]),
        b64(&[5, 6, 7]),
        d.spin_count,
        d.key_bits,
        d.password_hash,
        b64(&d.password_salt),
        b64(&[8, 9]),
        b64(&[10]),
        b64(&d.encrypted_key_value),
    )
}

const FILE_KEY: [u8; 32] = [
    0x5a, 0x11, 0x92, 0x03, 0xc4, 0x25, 0x36, 0x47, 0x58, 0x69, 0x7a, 0x8b, 0x9c, 0xad, 0xbe, 0xcf,
    0xd0, 0xe1, 0xf2, 0x03, 0x14, 0x25, 0x36, 0x47, 0x58, 0x69, 0x7a, 0x8b, 0x9c, 0xad, 0xbe, 0x0f,
];

fn sample_descriptor(password: &str) -> Descriptor {
    let password_salt: Vec<u8> = (0u8..16).map(|i| i * 7 + 3).collect();
    let spin_count = 25;
    let key = password_key(&password_salt, password, spin_count);
    Descriptor {
        key_data_salt: (0u8..16).map(|i| 200 - i).collect(),
        key_data_hash: "SHA512",
        encrypted_key_value: cbc_encrypt(&key, &password_salt, &FILE_KEY),
        password_salt,
        password_hash: "SHA512",
        spin_count,
        key_bits: 256,
    }
}

/// Builds an encrypted package stream the way the scheme lays it out.
fn encrypt_package(key_data_salt: &[u8], key: &[u8], package: &[u8]) -> Vec<u8> {
    let mut stream = (package.len() as u32).to_le_bytes().to_vec();
    stream.extend_from_slice(&[0, 0, 0, 0]);
    for (i, segment) in package.chunks(4096).enumerate() {
        let iv = &sha512(&[key_data_salt, &(i as u32).to_le_bytes()[..]].concat())[..16];
        let mut padded = segment.to_vec();
        while padded.len() % 16 != 0 {
            padded.push(0);
        }
        stream.extend_from_slice(&cbc_encrypt(key, iv, &padded));
    }
    stream
}

fn package_bytes(n: usize) -> Vec<u8> {
    (0..n).map(|i| (i * 31 % 251) as u8).collect()
}

#[test]
fn descriptor_is_read_from_xml() {
    let d = sample_descriptor("secret");
    let info = AgileEncryptionInfo::new(&descriptor_xml(&d)).unwrap();
    let debug = format!("{:?}", info);
    assert!(debug.contains("spin_count: 25"));
    assert!(debug.contains("password_key_bits: 256"));
    assert!(debug.contains("key_data_block_size: 16"));
    assert!(debug.contains("key_data_hash_algorithm: \"SHA512\""));
    assert!(debug.contains("encrypted_hmac_key: [1, 2, 3, 4]"));
    assert!(debug.contains("encrypted_hmac_value: [5, 6, 7]"));
    assert!(debug.contains("encrypted_verifier_hash_input: [8, 9]"));
    assert!(debug.contains("encrypted_verifier_hash_value: [10]"));
    assert!(debug.contains(&format!("password_salt: {:?}", d.password_salt)));
    assert!(debug.contains(&format!("key_data_salt: {:?}", d.key_data_salt)));
}

#[test]
fn key_from_password_recovers_the_file_key() {
    let d = sample_descriptor("correct horse");
    let info = AgileEncryptionInfo::new(&descriptor_xml(&d)).unwrap();
    assert!(info.key_derivation_is_defined());
    let key = info.key_from_password("correct horse").unwrap();
    assert_eq!(key, FILE_KEY.to_vec());
}

#[test]
fn key_from_password_with_wrong_password_differs() {
    let d = sample_descriptor("correct horse");
    let info = AgileEncryptionInfo::new(&descriptor_xml(&d)).unwrap();
    let key = info.key_from_password("wrong horse").unwrap();
    assert_eq!(key.len(), 32);
    assert_ne!(key, FILE_KEY.to_vec());
}

#[test]
fn key_from_password_non_bmp_password() {
    let password = "p\u{e9}\u{1F600}w";
    let d = sample_descriptor(password);
    let info = AgileEncryptionInfo::new(&descriptor_xml(&d)).unwrap();
    assert_eq!(info.key_from_password(password).unwrap(), FILE_KEY.to_vec());
}

#[test]
fn key_from_password_unsupported_hash_is_unimplemented() {
    let mut d = sample_descriptor("x");
    d.password_hash = "SHA256";
    let info = AgileEncryptionInfo::new(&descriptor_xml(&d)).unwrap();
    match info.key_from_password("x") {
        Err(DecryptError::Unimplemented(m)) => assert_eq!(m, "AgileEncryption: password_hash_algorithm: SHA256"),
        other => panic!("{other:?}"),
    }
}

#[test]
fn key_from_password_unknown_hash_is_invalid() {
    let mut d = sample_descriptor("x");
    d.password_hash = "MD5";
    let info = AgileEncryptionInfo::new(&descriptor_xml(&d)).unwrap();
    match info.key_from_password("x") {
        Err(DecryptError::InvalidStructure(m)) => assert_eq!(m, "AgileEncryption: unrecognised password hash algorithm"),
        other => panic!("{other:?}"),
    }
}

#[test]
fn key_derivation_needs_a_256_bit_key() {
    let mut d = sample_descriptor("x");
    d.key_bits = 128;
    let info = AgileEncryptionInfo::new(&descriptor_xml(&d)).unwrap();
    assert!(!info.key_derivation_is_defined());
}

#[test]
fn decrypt_whole_and_partial_segments() {
    let d = sample_descriptor("pw");
    let info = AgileEncryptionInfo::new(&descriptor_xml(&d)).unwrap();
    for size in [1usize, 16, 100, 4095, 4096, 4097, 4100, 4104, 4105, 5000, 8192, 8200, 8300, 10000, 12288, 12300] {
        let package = package_bytes(size);
        let stream = encrypt_package(&d.key_data_salt, &FILE_KEY, &package);
        assert!(info.decrypt_is_defined(&FILE_KEY, &stream), "size {size}");
        let plain = info.decrypt(&FILE_KEY, &stream).unwrap();
        assert_eq!(plain.len(), size);
        assert_eq!(plain, package, "size {size}");
    }
}

#[test]
fn decrypt_segments_are_independent() {
    let d = sample_descriptor("pw");
    let info = AgileEncryptionInfo::new(&descriptor_xml(&d)).unwrap();
    let package = package_bytes(10000);
    let mut stream = encrypt_package(&d.key_data_salt, &FILE_KEY, &package);
    // corrupt the second segment only
    stream[8 + 4096 + 100] ^= 0xff;
    let plain = info.decrypt(&FILE_KEY, &stream).unwrap();
    assert_eq!(plain[..4096], package[..4096]);
    assert_ne!(plain[4096..8192], package[4096..8192]);
    assert_eq!(plain[8192..], package[8192..]);
}

#[test]
fn decrypt_short_stream_is_invalid() {
    let d = sample_descriptor("pw");
    let info = AgileEncryptionInfo::new(&descriptor_xml(&d)).unwrap();
    match info.decrypt(&FILE_KEY, &[1, 2, 3]) {
        Err(DecryptError::InvalidStructure(m)) => assert_eq!(
            m,
            "AgileEncryption: decrypt: encrypted_steam.read_exact(4): failed to fill whole buffer"
        ),
        other => panic!("{other:?}"),
    }
}

#[test]
fn decrypt_misaligned_tail_is_invalid() {
    let d = sample_descriptor("pw");
    let info = AgileEncryptionInfo::new(&descriptor_xml(&d)).unwrap();
    let package = package_bytes(5000);
    let mut stream = encrypt_package(&d.key_data_salt, &FILE_KEY, &package);
    stream.push(0);
    assert!(info.decrypt_is_defined(&FILE_KEY, &stream));
    match info.decrypt(&FILE_KEY, &stream) {
        Err(DecryptError::InvalidStructure(m)) => assert_eq!(m, "AgileEncryption: decrypt: SHA512: remaining block size"),
        other => panic!("{other:?}"),
    }
}

#[test]
fn decrypt_truncated_segment_is_invalid() {
    let d = sample_descriptor("pw");
    let info = AgileEncryptionInfo::new(&descriptor_xml(&d)).unwrap();
    let package = package_bytes(10000);
    let mut stream = encrypt_package(&d.key_data_salt, &FILE_KEY, &package);
    stream.truncate(8 + 4096 + 10);
    assert!(info.decrypt_is_defined(&FILE_KEY, &stream));
    match info.decrypt(&FILE_KEY, &stream) {
        Err(DecryptError::InvalidStructure(m)) => {
            assert_eq!(m, "AgileEncryption: decrypt: SHA512: cbc_cipher.decrypt: Unpad Error")
        },
        other => panic!("{other:?}"),
    }
}

#[test]
fn decrypt_last_segment_holds_the_remaining_bytes() {
    // 4100 bytes: one whole segment, then a last segment of 4 bytes with its own IV.
    let d = sample_descriptor("pw");
    let info = AgileEncryptionInfo::new(&descriptor_xml(&d)).unwrap();
    let package = package_bytes(4100);
    let stream = encrypt_package(&d.key_data_salt, &FILE_KEY, &package);
    assert_eq!(stream.len(), 8 + 4096 + 16);
    assert_eq!(info.decrypt(&FILE_KEY, &stream).unwrap(), package);
}

#[test]
fn decrypt_needs_a_32_byte_key() {
    let d = sample_descriptor("pw");
    let info = AgileEncryptionInfo::new(&descriptor_xml(&d)).unwrap();
    let stream = encrypt_package(&d.key_data_salt, &FILE_KEY, &package_bytes(5000));
    assert!(!info.decrypt_is_defined(&FILE_KEY[..16], &stream));
}

#[test]
fn decrypt_empty_package_is_not_defined() {
    let d = sample_descriptor("pw");
    let info = AgileEncryptionInfo::new(&descriptor_xml(&d)).unwrap();
    let mut stream = vec![0u8; 8];
    stream.extend_from_slice(&[0u8; 16]);
    assert!(!info.decrypt_is_defined(&FILE_KEY, &stream));
}

#[test]
fn decrypt_unsupported_key_data_hash_is_unimplemented() {
    let mut d = sample_descriptor("pw");
    d.key_data_hash = "SHA1";
    let info = AgileEncryptionInfo::new(&descriptor_xml(&d)).unwrap();
    let stream = encrypt_package(&d.key_data_salt, &FILE_KEY, &package_bytes(5000));
    match info.decrypt(&FILE_KEY, &stream) {
        Err(DecryptError::Unimplemented(m)) => assert_eq!(m, "AgileEncryption: key_data_hash_algorithm: SHA512"),
        other => panic!("{other:?}"),
    }
}

#[test]
fn decrypt_unknown_key_data_hash_is_invalid() {
    let mut d = sample_descriptor("pw");
    d.key_data_hash = "sha512";
    let info = AgileEncryptionInfo::new(&descriptor_xml(&d)).unwrap();
    let stream = encrypt_package(&d.key_data_salt, &FILE_KEY, &package_bytes(5000));
    assert!(matches!(info.decrypt(&FILE_KEY, &stream), Err(DecryptError::InvalidStructure(_))));
}

#[test]
fn missing_sections_are_refused() {
    let d = sample_descriptor("pw");
    let xml = descriptor_xml(&d);
    for (name, message) in [
        ("<keyData ", "AgileEncryption: keyData is missing"),
        ("<dataIntegrity ", "AgileEncryption: dataIntegrity is missing"),
        ("<p:encryptedKey ", "AgileEncryption: p:encryptedKey is missing"),
    ] {
        let broken = xml.replace(name, "<other ");
        match AgileEncryptionInfo::new(&broken) {
            Err(DecryptError::InvalidStructure(m)) => assert_eq!(m, message),
            other => panic!("{other:?}"),
        }
    }
}

#[test]
fn repeated_section_is_ignored() {
    let d = sample_descriptor("pw");
    let xml = descriptor_xml(&d).replace(
        "</encryption>",
        "<keyData hashAlgorithm=\"SHA1\" saltValue=\"!!\" blockSize=\"x\"/></encryption>",
    );
    let info = AgileEncryptionInfo::new(&xml).unwrap();
    assert!(format!("{:?}", info).contains("key_data_hash_algorithm: \"SHA512\""));
}

#[test]
fn bad_base64_is_refused() {
    let d = sample_descriptor("pw");
    let xml = descriptor_xml(&d).replace(&format!("saltValue=\"{}\"", b64(&d.key_data_salt)), "saltValue=\"QQ=A\"");
    match AgileEncryptionInfo::new(&xml) {
        Err(DecryptError::InvalidStructure(m)) => assert_eq!(m, "base64: invalid character or padding"),
        other => panic!("{other:?}"),
    }
}

#[test]
fn bad_number_is_refused() {
    let d = sample_descriptor("pw");
    for bad in ["spinCount=\"-1\"", "spinCount=\"4294967296\"", "spinCount=\"\"", "spinCount=\"1 \""] {
        let xml = descriptor_xml(&d).replace("spinCount=\"25\"", bad);
        match AgileEncryptionInfo::new(&xml) {
            Err(DecryptError::InvalidStructure(m)) => {
                assert!(m.starts_with("AgileEncryption: p:encryptedKey.spinCount: parse(): "), "{m}")
            },
            other => panic!("{other:?}"),
        }
    }
    let xml = descriptor_xml(&d).replace("spinCount=\"25\"", "spinCount=\"+7\"");
    assert!(format!("{:?}", AgileEncryptionInfo::new(&xml).unwrap()).contains("spin_count: 7"));
}

#[test]
fn malformed_xml_is_refused() {
    let d = sample_descriptor("pw");
    let xml = descriptor_xml(&d).replace("<dataIntegrity ", "<dataIntegrity a b ");
    assert!(matches!(AgileEncryptionInfo::new(&xml), Err(DecryptError::InvalidStructure(_))));
    assert!(matches!(
        AgileEncryptionInfo::new("<encryption></other>"),
        Err(DecryptError::InvalidStructure(_))
    ));
}

fn element(name: &str, attributes: &[(&str, &str)]) -> XmlEvent {
    XmlEvent::Empty(XmlElement {
        name: name.as_bytes().to_vec(),
        attributes: attributes
            .iter()
            .map(|(k, v)| XmlAttribute::Attribute { key: k.as_bytes().to_vec(), value: v.as_bytes().to_vec() })
            .collect(),
    })
}

fn minimal_events() -> Vec<XmlEvent> {
    vec![
        XmlEvent::Other,
        element("keyData", &[("hashAlgorithm", "SHA512"), ("saltValue", "AAEC")]),
        element("dataIntegrity", &[]),
        element("p:encryptedKey", &[("spinCount", "3"), ("keyBits", "256")]),
    ]
}

#[test]
fn from_events_reads_parameters() {
    let info = AgileEncryptionInfo::from_events(&minimal_events()).unwrap();
    let debug = format!("{:?}", info);
    assert!(debug.contains("key_data_salt: [0, 1, 2]"));
    assert!(debug.contains("spin_count: 3"));
    assert!(debug.contains("password_key_bits: 256"));
}

#[test]
fn from_events_ignores_events_after_end() {
    let mut events = minimal_events();
    events.insert(1, XmlEvent::Eof);
    assert!(matches!(AgileEncryptionInfo::from_events(&events), Err(DecryptError::InvalidStructure(_))));
    let mut events = minimal_events();
    events.push(XmlEvent::Eof);
    events.push(XmlEvent::Malformed("late".to_string()));
    assert!(AgileEncryptionInfo::from_events(&events).is_ok());
}

#[test]
fn from_events_malformed_attribute_is_refused() {
    let mut events = minimal_events();
    events[2] = XmlEvent::Empty(XmlElement {
        name: b"dataIntegrity".to_vec(),
        attributes: vec![XmlAttribute::Malformed("bad".to_string())],
    });
    match AgileEncryptionInfo::from_events(&events) {
        Err(DecryptError::InvalidStructure(m)) => assert_eq!(m, "AgileEncryption: dataIntegrity: attributes(): bad"),
        other => panic!("{other:?}"),
    }
}

#[test]
fn from_events_malformed_event_is_refused() {
    let mut events = minimal_events();
    events.insert(2, XmlEvent::Malformed("bad".to_string()));
    match AgileEncryptionInfo::from_events(&events) {
        Err(DecryptError::InvalidStructure(m)) => assert_eq!(m, "AgileEncryption: bad"),
        other => panic!("{other:?}"),
    }
}

#[test]
fn from_events_first_section_wins() {
    let mut events = minimal_events();
    events.push(element("p:encryptedKey", &[("spinCount", "not a number")]));
    let debug = format!("{:?}", AgileEncryptionInfo::from_events(&events).unwrap());
    assert!(debug.contains("spin_count: 3"));
}

#[test]
fn from_events_invalid_utf8_is_refused() {
    let mut events = minimal_events();
    events[1] = XmlEvent::Empty(XmlElement {
        name: b"keyData".to_vec(),
        attributes: vec![XmlAttribute::Attribute { key: b"hashAlgorithm".to_vec(), value: vec![0x53, 0xff] }],
    });
    match AgileEncryptionInfo::from_events(&events) {
        Err(DecryptError::InvalidStructure(m)) => {
            assert!(m.starts_with("AgileEncryption: keyData.hashAlgorithm: "), "{m}")
        },
        other => panic!("{other:?}"),
    }
}

#[test]
fn from_events_unknown_attributes_and_elements_are_ignored() {
    let mut events = minimal_events();
    events.insert(0, element("keyEncryptor", &[("uri", "x")]));
    events[2] = element("keyData", &[("cipherAlgorithm", "AES"), ("saltValue", "AAEC")]);
    let debug = format!("{:?}", AgileEncryptionInfo::from_events(&events).unwrap());
    assert!(debug.contains("key_data_salt: [0, 1, 2]"));
    assert!(debug.contains("key_data_hash_algorithm: \"\""));
}

#[test]
fn first_elements_of_each_section_are_read() {
    let xml = "<e><keyData blockSize='16' hashAlgorithm='SHA512'/><dataIntegrity/><p:encryptedKey spinCount='7' keyBits='256' hashAlgorithm='SHA384'/><keyData blockSize='32' hashAlgorithm='SHA1'/></e>";
    let debug = format!("{:?}", AgileEncryptionInfo::new(xml).unwrap());
    assert!(debug.contains("key_data_block_size: 16"));
    assert!(debug.contains("key_data_hash_algorithm: \"SHA512\""));
    assert!(debug.contains("password_hash_algorithm: \"SHA384\""));
    assert!(debug.contains("spin_count: 7"));
    assert!(debug.contains("password_key_bits: 256"));
    assert!(debug.contains("key_data_salt: []"));
    assert!(debug.contains("encrypted_key_value: []"));
}

#[test]
fn start_and_end_tags_are_not_read() {
    let xml = "<e><keyData hashAlgorithm='SHA512'></keyData><dataIntegrity/><p:encryptedKey/></e>";
    match AgileEncryptionInfo::new(xml) {
        Err(DecryptError::InvalidStructure(m)) => assert_eq!(m, "AgileEncryption: keyData is missing"),
        other => panic!("{other:?}"),
    }
}
