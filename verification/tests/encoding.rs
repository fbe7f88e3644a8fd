use office_crypto_core::encoding::{b64_decode, encode_utf16le, u32_from_le_bytes, u32_to_le_bytes};
use office_crypto_core::error::DecryptError;

#[test]
fn base64_decodes_padded_groups() {
    assert_eq!(b64_decode(b"").unwrap(), Vec::<u8>::new());
    assert_eq!(b64_decode(b"QQ==").unwrap(), b"A".to_vec());
    assert_eq!(b64_decode(b"QUI=").unwrap(), b"AB".to_vec());
    assert_eq!(b64_decode(b"QUJD").unwrap(), b"ABC".to_vec());
    assert_eq!(b64_decode(b"+/+/").unwrap(), vec![0xfb, 0xff, 0xbf]);
    assert_eq!(b64_decode(b"AAECAwQF").unwrap(), vec![0, 1, 2, 3, 4, 5]);
}

#[test]
fn base64_refuses_invalid_input() {
    for bad in [&b"QQ="[..], b"QQ=A", b"Q===", b"QR==", b"QUJ=", b"QQ==QUJD", b"QU D", b"QUJD\n"] {
        assert!(matches!(b64_decode(bad), Err(DecryptError::InvalidStructure(_))), "{:?}", bad);
    }
}

#[test]
fn utf16le_encodes_surrogate_pairs() {
    assert_eq!(encode_utf16le("A\u{e9}"), vec![0x41, 0x00, 0xe9, 0x00]);
    assert_eq!(encode_utf16le("\u{1F600}"), vec![0x3d, 0xd8, 0x00, 0xde]);
    assert_eq!(encode_utf16le(""), Vec::<u8>::new());
}

#[test]
fn little_endian_round_trip() {
    assert_eq!(u32_to_le_bytes(0x0403_0201), vec![1, 2, 3, 4]);
    assert_eq!(u32_from_le_bytes(&[1, 2, 3, 4, 5]), 0x0403_0201);
}
