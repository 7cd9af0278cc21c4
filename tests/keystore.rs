use rvault::codec::{decode_payload, encode_payload, read_u32_le, write_u32_le, KdfParams, KeystoreError, KeystoreRecord};
use rvault::keystore::{create, default_kdf_params, derive_kek, load, unwrap_key, wrap_key};

fn fast_kdf() -> KdfParams {
    KdfParams { t: 1, m: 64, p: 1 }
}

fn sample_record() -> KeystoreRecord {
    KeystoreRecord {
        kdf: KdfParams { t: 3, m: 1024, p: 2 },
        salt: (0u8..16).collect(),
        nonce: (100u8..112).collect(),
        ciphertext: vec![9, 8, 7, 6, 5],
    }
}

#[test]
fn u32_little_endian_round_trip() {
    let mut buf = vec![0xAAu8];
    write_u32_le(0x1234_5678, &mut buf);
    assert_eq!(buf, vec![0xAA, 0x78, 0x56, 0x34, 0x12]);
    let mut cur = 1usize;
    assert_eq!(read_u32_le(&buf, &mut cur), Ok(0x1234_5678));
    assert_eq!(cur, 5);
    assert_eq!(read_u32_le(&buf, &mut cur), Err(KeystoreError::Corrupt));
    assert_eq!(cur, 5);
}

#[test]
fn payload_layout_and_round_trip() {
    let rec = sample_record();
    let bytes = encode_payload(&rec);
    assert_eq!(bytes.len(), 60 + 5 + 4);
    assert_eq!(&bytes[0..8], b"RVAULT\0\x01");
    assert_eq!(&bytes[8..12], &[1, 0, 0, 0]);
    assert_eq!(&bytes[12..16], &[0, 0, 0, 0]);
    assert_eq!(&bytes[16..20], &[3, 0, 0, 0]);
    assert_eq!(&bytes[20..24], &[0, 4, 0, 0]);
    assert_eq!(&bytes[56..60], &[5, 0, 0, 0]);
    assert_eq!(&bytes[60..65], &[9, 8, 7, 6, 5]);
    let crc = crc32fast::hash(&bytes[..65]);
    assert_eq!(&bytes[65..69], &crc.to_le_bytes());
    let back = decode_payload(&bytes).unwrap();
    assert_eq!(back.kdf, rec.kdf);
    assert_eq!(back.salt, rec.salt);
    assert_eq!(back.nonce, rec.nonce);
    assert_eq!(back.ciphertext, rec.ciphertext);
}

#[test]
fn payload_trailing_bytes_are_ignored() {
    let mut bytes = encode_payload(&sample_record());
    bytes.extend_from_slice(b"trailing");
    assert!(decode_payload(&bytes).is_ok());
}

#[test]
fn payload_checksum_mismatch_is_corrupt() {
    let mut bytes = encode_payload(&sample_record());
    bytes[62] ^= 0x01;
    assert!(matches!(decode_payload(&bytes), Err(KeystoreError::Corrupt)));
}

#[test]
fn payload_other_version_is_unsupported() {
    let mut bytes = encode_payload(&sample_record());
    bytes[8] = 2;
    assert!(matches!(decode_payload(&bytes), Err(KeystoreError::UnsupportedVersion)));
}

#[test]
fn payload_truncated_is_corrupt() {
    let bytes = encode_payload(&sample_record());
    for cut in [0usize, 7, 11, 30, 59, 64, 68] {
        assert!(matches!(decode_payload(&bytes[..cut]), Err(KeystoreError::Corrupt)), "cut {cut}");
    }
}

#[test]
fn default_kdf_costs() {
    assert_eq!(default_kdf_params(), KdfParams { t: 3, m: 209_715, p: 1 });
}

#[test]
fn create_then_load_returns_the_key() {
    let c = create("hunter2", "", Some(fast_kdf()), false).unwrap();
    assert_eq!(c.mek.len(), 32);
    assert_eq!(c.file.len(), 8 + 60 + 48 + 4);
    assert_eq!(load("hunter2", &c.file).unwrap(), c.mek);
}

#[test]
fn create_twice_gives_different_keys() {
    let a = create("pw", "", Some(fast_kdf()), false).unwrap();
    let b = create("pw", "", Some(fast_kdf()), false).unwrap();
    assert_ne!(a.mek, b.mek);
    assert_ne!(a.file, b.file);
}

#[test]
fn banner_is_written_before_the_payload() {
    let c = create("pw", "my vault", Some(fast_kdf()), false).unwrap();
    assert!(c.file.starts_with(b"my vault\n"));
    assert_eq!(load("pw", &c.file).unwrap(), c.mek);
    let d = create("pw", "line\n", Some(fast_kdf()), false).unwrap();
    assert!(d.file.starts_with(b"line\n"));
    assert_ne!(&d.file[5..6], b"\n");
}

#[test]
fn wrong_password_is_authentication_error() {
    let c = create("correct", "", Some(fast_kdf()), false).unwrap();
    assert_eq!(load("incorrect", &c.file), Err(KeystoreError::Authentication));
}

#[test]
fn existing_keystore_is_never_overwritten() {
    assert!(matches!(create("pw", "", Some(fast_kdf()), true), Err(KeystoreError::AlreadyExists)));
}

#[test]
fn invalid_kdf_costs_are_refused() {
    let bad = KdfParams { t: 0, m: 64, p: 1 };
    assert!(matches!(create("pw", "", Some(bad), false), Err(KeystoreError::InvalidKdfParams)));
    assert!(matches!(derive_kek(b"pw", &[0u8; 16], KdfParams { t: 1, m: 4, p: 1 }), Err(KeystoreError::InvalidKdfParams)));
    assert!(matches!(derive_kek(b"pw", &[0u8; 16], KdfParams { t: 1, m: 64, p: 9 }), Err(KeystoreError::InvalidKdfParams)));
    assert!(matches!(derive_kek(b"pw", &[0u8; 8], KdfParams { t: 1, m: 64, p: 0 }), Err(KeystoreError::InvalidKdfParams)));
    assert!(matches!(derive_kek(b"pw", &[0u8; 7], fast_kdf()), Err(KeystoreError::InvalidKdfParams)));
    let huge = KdfParams { t: 1, m: u32::MAX, p: 1 };
    assert!(matches!(derive_kek(b"pw", &[0u8; 16], huge), Err(KeystoreError::InvalidKdfParams)));
    assert!(matches!(create("pw", "", Some(huge), false), Err(KeystoreError::InvalidKdfParams)));
}

#[test]
fn load_without_magic_is_corrupt() {
    assert_eq!(load("pw", b"not a keystore at all"), Err(KeystoreError::Corrupt));
    assert_eq!(load("pw", b""), Err(KeystoreError::Corrupt));
}

#[test]
fn tampered_keystore_is_corrupt_not_authentication() {
    let c = create("pw", "", Some(fast_kdf()), false).unwrap();
    let mut file = c.file.clone();
    let last = file.len() - 10;
    file[last] ^= 0x40;
    assert_eq!(load("pw", &file), Err(KeystoreError::Corrupt));
}

#[test]
fn kek_depends_on_password_and_salt() {
    let a = derive_kek(b"pw", &[1u8; 16], fast_kdf()).unwrap();
    let b = derive_kek(b"pw", &[1u8; 16], fast_kdf()).unwrap();
    let c = derive_kek(b"pw", &[2u8; 16], fast_kdf()).unwrap();
    let d = derive_kek(b"pw2", &[1u8; 16], fast_kdf()).unwrap();
    assert_eq!(a.len(), 32);
    assert_eq!(a, b);
    assert_ne!(a, c);
    assert_ne!(a, d);
    assert_ne!(a, b"pw".to_vec());
}

#[test]
fn wrap_then_unwrap() {
    let mek = vec![7u8; 32];
    let rec = wrap_key(b"pw", &mek, vec![3u8; 16], vec![4u8; 12], fast_kdf()).unwrap();
    assert_eq!(rec.ciphertext.len(), 48);
    assert_ne!(&rec.ciphertext[..32], &mek[..]);
    assert_eq!(unwrap_key(b"pw", &rec).unwrap(), mek);
    assert_eq!(unwrap_key(b"other", &rec), Err(KeystoreError::Authentication));
}

#[test]
fn banner_holding_the_magic_tag_is_refused() {
    let banner = "intro RVAULT\0\u{1} outro";
    assert!(matches!(create("pw", banner, Some(fast_kdf()), false), Err(KeystoreError::InvalidBanner)));
}

#[test]
fn filler_never_holds_the_tag_start() {
    for _ in 0..20 {
        let c = create("pw", "b", Some(fast_kdf()), false).unwrap();
        assert!(!c.file[2..10].contains(&0x52));
        assert_eq!(&c.file[10..18], b"RVAULT\0\x01");
        assert_eq!(load("pw", &c.file).unwrap(), c.mek);
    }
}
