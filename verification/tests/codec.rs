use bisign::bignum::{read_bignum, write_bignum, write_bignum_checked};
use bisign::hashes::pad_hash;
use bisign::hex::hex_string;
use bisign::{BIPrivateKey, BISign, BISignError, BISignVersion};

fn test_key() -> BIPrivateKey {
    BIPrivateKey::generate(String::from("testauth"), 1024).expect("key generation failed")
}

#[test]
fn bignum_encode_reverses_and_pads() {
    let mut out: Vec<u8> = Vec::new();
    write_bignum(&mut out, &vec![1u8, 2, 3], 8);
    assert_eq!(out, vec![3u8, 2, 1, 0, 0, 0, 0, 0]);
}

#[test]
fn bignum_checked_encode_rejects_oversized() {
    let mut out: Vec<u8> = Vec::new();
    assert!(write_bignum_checked(&mut out, &vec![1u8, 2, 3], 2).is_err());
    assert!(out.is_empty());
    assert!(write_bignum_checked(&mut out, &vec![1u8, 2, 3], 4).is_ok());
    assert_eq!(out, vec![3u8, 2, 1, 0]);
}

#[test]
fn bignum_roundtrip() {
    let mut wire: Vec<u8> = Vec::new();
    write_bignum(&mut wire, &vec![0x12u8, 0x34, 0x56], 16);
    let back = read_bignum(&wire, 0, 16);
    assert_eq!(back, vec![0x12u8, 0x34, 0x56]);
}

#[test]
fn bignum_read_strips_leading_zeros() {
    // little-endian field 05 00 00 00 holds the value 5
    let wire = vec![5u8, 0, 0, 0];
    assert_eq!(read_bignum(&wire, 0, 4), vec![5u8]);
    let zero = vec![0u8, 0, 0, 0];
    assert_eq!(read_bignum(&zero, 0, 4), Vec::<u8>::new());
}

#[test]
fn padding_layout() {
    let digest: Vec<u8> = (0..20u8).collect();
    let padded = pad_hash(&digest, 46);
    assert_eq!(padded.len(), 46);
    assert_eq!(&padded[0..2], &[0u8, 1]);
    // eight FF bytes fill up to 46 - 36
    assert_eq!(&padded[2..10], &[0xFFu8; 8]);
    assert_eq!(
        &padded[10..26],
        &[0x00u8, 0x30, 0x21, 0x30, 0x09, 0x06, 0x05, 0x2b, 0x0e, 0x03, 0x02, 0x1a, 0x05, 0x00, 0x04, 0x14]
    );
    assert_eq!(&padded[26..46], digest.as_slice());
}

#[test]
fn padding_width_tracks_modulus() {
    let digest = vec![7u8; 20];
    let padded = pad_hash(&digest, 128);
    assert_eq!(padded.len(), 128);
    assert_eq!(&padded[0..3], &[0u8, 1, 0xFF]);
}

#[test]
fn public_key_blob_roundtrip() {
    let key = test_key();
    let public = key.to_public_key();
    let bytes = public.write();
    let parsed = bisign::BIPublicKey::read(&bytes).expect("parse failed");
    assert_eq!(parsed.name, public.name);
    assert_eq!(parsed.length, public.length);
    assert_eq!(parsed.exponent, public.exponent);
    assert_eq!(parsed.n, public.n);
    // serialize(parse(bytes)) gives the bytes back
    assert_eq!(parsed.write(), bytes);
}

#[test]
fn private_key_blob_roundtrip() {
    let key = test_key();
    let bytes = key.write();
    let parsed = BIPrivateKey::read(&bytes).expect("parse failed");
    assert_eq!(parsed.name, key.name);
    assert_eq!(parsed.length, key.length);
    assert_eq!(parsed.exponent, key.exponent);
    assert_eq!(parsed.n, key.n);
    assert_eq!(parsed.p, key.p);
    assert_eq!(parsed.q, key.q);
    assert_eq!(parsed.dp, key.dp);
    assert_eq!(parsed.dq, key.dq);
    assert_eq!(parsed.qinv, key.qinv);
    assert_eq!(parsed.d, key.d);
    assert_eq!(parsed.write(), bytes);
}

#[test]
fn public_key_layout_fields() {
    let key = test_key();
    let public = key.to_public_key();
    let bytes = public.write();
    // name, NUL, then the size prefix 1024/8 + 20
    assert_eq!(&bytes[0..9], b"testauth\0");
    assert_eq!(&bytes[9..13], &148u32.to_le_bytes());
    assert_eq!(&bytes[13..21], b"\x06\x02\x00\x00\x00\x24\x00\x00");
    assert_eq!(&bytes[21..25], b"RSA1");
    assert_eq!(&bytes[25..29], &1024u32.to_le_bytes());
    assert_eq!(&bytes[29..33], &65537u32.to_le_bytes());
    assert_eq!(bytes.len(), 33 + 128);
}

#[test]
fn malformed_blob_is_refused() {
    let key = test_key();
    let public = key.to_public_key();
    let mut bytes = public.write();
    bytes.truncate(bytes.len() - 1);
    assert!(matches!(
        bisign::BIPublicKey::read(&bytes),
        Err(BISignError::MalformedBlob)
    ));
    // a corrupted size prefix is caught too
    let mut bad = public.write();
    bad[9] ^= 0x01;
    assert!(matches!(
        bisign::BIPublicKey::read(&bad),
        Err(BISignError::MalformedBlob)
    ));
}

#[test]
fn unknown_version_is_reported() {
    let key = test_key();
    let pbo = bisign::Pbo {
        checksum: vec![0u8; 20],
        files: Vec::new(),
        prefix: None,
    };
    let sig = key.sign(&pbo, BISignVersion::V3);
    let mut bytes = sig.write();
    // the version field sits after name, header and the first two numbers
    let version_off = 9 + 24 + 128 + 4 + 128;
    assert_eq!(&bytes[version_off..version_off + 4], &3u32.to_le_bytes());
    bytes[version_off..version_off + 4].copy_from_slice(&4u32.to_le_bytes());
    match BISign::read(&bytes) {
        Err(BISignError::UnknownVersion(v)) => assert_eq!(v, 4),
        other => panic!("expected UnknownVersion, got {:?}", other.is_ok()),
    }
}

#[test]
fn signature_blob_roundtrip() {
    let key = test_key();
    let pbo = bisign::Pbo {
        checksum: vec![9u8; 20],
        files: vec![bisign::PboEntry {
            filename: b"script.sqf".to_vec(),
            data: b"hint \"hi\";".to_vec(),
        }],
        prefix: None,
    };
    let sig = key.sign(&pbo, BISignVersion::V2);
    let bytes = sig.write();
    let parsed = BISign::read(&bytes).expect("parse failed");
    assert_eq!(parsed.name, sig.name);
    assert_eq!(parsed.length, sig.length);
    assert_eq!(parsed.exponent, sig.exponent);
    assert!(matches!(parsed.version, BISignVersion::V2));
    assert_eq!(parsed.n, sig.n);
    assert_eq!(parsed.sig1, sig.sig1);
    assert_eq!(parsed.sig2, sig.sig2);
    assert_eq!(parsed.sig3, sig.sig3);
    assert_eq!(parsed.write(), bytes);
}

#[test]
fn known_signature_blob_reserializes_byte_for_byte() {
    // a hand-laid-out signature blob in the reference layout, with a
    // 368-bit modulus (46 bytes per number)
    let mut blob: Vec<u8> = Vec::new();
    blob.extend_from_slice(b"auth\0");
    blob.extend_from_slice(&66u32.to_le_bytes()); // 368/8 + 20
    blob.extend_from_slice(b"\x06\x02\x00\x00\x00\x24\x00\x00");
    blob.extend_from_slice(b"RSA1");
    blob.extend_from_slice(&368u32.to_le_bytes());
    blob.extend_from_slice(&65537u32.to_le_bytes());
    let mut n = vec![0u8; 46];
    n[45] = 0x80; // top byte of the little-endian field
    blob.extend_from_slice(&n);
    let sig_num = vec![1u8; 46];
    blob.extend_from_slice(&46u32.to_le_bytes());
    blob.extend_from_slice(&sig_num);
    blob.extend_from_slice(&2u32.to_le_bytes()); // version
    blob.extend_from_slice(&46u32.to_le_bytes());
    blob.extend_from_slice(&sig_num);
    blob.extend_from_slice(&46u32.to_le_bytes());
    blob.extend_from_slice(&sig_num);
    let parsed = BISign::read(&blob).expect("parse failed");
    assert_eq!(parsed.name, "auth");
    assert_eq!(parsed.length, 368);
    assert_eq!(parsed.write(), blob);
}

#[test]
fn hex_rendering() {
    assert_eq!(hex_string(&vec![]), "0");
    assert_eq!(hex_string(&vec![0u8, 0]), "0");
    assert_eq!(hex_string(&vec![5u8]), "05");
    assert_eq!(hex_string(&vec![0x01u8, 0xff]), "01ff");
    assert_eq!(hex_string(&vec![0xabu8, 0xcd, 0xef]), "abcdef");
    assert_eq!(hex_string(&vec![0u8, 0x0a, 0x00]), "0a00");
    // matches the bignum library's own hex rendering, lowercased
    let bn = openssl::bn::BigNum::from_slice(&[0x01u8, 0xff]).unwrap();
    assert_eq!(hex_string(&vec![0x01u8, 0xff]), bn.to_hex_str().unwrap().to_lowercase());
}

#[test]
fn assembled_key_checks_component_sizes() {
    let key = test_key();
    let parts = bisign::crypto::RsaComponents {
        n: key.n.clone(),
        e: vec![1, 0, 1],
        d: key.d.clone(),
        p: key.p.clone(),
        q: key.q.clone(),
        dp: key.dp.clone(),
        dq: key.dq.clone(),
        qinv: key.qinv.clone(),
    };
    let ok = BIPrivateKey::assemble_generated(String::from("testauth"), 1024, parts);
    assert!(ok.is_some());
    let oversized = bisign::crypto::RsaComponents {
        n: key.n.clone(),
        e: vec![1, 0, 1],
        d: key.d.clone(),
        p: vec![1u8; 65], // one byte beyond 1024/16
        q: key.q.clone(),
        dp: key.dp.clone(),
        dq: key.dq.clone(),
        qinv: key.qinv.clone(),
    };
    assert!(BIPrivateKey::assemble_generated(String::from("testauth"), 1024, oversized).is_none());
}

#[test]
fn malformed_beats_unknown_version() {
    // a blob whose width prefix is wrong and whose version is unknown is
    // malformed: the unknown version is reported only for a blob sound in
    // every other respect
    let key = test_key();
    let pbo = bisign::Pbo {
        checksum: vec![0u8; 20],
        files: Vec::new(),
        prefix: None,
    };
    let sig = key.sign(&pbo, BISignVersion::V3);
    let mut bytes = sig.write();
    let version_off = 9 + 24 + 128 + 4 + 128;
    bytes[version_off..version_off + 4].copy_from_slice(&4u32.to_le_bytes());
    let len2_off = version_off + 4;
    bytes[len2_off] ^= 0x01;
    assert!(matches!(
        BISign::read(&bytes),
        Err(BISignError::MalformedBlob)
    ));
}

#[test]
fn version_conversions() {
    assert_eq!(BISignVersion::V2.to_u32(), 2);
    assert_eq!(BISignVersion::V3.to_u32(), 3);
    assert!(matches!(
        BISignVersion::try_from_u32(2),
        Some(BISignVersion::V2)
    ));
    assert!(matches!(
        BISignVersion::try_from_u32(3),
        Some(BISignVersion::V3)
    ));
    assert!(BISignVersion::try_from_u32(7).is_none());
    assert_eq!(BISignVersion::V2.to_string(), "V2");
    assert_eq!(BISignVersion::V3.to_string(), "V3");
}
