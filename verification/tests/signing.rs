use bisign::hashes::generate_hashes;
use bisign::{
    BIPrivateKey, BIPublicKey, BISign, BISignError, BISignVersion, Pbo, PboEntry, Sign, Verify,
};

fn keypair(name: &str) -> (BIPrivateKey, BIPublicKey) {
    let key = BIPrivateKey::generate(String::from(name), 1024).expect("key generation failed");
    let public = key.to_public_key();
    (key, public)
}

fn script_pbo() -> Pbo {
    let body = b"hint \"hi\";".to_vec();
    let checksum = openssl::sha::sha1(&body).to_vec();
    Pbo {
        checksum,
        files: vec![PboEntry {
            filename: b"script.sqf".to_vec(),
            data: body,
        }],
        prefix: None,
    }
}

fn paa_pbo() -> Pbo {
    let body = vec![0u8; 2048];
    Pbo {
        checksum: vec![3u8; 20],
        files: vec![PboEntry {
            filename: b"image.paa".to_vec(),
            data: body,
        }],
        prefix: None,
    }
}

#[test]
fn sign_and_verify_v3() {
    let (key, public) = keypair("testauth");
    let pbo = script_pbo();
    let blob = Sign::run(&key, &pbo, BISignVersion::V3);
    let sig = BISign::read(&blob).expect("signature blob must parse");
    assert_eq!(sig.name, "testauth");
    assert_eq!(sig.length, 1024);
    assert!(matches!(sig.version, BISignVersion::V3));
    assert!(public.verify(&pbo, &sig).is_ok());
    assert!(Verify::run(&public, &pbo, &blob).is_ok());
}

#[test]
fn sign_and_verify_v2() {
    let (key, public) = keypair("testauth");
    let pbo = script_pbo();
    let sig = key.sign(&pbo, BISignVersion::V2);
    assert!(public.verify(&pbo, &sig).is_ok());
}

#[test]
fn v2_body_digest_covers_sqf() {
    // V2 includes .sqf files: the third digest hashes the file body
    let pbo = script_pbo();
    let (_, _, h3) = generate_hashes(&pbo, BISignVersion::V2, 1024);
    let filehash = openssl::sha::sha1(b"hint \"hi\";");
    let namehash = openssl::sha::sha1(b"script.sqf");
    let mut input = Vec::new();
    input.extend_from_slice(&filehash);
    input.extend_from_slice(&namehash);
    let expected = openssl::sha::sha1(&input);
    assert_eq!(&h3[h3.len() - 20..], &expected);
}

#[test]
fn empty_selection_v2_sentinel() {
    // V2 excludes .paa, so the body digest falls back to "nothing"
    let pbo = paa_pbo();
    let (_, _, h3) = generate_hashes(&pbo, BISignVersion::V2, 1024);
    let filehash = openssl::sha::sha1(b"nothing");
    let namehash = openssl::sha::sha1(b"image.paa");
    let mut input = Vec::new();
    input.extend_from_slice(&filehash);
    input.extend_from_slice(&namehash);
    let expected = openssl::sha::sha1(&input);
    assert_eq!(&h3[h3.len() - 20..], &expected);
    let (key, public) = keypair("testauth");
    let sig = key.sign(&pbo, BISignVersion::V2);
    assert!(public.verify(&pbo, &sig).is_ok());
}

#[test]
fn empty_selection_v3_sentinel_differs() {
    // V3 leaves .paa out as well, but hashes the reversed literal
    let pbo = paa_pbo();
    let (_, _, h3_v2) = generate_hashes(&pbo, BISignVersion::V2, 1024);
    let (_, _, h3_v3) = generate_hashes(&pbo, BISignVersion::V3, 1024);
    let filehash = openssl::sha::sha1(b"gnihton");
    let namehash = openssl::sha::sha1(b"image.paa");
    let mut input = Vec::new();
    input.extend_from_slice(&filehash);
    input.extend_from_slice(&namehash);
    let expected = openssl::sha::sha1(&input);
    assert_eq!(&h3_v3[h3_v3.len() - 20..], &expected);
    assert_ne!(h3_v2, h3_v3);
    let (key, public) = keypair("testauth");
    let sig = key.sign(&pbo, BISignVersion::V3);
    assert!(public.verify(&pbo, &sig).is_ok());
}

#[test]
fn tampered_checksum_fails_on_first_hash() {
    let (key, public) = keypair("testauth");
    let mut pbo = script_pbo();
    let sig = key.sign(&pbo, BISignVersion::V3);
    pbo.checksum[0] ^= 0x40;
    match public.verify(&pbo, &sig) {
        Err(BISignError::HashMismatch { signed, real }) => {
            assert_eq!(signed.len(), 40);
            assert_eq!(real.len(), 40);
            assert_ne!(signed, real);
            let lower_hex = |s: &str| {
                s.chars()
                    .all(|c| c.is_ascii_digit() || ('a'..='f').contains(&c))
            };
            assert!(lower_hex(&signed));
            assert!(lower_hex(&real));
        }
        other => panic!("expected HashMismatch, got ok={}", other.is_ok()),
    }
}

#[test]
fn tampered_body_fails() {
    let (key, public) = keypair("testauth");
    let mut pbo = script_pbo();
    let sig = key.sign(&pbo, BISignVersion::V3);
    pbo.files[0].data[2] ^= 0x01;
    assert!(matches!(
        public.verify(&pbo, &sig),
        Err(BISignError::HashMismatch { .. })
    ));
}

#[test]
fn authority_mismatch_wins_over_hashes() {
    let (key, _) = keypair("testauth");
    let (_, mut other_public) = keypair("otherauth");
    let pbo = script_pbo();
    let sig = key.sign(&pbo, BISignVersion::V3);
    // even with the right numbers the name decides first
    other_public.n = key.n.clone();
    other_public.length = key.length;
    other_public.exponent = key.exponent;
    match other_public.verify(&pbo, &sig) {
        Err(BISignError::AuthorityMismatch { expected, actual }) => {
            assert_eq!(expected, "otherauth");
            assert_eq!(actual, "testauth");
        }
        other => panic!("expected AuthorityMismatch, got ok={}", other.is_ok()),
    }
}

#[test]
fn prefix_gets_one_trailing_backslash() {
    let base = script_pbo();
    let mut with_slash = script_pbo();
    with_slash.prefix = Some(b"x\\mod\\".to_vec());
    let mut without_slash = script_pbo();
    without_slash.prefix = Some(b"x\\mod".to_vec());
    let (_, h2_a, h3_a) = generate_hashes(&with_slash, BISignVersion::V3, 1024);
    let (_, h2_b, h3_b) = generate_hashes(&without_slash, BISignVersion::V3, 1024);
    assert_eq!(h2_a, h2_b);
    assert_eq!(h3_a, h3_b);
    let (_, h2_none, _) = generate_hashes(&base, BISignVersion::V3, 1024);
    assert_ne!(h2_a, h2_none);
    // the exact second digest: checksum, name hash, prefix bytes
    let namehash = openssl::sha::sha1(b"script.sqf");
    let mut input = Vec::new();
    input.extend_from_slice(&base.checksum);
    input.extend_from_slice(&namehash);
    input.extend_from_slice(b"x\\mod\\");
    let expected = openssl::sha::sha1(&input);
    assert_eq!(&h2_a[h2_a.len() - 20..], &expected);
}

#[test]
fn namehash_lowercases_and_skips_empty() {
    let mut upper = script_pbo();
    upper.files[0].filename = b"Script.SQF".to_vec();
    let lower = script_pbo();
    let (_, h2_u, _) = generate_hashes(&upper, BISignVersion::V3, 1024);
    let (_, h2_l, _) = generate_hashes(&lower, BISignVersion::V3, 1024);
    assert_eq!(h2_u, h2_l);

    let mut with_empty = script_pbo();
    with_empty.files.push(PboEntry {
        filename: b"empty.txt".to_vec(),
        data: Vec::new(),
    });
    let (_, h2_e, _) = generate_hashes(&with_empty, BISignVersion::V3, 1024);
    assert_eq!(h2_e, h2_l);
}

#[test]
fn namehash_uses_sorted_order() {
    let body = b"x".to_vec();
    let make = |order: &[&[u8]]| Pbo {
        checksum: vec![1u8; 20],
        files: order
            .iter()
            .map(|n| PboEntry {
                filename: n.to_vec(),
                data: body.clone(),
            })
            .collect(),
        prefix: None,
    };
    let a = make(&[b"a.sqf", b"b.sqf"]);
    let b = make(&[b"b.sqf", b"a.sqf"]);
    let (_, h2_a, _) = generate_hashes(&a, BISignVersion::V3, 1024);
    let (_, h2_b, _) = generate_hashes(&b, BISignVersion::V3, 1024);
    assert_eq!(h2_a, h2_b);
}

#[test]
fn signature_numbers_match_direct_rsa() {
    // the first signature integer is hash1 ^ d mod n, computed here
    // independently with the bignum library
    let (key, _) = keypair("testauth");
    let pbo = script_pbo();
    let (h1, _, _) = generate_hashes(&pbo, BISignVersion::V3, key.length);
    let sig = key.sign(&pbo, BISignVersion::V3);
    let bn_h1 = openssl::bn::BigNum::from_slice(&h1).unwrap();
    let bn_d = openssl::bn::BigNum::from_slice(&key.d).unwrap();
    let bn_n = openssl::bn::BigNum::from_slice(&key.n).unwrap();
    let mut ctx = openssl::bn::BigNumContext::new().unwrap();
    let mut expected = openssl::bn::BigNum::new().unwrap();
    expected.mod_exp(&bn_h1, &bn_d, &bn_n, &mut ctx).unwrap();
    assert_eq!(sig.sig1, expected.to_vec());
}

#[test]
fn verify_rejects_wrong_key() {
    let (key, _) = keypair("testauth");
    let (_, mut public_b) = keypair("testauth");
    let pbo = script_pbo();
    let sig = key.sign(&pbo, BISignVersion::V3);
    public_b.name = String::from("testauth");
    assert!(matches!(
        public_b.verify(&pbo, &sig),
        Err(BISignError::HashMismatch { .. })
    ));
}
