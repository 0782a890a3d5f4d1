use aes::cipher::{BlockEncrypt, KeyInit};
use engine::mega::crypto::{
    aes_ecb_decrypt, b64decode, b64encode, decrypt_attributes, unpack_file_key,
};
use engine::Error;

#[test]
fn base64_roundtrip() {
    let data = b"\x00\x01\x02\xff\xfe mega";
    let encoded = b64encode(data);
    assert!(!encoded.contains('='), "MEGA base64 is unpadded");
    assert_eq!(b64decode(&encoded).unwrap(), data);
}

#[test]
fn base64_known_text() {
    assert_eq!(b64encode(b"\xfb\xff"), "-_8");
    assert_eq!(b64decode("  -_8\n").unwrap(), vec![0xfb, 0xff]);
}

#[test]
fn base64_rejects_padding() {
    match b64decode("AA==") {
        Err(Error::Other(m)) => assert!(m.starts_with("base64 decode: ")),
        other => panic!("unexpected {other:?}"),
    }
}

#[test]
fn aes_ecb_matches_fips197_vector() {
    // FIPS-197 AES-128 known-answer test.
    let key: [u8; 16] = [
        0x00, 0x01, 0x02, 0x03, 0x04, 0x05, 0x06, 0x07, 0x08, 0x09, 0x0a, 0x0b, 0x0c, 0x0d,
        0x0e, 0x0f,
    ];
    let ciphertext: [u8; 16] = [
        0x69, 0xc4, 0xe0, 0xd8, 0x6a, 0x7b, 0x04, 0x30, 0xd8, 0xcd, 0xb7, 0x80, 0x70, 0xb4,
        0xc5, 0x5a,
    ];
    let expected: [u8; 16] = [
        0x00, 0x11, 0x22, 0x33, 0x44, 0x55, 0x66, 0x77, 0x88, 0x99, 0xaa, 0xbb, 0xcc, 0xdd,
        0xee, 0xff,
    ];
    assert_eq!(aes_ecb_decrypt(&key, &ciphertext), expected);
}

#[test]
fn aes_ecb_decrypts_each_block() {
    let key: [u8; 16] = [
        0x00, 0x01, 0x02, 0x03, 0x04, 0x05, 0x06, 0x07, 0x08, 0x09, 0x0a, 0x0b, 0x0c, 0x0d,
        0x0e, 0x0f,
    ];
    let block: [u8; 16] = [
        0x69, 0xc4, 0xe0, 0xd8, 0x6a, 0x7b, 0x04, 0x30, 0xd8, 0xcd, 0xb7, 0x80, 0x70, 0xb4,
        0xc5, 0x5a,
    ];
    let mut two = block.to_vec();
    two.extend_from_slice(&block);
    let out = aes_ecb_decrypt(&key, &two);
    assert_eq!(out.len(), 32);
    assert_eq!(out[..16], out[16..]);
    assert_eq!(out[0], 0x00);
    assert_eq!(out[15], 0xff);
}

#[test]
fn unpack_file_key_xors_halves() {
    let mut k = [0u8; 32];
    k[0] = 0xaa;
    k[16] = 0x0f;
    k[31] = 0x77;
    let unpacked = unpack_file_key(&k);
    assert_eq!(unpacked[0], 0xaa ^ 0x0f);
    assert_eq!(unpacked[15], 0x77);
}

fn cbc_encrypt(key: &[u8; 16], plain: &[u8]) -> Vec<u8> {
    let cipher = aes::Aes128::new(key.into());
    let mut prev = [0u8; 16];
    let mut out = Vec::new();
    for chunk in plain.chunks(16) {
        let mut block = [0u8; 16];
        for i in 0..16 {
            block[i] = chunk[i] ^ prev[i];
        }
        let mut ga = aes::cipher::generic_array::GenericArray::clone_from_slice(&block);
        cipher.encrypt_block(&mut ga);
        prev.copy_from_slice(&ga);
        out.extend_from_slice(&ga);
    }
    out
}

#[test]
fn decrypts_attribute_blob() {
    let key = [7u8; 16];
    let mut plain = b"MEGA{\"n\":\"movie.mp4\"}".to_vec();
    while plain.len() % 16 != 0 {
        plain.push(0);
    }
    let blob = b64encode(&cbc_encrypt(&key, &plain));
    assert_eq!(
        decrypt_attributes(&key, &blob).unwrap(),
        "{\"n\":\"movie.mp4\"}"
    );
}

#[test]
fn attribute_blob_must_be_block_aligned() {
    let key = [7u8; 16];
    let blob = b64encode(&[1u8; 15]);
    assert_eq!(
        decrypt_attributes(&key, &blob),
        Err(Error::Other("attribute blob not block-aligned".into()))
    );
    assert_eq!(
        decrypt_attributes(&key, ""),
        Err(Error::Other("attribute blob not block-aligned".into()))
    );
}

#[test]
fn base64_error_carries_the_engine_message() {
    let expected = Err(Error::Other("base64 decode: Invalid symbol 33, offset 2.".into()));
    assert_eq!(b64decode("ab!c"), expected);
    assert_eq!(b64decode(" ab!c\n"), expected);
}

#[test]
fn attribute_text_stops_at_nul_and_replaces_invalid_bytes() {
    let key = [9u8; 16];
    let mut plain = b"MEGA".to_vec();
    plain.extend_from_slice(&[0xff, b'a']);
    while plain.len() % 16 != 0 {
        plain.push(0);
    }
    let text = decrypt_attributes(&key, &b64encode(&cbc_encrypt(&key, &plain))).unwrap();
    assert_eq!(text, "\u{FFFD}a");
    assert!(!text.contains('\0'));

    let mut bare = b"xyz".to_vec();
    bare.resize(32, 0);
    bare[20] = b'q';
    let text = decrypt_attributes(&key, &b64encode(&cbc_encrypt(&key, &bare))).unwrap();
    assert_eq!(text, "xyz");
}

#[test]
fn base64_refuses_spare_bits_in_last_symbol() {
    assert_eq!(
        b64decode("-_9"),
        Err(Error::Other("base64 decode: Invalid last symbol 57, offset 2.".into()))
    );
    assert_eq!(b64decode("-_8").unwrap(), vec![0xfb, 0xff]);
}

#[test]
fn aes_ecb_decrypts_concatenation_blockwise() {
    let key = [0x2bu8; 16];
    let a: Vec<u8> = (0u8..32).collect();
    let b: Vec<u8> = (100u8..116).collect();
    let mut ab = a.clone();
    ab.extend_from_slice(&b);
    let mut expected = aes_ecb_decrypt(&key, &a);
    expected.extend_from_slice(&aes_ecb_decrypt(&key, &b));
    assert_eq!(aes_ecb_decrypt(&key, &ab), expected);
    assert_eq!(aes_ecb_decrypt(&key, &a).len(), a.len());
}
