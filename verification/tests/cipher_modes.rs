use pals::{aes_cypher, entry_for, get_entry, parse_entry, BytesCryptoExt};

#[test]
fn aes_ecb_matches_the_published_vector() {
    // FIPS-197 appendix C.1: AES-128 single-block example
    let key: Vec<u8> = (0x00..=0x0f).collect();
    let plain: Vec<u8> = vec![
        0x00, 0x11, 0x22, 0x33, 0x44, 0x55, 0x66, 0x77, 0x88, 0x99, 0xaa, 0xbb, 0xcc, 0xdd, 0xee,
        0xff,
    ];
    let blocks = aes_cypher::encrypt(&plain, &key);
    assert_eq!(
        blocks[0],
        vec![
            0x69, 0xc4, 0xe0, 0xd8, 0x6a, 0x7b, 0x04, 0x30, 0xd8, 0xcd, 0xb7, 0x80, 0x70, 0xb4,
            0xc5, 0x5a,
        ]
    );

    let decrypted: Vec<u8> = aes_cypher::decrypt(&blocks.concat(), &key).concat();
    let mut unpadded = decrypted;
    unpadded.unpad_pkcs7(16);
    assert_eq!(unpadded, plain);
}

#[test]
fn cbc_roundtrip_restores_plaintext() {
    let key = Vec::<u8>::generate_random(16);
    let iv = Vec::<u8>::generate_random(16);
    let plain: Vec<u8> = (0..45).map(|i| (i * 3 + 1) as u8).collect();

    let enc = aes_cypher::encrypt_cbc(&plain, &key, &iv).concat();
    assert_ne!(enc[..plain.len()], plain[..]);

    let mut dec: Vec<u8> = aes_cypher::decrypt_cbc(&enc, &key, &iv).concat();
    dec.unpad_pkcs7(16);
    assert_eq!(dec, plain);
}

#[test]
fn cbc_repeated_plaintext_blocks_differ_in_ciphertext() {
    let key = Vec::<u8>::generate_random(16);
    let iv = Vec::<u8>::generate_random(16);
    let plain = vec![7u8; 64];
    let blocks = aes_cypher::encrypt_cbc(&plain, &key, &iv);
    assert_ne!(blocks[0], blocks[1]);
    assert_ne!(blocks[1], blocks[2]);
}

#[test]
fn entry_strips_metacharacters_and_frames_data() {
    assert_eq!(
        get_entry("XXXXX;admin=true"),
        "comment1=cooking%20MCs;userdata=XXXXXadmintrue;comment2=%20like%20a%20pound%20of%20bacon"
    );
}

#[test]
fn parse_entry_tolerates_missing_values() {
    let pairs = parse_entry("comment1=cooking%20MCs;userdata=;admin;x=1");
    assert_eq!(
        pairs,
        vec![
            ("comment1".to_string(), "cooking%20MCs".to_string()),
            ("userdata".to_string(), "".to_string()),
            ("admin".to_string(), "".to_string()),
            ("x".to_string(), "1".to_string()),
        ]
    );
}

#[test]
fn entry_for_roundtrips_through_cbc() {
    let key = Vec::<u8>::generate_random(16);
    let iv = Vec::<u8>::generate_random(16);
    let enc = entry_for("hello world", &key, &iv).concat();
    let mut dec: Vec<u8> = aes_cypher::decrypt_cbc(&enc, &key, &iv).concat();
    dec.unpad_pkcs7(16);
    assert_eq!(
        String::from_utf8(dec).unwrap(),
        "comment1=cooking%20MCs;userdata=hello world;comment2=%20like%20a%20pound%20of%20bacon"
    );
}

#[test]
fn try_decrypt_spots_repeated_ecb_blocks() {
    let key = Vec::<u8>::generate_random(16);
    let plain = vec![9u8; 48];

    let ecb: Vec<u8> = aes_cypher::encrypt(&plain, &key).concat();
    assert_eq!(pals::try_decrypt(&ecb, &key), Some(true));

    let iv = Vec::<u8>::generate_random(16);
    let cbc: Vec<u8> = aes_cypher::encrypt_cbc(&plain, &key, &iv).concat();
    assert_eq!(pals::try_decrypt(&cbc, &key), None);
}

#[test]
fn key_size_scoring_prefers_periods_of_the_data() {
    // a buffer with period four: every key size that is a multiple of
    // four scores a perfect zero, and ties break towards smaller sizes
    let pat = [1u8, 2, 3, 4];
    let data: Vec<u8> = (0..200usize).map(|i| pat[i % 4]).collect();
    assert_eq!(pals::determine_key_size(&data), vec![4, 8, 12, 16]);
    assert_eq!(pals::key_size_distance(&data, 4), 0);
    assert!(pals::key_size_distance(&data, 3) > 0);
}
