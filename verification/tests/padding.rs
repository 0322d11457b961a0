use pals::{BytesCryptoExt, StrCryptoExt};

#[test]
fn pad_empty() {
    let mut v = Vec::<u8>::new();
    v.pad_pkcs7(5);

    assert_eq!(v, vec![5; 5]);
}

#[test]
fn pad_to_block() {
    let mut v = vec![5_u8, 32, 16, 0, 4];
    v.pad_pkcs7(6);

    assert_eq!(v, vec![5, 32, 16, 0, 4, 1]);
}

#[test]
fn padding_is_mandatory() {
    let mut v = vec![5_u8, 32, 16, 0, 4, 1];
    v.pad_pkcs7(6);

    assert_eq!(v, vec![5, 32, 16, 0, 4, 1, 6, 6, 6, 6, 6, 6]);
}

#[test]
fn empty_string_has_no_padding() {
    let v: Vec<u8> = vec![];
    for block_size in 0..=16 {
        assert_eq!(v.pkcs7_padding_size(block_size), None);
    }
}

#[test]
fn no_valid_padding_for_zero_block_size() {
    for byte in 0..=16 {
        let v = vec![byte];
        assert_eq!(v.pkcs7_padding_size(0), None);
    }
}

#[test]
fn the_only_valid_padding_for_stream() {
    let v = vec![1];
    assert_eq!(v.pkcs7_padding_size(1), Some(1));

    for byte in 2..=16 {
        let v = vec![byte];
        assert_eq!(v.pkcs7_padding_size(1), None);
    }
}

#[test]
fn not_enough_bytes_padding() {
    let s = "ICE ICE BABY\u{05}\u{05}\u{05}\u{05}";
    assert_eq!(s.strip_pkcs7_padding(8), None);
}

#[test]
fn bad_bytes_padding() {
    let s = "ICE ICE BABY\u{01}\u{02}\u{03}\u{04}";
    assert_eq!(s.strip_pkcs7_padding(16), None);
}

#[test]
fn good_padding() {
    let s = "ICE ICE BABY\u{05}\u{05}\u{05}\u{05}\u{05}";
    assert_eq!(s.strip_pkcs7_padding(8).unwrap(), "ICE ICE BABY");
}

#[test]
fn pad_then_unpad_returns_original() {
    for block_size in [2u8, 3, 5, 8, 16, 32] {
        for len in 0..(4 * block_size as usize) {
            let data: Vec<u8> = (0..len).map(|i| (i * 7 + 3) as u8).collect();
            let mut padded = data.clone();
            padded.pad_pkcs7(block_size);
            assert_eq!(padded.len() % block_size as usize, 0);
            assert!(padded.len() > data.len());
            padded.unpad_pkcs7(block_size);
            assert_eq!(padded, data);
        }
    }
}
