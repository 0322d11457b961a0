use pals::{hamming, HexDisplay, StrCryptoExt, StreamCipher};

#[test]
fn sanity() {
    let a = "this is a test";
    let b = "wokka wokka!!!";

    assert_eq!(hamming(a.as_bytes(), b.as_bytes()), 37);
}

#[test]
fn parse_hex_reads_pairs_of_digits() {
    assert_eq!("49276d".parse_hex(), vec![0x49, 0x27, 0x6d]);
    assert_eq!("4a2B".parse_hex(), vec![0x4a, 0x2b]);
    // other characters are skipped, a lone trailing digit is dropped
    assert_eq!("4 9:2!7f0".parse_hex(), vec![0x49, 0x27, 0xf0]);
    assert_eq!("4927f".parse_hex(), vec![0x49, 0x27]);
    assert_eq!("".parse_hex(), Vec::<u8>::new());
}

#[test]
fn hex_to_base64_classic() {
    let hex = "49276d206b696c6c696e6720796f757220627261696e206c696b65206120706f69736f6e6f7573206d757368726f6f6d";
    let raw = hex.parse_hex();
    let encoded = base64::encode(&raw);
    assert!(encoded.starts_with("SSdt"));
    assert!(encoded.ends_with("2hyb29t"));
}

#[test]
fn fixed_xor_of_hex_buffers() {
    let raw1 = "1c0111001f010100061a024b53535009181c".parse_hex();
    let raw2 = "686974207468652062756c6c277320657965".parse_hex();

    let data = raw1.as_slice().xor(&raw2);
    let hex = data.as_slice().as_hex();
    assert!(hex.starts_with("7468"));
    assert!(hex.ends_with("c6179"));
}

#[test]
fn repeating_key_xor_classic() {
    let plain = "Burning 'em, if you ain't quick and nimble\nI go crazy when I hear a cymbal";
    let ciphered = plain.xor(b"ICE");
    let hex = ciphered.as_slice().as_hex();
    assert!(hex.starts_with("b3637272"));
    assert!(hex.trim_end().ends_with("2e27282f"));
}

#[test]
fn xor_with_empty_key_gives_empty_output() {
    let data = vec![1u8, 2, 3];
    assert_eq!(data.as_slice().xor(&[]), Vec::<u8>::new());
    assert_eq!(data.as_slice().xor_ref(&[]), Vec::<u8>::new());
}

#[test]
fn as_hex_drops_leading_zeros() {
    let v: Vec<u8> = vec![0x01, 0x23, 0x00, 0xff];
    assert_eq!(v.as_slice().as_hex(), "123" .to_string() + "0ff");
}

#[test]
fn printable_ascii_accepts_whitespace_only() {
    assert!("hello world\n\tnice".is_printable_ascii());
    assert!(!"bell\u{07}".is_printable_ascii());
}
