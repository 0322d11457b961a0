use pals::{recover_suffix, AttackError, BytesCryptoExt, CbcOracle, EbcBreaking, EcbOracle, Mode};

const LYRIC_BASE64: &str = "Um9sbGluJyBpbiBteSA1LjAKV2l0aCBteSByYWctdG9wIGRvd24gc28gbXkg\
aGFpciBjYW4gYmxvdwpUaGUgZ2lybGllcyBvbiBzdGFuZGJ5IHdhdmluZyBq\
dXN0IHRvIHNheSBoaQpEaWQgeW91IHN0b3A/IE5vLCBJIGp1c3QgZHJvdmUg\
YnkK";

fn lyric_bytes() -> Vec<u8> {
    base64::decode(LYRIC_BASE64).unwrap()
}

// A deterministic byte pattern avoiding the engine's filler byte.
fn pattern(len: usize, seed: u8) -> Vec<u8> {
    (0..len)
        .map(|i| {
            let b = (i as u8).wrapping_mul(31).wrapping_add(seed);
            if b == b'A' {
                b.wrapping_add(1)
            } else {
                b
            }
        })
        .collect()
}

fn recover(prefix: Vec<u8>, suffix: Vec<u8>) -> Vec<u8> {
    let key = Vec::<u8>::generate_random(16);
    recover_suffix(EcbOracle::new(key, prefix, suffix)).unwrap()
}

#[test]
fn recovers_empty_and_single_byte_suffixes() {
    for prefix_len in [0usize, 1, 15, 16, 17, 31, 47] {
        assert_eq!(recover(pattern(prefix_len, 3), vec![]), Vec::<u8>::new());
        assert_eq!(recover(pattern(prefix_len, 5), vec![0x42]), vec![0x42]);
    }
}

#[test]
fn recovers_suffixes_around_one_block() {
    for prefix_len in [0usize, 1, 15, 16, 17, 31, 47] {
        for suffix_len in [15usize, 16, 17] {
            let suffix = pattern(suffix_len, 9);
            assert_eq!(recover(pattern(prefix_len, 7), suffix.clone()), suffix);
        }
    }
}

#[test]
fn recovers_long_suffix() {
    for prefix_len in [0usize, 16, 37] {
        let suffix = pattern(130, 11);
        assert_eq!(recover(pattern(prefix_len, 13), suffix.clone()), suffix);
    }
}

#[test]
fn recovers_suffix_byte_255() {
    // a secret byte equal to 255 must be recoverable too
    let suffix = vec![255u8, 0, 255];
    assert_eq!(recover(vec![], suffix.clone()), suffix);
}

#[test]
fn cbc_oracle_is_classified_cbc() {
    let key = Vec::<u8>::generate_random(16);
    let iv = Vec::<u8>::generate_random(16);
    let oracle = CbcOracle::new(key, iv, pattern(13, 3), pattern(40, 5));
    let engine = EbcBreaking::new(oracle).unwrap();
    assert_eq!(engine.detect_mode(), Mode::Cbc);
}

#[test]
fn cbc_oracle_makes_the_attack_refuse() {
    let key = Vec::<u8>::generate_random(16);
    let iv = Vec::<u8>::generate_random(16);
    let oracle = CbcOracle::new(key, iv, vec![], pattern(25, 7));
    assert_eq!(recover_suffix(oracle), Err(AttackError::NotEcbMode));
}

#[test]
fn detect_byte_finds_nothing_for_a_foreign_block() {
    let key = Vec::<u8>::generate_random(16);
    let engine = EbcBreaking::new(EcbOracle::new(key, vec![], pattern(16, 3))).unwrap();
    let never_matching = vec![0u8; 16];
    let filler = vec![b'A'; 15];
    assert_eq!(engine.detect_byte(&filler, 0, &never_matching), None);
}

#[test]
fn end_to_end_recovers_lyric_without_prefix() {
    let key = Vec::<u8>::generate_random(16);
    let suffix = lyric_bytes();
    let engine = EbcBreaking::new(EcbOracle::new(key, vec![], suffix.clone())).unwrap();
    assert_eq!(engine.block_size, 16);
    assert_eq!(engine.detect_mode(), Mode::Ebc { prefix_blocks: 0 });
    let recovered = engine.detect_suffix().unwrap();
    assert_eq!(recovered, suffix);
    let text = String::from_utf8(recovered).unwrap();
    assert!(text.starts_with("Rollin' in my 5.0"));
    assert!(text.trim_end().ends_with("Did you stop? No, I just drove by"));
}

#[test]
fn end_to_end_recovers_lyric_behind_random_prefix() {
    let key = Vec::<u8>::generate_random(16);
    // a prefix ending in the engine's own filler byte can fool the
    // alignment probe, so keep that byte out of the random prefix
    let prefix: Vec<u8> = Vec::<u8>::generate_random(137)
        .into_iter()
        .map(|b| if b == b'A' { b'B' } else { b })
        .collect();
    let suffix = lyric_bytes();
    let recovered = recover_suffix(EcbOracle::new(key, prefix, suffix.clone())).unwrap();
    assert_eq!(recovered, suffix);
    let text = String::from_utf8(recovered).unwrap();
    assert!(text.starts_with("Rollin' in my 5.0"));
    assert!(text.trim_end().ends_with("Did you stop? No, I just drove by"));
}
