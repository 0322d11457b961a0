use pals::{BytesCryptoExt, EbcBreaking, EcbOracle, Mode};
use rand::Rng;

fn oracle_with_prefix_and_suffix(prefix: Vec<u8>, suffix: Vec<u8>) -> EcbOracle {
    let key = Vec::<u8>::generate_random(16);
    EcbOracle::new(key, prefix, suffix)
}

fn oracle_with_prefix(prefix: Vec<u8>) -> EcbOracle {
    oracle_with_prefix_and_suffix(prefix, vec![])
}

#[test]
fn detect_block_size_no_additional_data() {
    let ebc = EbcBreaking::new(oracle_with_prefix(vec![])).unwrap();
    assert_eq!(ebc.block_size, 16);
    assert_eq!(ebc.fixed_parts_size, 0);
}

#[test]
fn detect_block_size_random_prefix() {
    let mut rng = rand::thread_rng();
    for _i in 0..10 {
        let prefix_size = rng.gen_range(100, 1000);
        let ebc = EbcBreaking::new(oracle_with_prefix(vec![42; prefix_size])).unwrap();
        assert_eq!(ebc.block_size, 16);
        assert_eq!(ebc.fixed_parts_size, prefix_size);
    }
}

#[test]
fn detect_block_size_random_prefix_and_suffix() {
    let mut rng = rand::thread_rng();
    for _i in 0..10 {
        let prefix_size = rng.gen_range(100, 1000);
        let suffix_size = rng.gen_range(100, 1000);
        let ebc = EbcBreaking::new(oracle_with_prefix_and_suffix(
            vec![42; prefix_size],
            vec![28; suffix_size],
        ))
        .unwrap();
        assert_eq!(ebc.block_size, 16);
        assert_eq!(ebc.fixed_parts_size, prefix_size + suffix_size);
    }
}

#[test]
fn check_mode_detect_no_prefix() {
    let ebc = EbcBreaking::new(oracle_with_prefix(vec![])).unwrap();

    assert_eq!(ebc.detect_mode(), Mode::Ebc { prefix_blocks: 0 });
    assert_eq!(ebc.detect_prefix_padding_size().unwrap(), 0);
}

#[test]
fn check_mode_detect_minimal_prefix() {
    let ebc = EbcBreaking::new(oracle_with_prefix(vec![1])).unwrap();

    assert_eq!(ebc.detect_mode(), Mode::Ebc { prefix_blocks: 1 });
    assert_eq!(ebc.detect_prefix_padding_size().unwrap(), 15);
}

#[test]
fn check_mode_detect_whole_block_prefix() {
    let ebc = EbcBreaking::new(oracle_with_prefix(vec![1; 16])).unwrap();

    assert_eq!(ebc.detect_mode(), Mode::Ebc { prefix_blocks: 1 });
    assert_eq!(ebc.detect_prefix_padding_size().unwrap(), 0);
}

#[test]
fn check_mode_detect_several_blocks_prefix() {
    let ebc = EbcBreaking::new(oracle_with_prefix(vec![1; 48])).unwrap();

    assert_eq!(ebc.detect_mode(), Mode::Ebc { prefix_blocks: 3 });
    assert_eq!(ebc.detect_prefix_padding_size().unwrap(), 0);
}

#[test]
fn check_mode_detect_uneven_blocks_prefix() {
    for i in 49..=64 {
        let ebc = EbcBreaking::new(oracle_with_prefix(vec![1; i])).unwrap();

        assert_eq!(ebc.detect_mode(), Mode::Ebc { prefix_blocks: 4 });
        assert_eq!(ebc.detect_prefix_padding_size().unwrap(), 64 - i);
    }

    let ebc = EbcBreaking::new(oracle_with_prefix(vec![1; 65])).unwrap();

    assert_eq!(ebc.detect_mode(), Mode::Ebc { prefix_blocks: 5 });
    assert_eq!(ebc.detect_prefix_padding_size().unwrap(), 15);
}

#[test]
fn check_prefix_size_invariants() {
    let mut rng = rand::thread_rng();
    for _i in 0..30 {
        let prefix_size = rng.gen_range(100, 160);

        let ebc = EbcBreaking::new(oracle_with_prefix(vec![255; prefix_size])).unwrap();

        let (prefix_blocks, prefix_padding_size) = ebc.get_prefix_components().unwrap();

        assert_eq!(
            prefix_padding_size + prefix_size,
            prefix_blocks * ebc.block_size
        );
        assert_eq!(ebc.get_prefix_exact_size().unwrap(), prefix_size)
    }
}
