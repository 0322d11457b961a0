pub mod aes_cypher;
pub mod attack;
pub mod cookie;
pub mod entry;
pub mod hex;
pub mod keysize;
pub mod laws;
pub mod oracle;
pub mod pad;
pub mod xor;

pub use aes_cypher::try_decrypt;
pub use attack::{detect_block_size, recover_suffix, AttackError, EbcBreaking, Mode, Oracle};
pub use cookie::{fmt_pairs, get_profile, parse_cookie, profile_for, Profile};
pub use entry::{entry_for, get_entry, parse_entry};
pub use hex::{HexDisplay, StrCryptoExt};
pub use keysize::{determine_key_size, key_size_distance};
pub use oracle::{CbcOracle, EcbOracle};
pub use pad::BytesCryptoExt;
pub use xor::{hamming, StreamCipher};
