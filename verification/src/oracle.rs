use vstd::prelude::*;

use crate::aes_cypher::{cbc_enc_blocks, concat_blocks, concat_bytes, ecb_blocks, encrypt, encrypt_cbc, views_of};
use crate::attack::Oracle;
use crate::pad::pad7;

verus! {

/// An ECB encryption oracle with a hidden prefix and a hidden suffix:
/// it enciphers `prefix ++ input ++ suffix`, PKCS#7-padded, under a key
/// fixed for its lifetime.
pub struct EcbOracle {
    key: Vec<u8>,
    prefix: Vec<u8>,
    suffix: Vec<u8>,
}

impl EcbOracle {
    #[verifier::type_invariant]
    spec fn key_fits(self) -> bool {
        self.key@.len() == 16
    }

    /// The oracle's hidden key.
    pub closed spec fn key_view(&self) -> Seq<u8> {
        self.key@
    }

    /// The oracle's hidden prefix.
    pub closed spec fn prefix_view(&self) -> Seq<u8> {
        self.prefix@
    }

    /// The oracle's hidden suffix.
    pub closed spec fn suffix_view(&self) -> Seq<u8> {
        self.suffix@
    }

    /// An oracle owning the given 16-byte key, prefix and suffix.
    pub fn new(key: Vec<u8>, prefix: Vec<u8>, suffix: Vec<u8>) -> (r: Self)
        requires
            key@.len() == 16,
        ensures
            r.key_view() == key@,
            r.prefix_view() == prefix@,
            r.suffix_view() == suffix@,
    {
        EcbOracle { key, prefix, suffix }
    }
}

impl Oracle for EcbOracle {
    open spec fn response(&self, data: Seq<u8>) -> Seq<u8> {
        concat_blocks(
            ecb_blocks(self.key_view(), pad7(self.prefix_view() + data + self.suffix_view(), 16)),
        )
    }

    fn encrypt(&self, data: &[u8]) -> (r: Vec<u8>) {
        proof {
            use_type_invariant(self);
        }
        let mut input: Vec<u8> = Vec::new();
        input.extend_from_slice(self.prefix.as_slice());
        input.extend_from_slice(data);
        input.extend_from_slice(self.suffix.as_slice());
        proof {
            assert(input@ =~= self.prefix@ + data@ + self.suffix@);
        }
        let blocks = encrypt(input.as_slice(), self.key.as_slice());
        concat_bytes(&blocks)
    }
}

/// A CBC encryption oracle with the same hidden layout as `EcbOracle`:
/// it enciphers `prefix ++ input ++ suffix`, PKCS#7-padded, in CBC mode
/// under a key and IV fixed for its lifetime.
pub struct CbcOracle {
    key: Vec<u8>,
    iv: Vec<u8>,
    prefix: Vec<u8>,
    suffix: Vec<u8>,
}

impl CbcOracle {
    #[verifier::type_invariant]
    spec fn key_fits(self) -> bool {
        self.key@.len() == 16 && self.iv@.len() == 16
    }

    /// The oracle's hidden key.
    pub closed spec fn key_view(&self) -> Seq<u8> {
        self.key@
    }

    /// The oracle's initialisation vector.
    pub closed spec fn iv_view(&self) -> Seq<u8> {
        self.iv@
    }

    /// The oracle's hidden prefix.
    pub closed spec fn prefix_view(&self) -> Seq<u8> {
        self.prefix@
    }

    /// The oracle's hidden suffix.
    pub closed spec fn suffix_view(&self) -> Seq<u8> {
        self.suffix@
    }

    /// An oracle owning the given 16-byte key and IV, prefix and suffix.
    pub fn new(key: Vec<u8>, iv: Vec<u8>, prefix: Vec<u8>, suffix: Vec<u8>) -> (r: Self)
        requires
            key@.len() == 16,
            iv@.len() == 16,
        ensures
            r.key_view() == key@,
            r.iv_view() == iv@,
            r.prefix_view() == prefix@,
            r.suffix_view() == suffix@,
    {
        CbcOracle { key, iv, prefix, suffix }
    }
}

impl Oracle for CbcOracle {
    open spec fn response(&self, data: Seq<u8>) -> Seq<u8> {
        concat_blocks(
            cbc_enc_blocks(
                self.key_view(),
                self.iv_view(),
                pad7(self.prefix_view() + data + self.suffix_view(), 16),
            ),
        )
    }

    fn encrypt(&self, data: &[u8]) -> (r: Vec<u8>) {
        proof {
            use_type_invariant(self);
        }
        let mut input: Vec<u8> = Vec::new();
        input.extend_from_slice(self.prefix.as_slice());
        input.extend_from_slice(data);
        input.extend_from_slice(self.suffix.as_slice());
        proof {
            assert(input@ =~= self.prefix@ + data@ + self.suffix@);
        }
        let blocks = encrypt_cbc(input.as_slice(), self.key.as_slice(), self.iv.as_slice());
        concat_bytes(&blocks)
    }
}

} // verus!
