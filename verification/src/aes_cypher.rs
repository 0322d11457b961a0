use vstd::prelude::*;

use aes::cipher::generic_array::GenericArray;
use aes::{Aes128, BlockDecrypt, BlockEncrypt, NewBlockCipher};

use crate::pad::{pad7, BytesCryptoExt};
use crate::xor::StreamCipher;

verus! {

use vstd::slice::slice_subrange;

/// What the AES-128 primitive returns when enciphering one block under a
/// key; a fixed function of the key and the block.
pub uninterp spec fn cipher_block(key: Seq<u8>, block: Seq<u8>) -> Seq<u8>;

/// What the AES-128 primitive returns when deciphering one block under a
/// key; a fixed function of the key and the block.
pub uninterp spec fn plain_block(key: Seq<u8>, block: Seq<u8>) -> Seq<u8>;

/// Relies on aes::Aes128 (NewBlockCipher::new, then BlockEncrypt::encrypt_block):
/// enciphers one 16-byte block under a 16-byte key; the result is 16 bytes and
/// depends on the key and the block alone.
#[verifier::external_body]
fn encrypt_one_block(key: &[u8], block: &[u8]) -> (r: Vec<u8>)
    requires
        key@.len() == 16,
        block@.len() == 16,
    ensures
        r@ == cipher_block(key@, block@),
        r@.len() == 16,
{
    let cipher = Aes128::new(GenericArray::from_slice(key));
    let mut b = GenericArray::clone_from_slice(block);
    cipher.encrypt_block(&mut b);
    b.to_vec()
}

/// Relies on aes::Aes128 (NewBlockCipher::new, then BlockDecrypt::decrypt_block):
/// deciphers one 16-byte block under a 16-byte key; the result is 16 bytes,
/// depends on the key and the block alone, and enciphering it again under the
/// same key gives the block back.
#[verifier::external_body]
fn decrypt_one_block(key: &[u8], block: &[u8]) -> (r: Vec<u8>)
    requires
        key@.len() == 16,
        block@.len() == 16,
    ensures
        r@ == plain_block(key@, block@),
        r@.len() == 16,
        cipher_block(key@, r@) == block@,
{
    let cipher = Aes128::new(GenericArray::from_slice(key));
    let mut b = GenericArray::clone_from_slice(block);
    cipher.decrypt_block(&mut b);
    b.to_vec()
}

/// Each 16-byte block of `data` enciphered independently; `data` is
/// assumed already padded to whole blocks.
pub open spec fn ecb_blocks(key: Seq<u8>, data: Seq<u8>) -> Seq<Seq<u8>> {
    Seq::new((data.len() / 16) as nat, |i: int| cipher_block(key, data.subrange(16 * i, 16 * i + 16)))
}

/// Each 16-byte block of `data` deciphered independently.
pub open spec fn ecb_dec_blocks(key: Seq<u8>, data: Seq<u8>) -> Seq<Seq<u8>> {
    Seq::new((data.len() / 16) as nat, |i: int| plain_block(key, data.subrange(16 * i, 16 * i + 16)))
}

/// Two 16-byte blocks combined bytewise.
pub open spec fn xor_block(a: Seq<u8>, b: Seq<u8>) -> Seq<u8> {
    Seq::new(16, |i: int| a[i] ^ b[i])
}

/// The first `n` ciphertext blocks of CBC encryption: each plaintext
/// block is mixed with the previous ciphertext block (the IV for the
/// first) before being enciphered.
pub open spec fn cbc_prefix(key: Seq<u8>, iv: Seq<u8>, data: Seq<u8>, n: int) -> Seq<Seq<u8>>
    decreases n,
{
    if n <= 0 {
        Seq::empty()
    } else {
        let earlier = cbc_prefix(key, iv, data, n - 1);
        let prev = if n == 1 {
            iv
        } else {
            earlier.last()
        };
        earlier.push(cipher_block(key, xor_block(data.subrange(16 * (n - 1), 16 * n), prev)))
    }
}

/// All CBC ciphertext blocks of `data`, assumed padded to whole blocks.
pub open spec fn cbc_enc_blocks(key: Seq<u8>, iv: Seq<u8>, data: Seq<u8>) -> Seq<Seq<u8>> {
    cbc_prefix(key, iv, data, data.len() as int / 16)
}

/// All CBC plaintext blocks of `data`: each block deciphered, then mixed
/// with the previous ciphertext block (the IV for the first).
pub open spec fn cbc_dec_blocks(key: Seq<u8>, iv: Seq<u8>, data: Seq<u8>) -> Seq<Seq<u8>> {
    Seq::new(
        (data.len() / 16) as nat,
        |i: int|
            xor_block(
                plain_block(key, data.subrange(16 * i, 16 * i + 16)),
                if i == 0 {
                    iv
                } else {
                    data.subrange(16 * (i - 1), 16 * i)
                },
            ),
    )
}

/// The blocks of `bs` laid end to end.
pub open spec fn concat_blocks(bs: Seq<Seq<u8>>) -> Seq<u8>
    decreases bs.len(),
{
    if bs.len() == 0 {
        Seq::empty()
    } else {
        concat_blocks(bs.drop_last()) + bs.last()
    }
}

/// The views of a vector of byte vectors.
pub open spec fn views_of(v: Seq<Vec<u8>>) -> Seq<Seq<u8>> {
    v.map_values(|b: Vec<u8>| b@)
}

/// PKCS#7-pad `data` to 16-byte blocks, then encipher each block
/// independently under `key`.
pub fn encrypt(data: &[u8], key: &[u8]) -> (r: Vec<Vec<u8>>)
    requires
        key@.len() == 16,
    ensures
        views_of(r@) == ecb_blocks(key@, pad7(data@, 16)),
{
    let mut padded = vstd::slice::slice_to_vec(data);
    padded.pad_pkcs7(16);
    let ghost pdata = padded@;
    let n = padded.len() / 16;
    proof {
        assert(pdata.len() % 16 == 0);
    }
    let mut out: Vec<Vec<u8>> = Vec::new();
    let mut i: usize = 0;
    while i < n
        invariant
            i <= n,
            n == pdata.len() / 16,
            16 * n <= pdata.len(),
            pdata.len() <= usize::MAX,
            pdata.len() % 16 == 0,
            padded@ == pdata,
            key@.len() == 16,
            out@.len() == i,
            forall|j: int| 0 <= j < i ==> (#[trigger] out@[j])@ == ecb_blocks(key@, pdata)[j],
        decreases n - i,
    {
        let block = slice_subrange(padded.as_slice(), 16 * i, 16 * i + 16);
        let enc = encrypt_one_block(key, block);
        out.push(enc);
        i = i + 1;
    }
    proof {
        assert(views_of(out@) =~= ecb_blocks(key@, pdata));
    }
    out
}

/// Decipher each 16-byte block of `data` independently under `key`.
pub fn decrypt(data: &[u8], key: &[u8]) -> (r: Vec<Vec<u8>>)
    requires
        key@.len() == 16,
        data@.len() % 16 == 0,
    ensures
        views_of(r@) == ecb_dec_blocks(key@, data@),
{
    let n = data.len() / 16;
    let mut out: Vec<Vec<u8>> = Vec::new();
    let mut i: usize = 0;
    while i < n
        invariant
            i <= n,
            n == data@.len() / 16,
            16 * n <= data@.len(),
            data@.len() <= usize::MAX,
            data@.len() % 16 == 0,
            key@.len() == 16,
            out@.len() == i,
            forall|j: int| 0 <= j < i ==> (#[trigger] out@[j])@ == ecb_dec_blocks(key@, data@)[j],
        decreases n - i,
    {
        let block = slice_subrange(data, 16 * i, 16 * i + 16);
        let dec = decrypt_one_block(key, block);
        out.push(dec);
        i = i + 1;
    }
    proof {
        assert(views_of(out@) =~= ecb_dec_blocks(key@, data@));
    }
    out
}

/// PKCS#7-pad `data` to 16-byte blocks, then encipher in CBC mode: each
/// block mixed with the previous ciphertext block (the IV first) before
/// encryption.
pub fn encrypt_cbc(data: &[u8], key: &[u8], iv: &[u8]) -> (r: Vec<Vec<u8>>)
    requires
        key@.len() == 16,
        iv@.len() == 16,
    ensures
        views_of(r@) == cbc_enc_blocks(key@, iv@, pad7(data@, 16)),
{
    let mut padded = vstd::slice::slice_to_vec(data);
    padded.pad_pkcs7(16);
    let ghost pdata = padded@;
    let n = padded.len() / 16;
    proof {
        assert(pdata.len() % 16 == 0);
    }
    let mut prev: Vec<u8> = vstd::slice::slice_to_vec(iv);
    let mut out: Vec<Vec<u8>> = Vec::new();
    let mut i: usize = 0;
    while i < n
        invariant
            i <= n,
            n == pdata.len() / 16,
            16 * n <= pdata.len(),
            pdata.len() <= usize::MAX,
            pdata.len() % 16 == 0,
            padded@ == pdata,
            key@.len() == 16,
            iv@.len() == 16,
            prev@.len() == 16,
            prev@ == if i == 0 {
                iv@
            } else {
                cbc_prefix(key@, iv@, pdata, i as int).last()
            },
            views_of(out@) =~= cbc_prefix(key@, iv@, pdata, i as int),
        decreases n - i,
    {
        let block = slice_subrange(padded.as_slice(), 16 * i, 16 * i + 16);
        let mixed = block.xor_ref(prev.as_slice());
        proof {
            assert(mixed@ =~= xor_block(block@, prev@));
        }
        let enc = encrypt_one_block(key, mixed.as_slice());
        prev = enc.clone();
        out.push(enc);
        i = i + 1;
        proof {
            assert(views_of(out@) =~= cbc_prefix(key@, iv@, pdata, i as int));
            assert(prev@ == cbc_prefix(key@, iv@, pdata, i as int).last());
        }
    }
    proof {
        assert(views_of(out@) =~= cbc_enc_blocks(key@, iv@, pdata));
    }
    out
}

/// Decipher `data` in CBC mode: each block deciphered, then mixed with
/// the previous ciphertext block (the IV first).
pub fn decrypt_cbc(data: &[u8], key: &[u8], iv: &[u8]) -> (r: Vec<Vec<u8>>)
    requires
        key@.len() == 16,
        iv@.len() == 16,
        data@.len() % 16 == 0,
    ensures
        views_of(r@) == cbc_dec_blocks(key@, iv@, data@),
{
    let n = data.len() / 16;
    let mut out: Vec<Vec<u8>> = Vec::new();
    let mut i: usize = 0;
    while i < n
        invariant
            i <= n,
            n == data@.len() / 16,
            16 * n <= data@.len(),
            data@.len() <= usize::MAX,
            data@.len() % 16 == 0,
            key@.len() == 16,
            iv@.len() == 16,
            out@.len() == i,
            forall|j: int| 0 <= j < i ==> (#[trigger] out@[j])@ == cbc_dec_blocks(key@, iv@, data@)[j],
        decreases n - i,
    {
        let block = slice_subrange(data, 16 * i, 16 * i + 16);
        let dec = decrypt_one_block(key, block);
        let mixed = if i == 0 {
            dec.as_slice().xor_ref(iv)
        } else {
            let prev = slice_subrange(data, 16 * (i - 1), 16 * i);
            dec.as_slice().xor_ref(prev)
        };
        proof {
            let expected = cbc_dec_blocks(key@, iv@, data@)[i as int];
            let a = plain_block(key@, data@.subrange(16 * (i as int), 16 * (i as int) + 16));
            assert(dec@ == a);
            assert(mixed@.len() == 16);
            assert forall|j: int| 0 <= j < 16 implies mixed@[j] == expected[j] by {
                assert(mixed@[j] == dec@[j] ^ (if i == 0 { iv@ } else { data@.subrange(16 * (i as int) - 16, 16 * (i as int)) })[j % 16]);
            }
            assert(mixed@ =~= expected);
        }
        out.push(mixed);
        i = i + 1;
    }
    proof {
        assert(views_of(out@) =~= cbc_dec_blocks(key@, iv@, data@));
    }
    out
}

/// The blocks of `v` laid end to end in one buffer.
pub fn concat_bytes(v: &Vec<Vec<u8>>) -> (r: Vec<u8>)
    ensures
        r@ == concat_blocks(views_of(v@)),
{
    let mut out: Vec<u8> = Vec::new();
    let mut i: usize = 0;
    while i < v.len()
        invariant
            i <= v@.len(),
            out@ =~= concat_blocks(views_of(v@).take(i as int)),
        decreases v@.len() - i,
    {
        out.extend_from_slice(v[i].as_slice());
        i = i + 1;
        proof {
            assert(views_of(v@).take(i as int).drop_last() =~= views_of(v@).take(i - 1 as int));
            assert(out@ =~= concat_blocks(views_of(v@).take(i as int)));
        }
    }
    proof {
        assert(views_of(v@).take(v@.len() as int) =~= views_of(v@));
    }
    out
}

/// The first index in `i0..j` whose block equals block `j`.
pub open spec fn first_match_before(cb: Seq<Seq<u8>>, j: int, i0: int) -> Option<int>
    decreases j - i0,
{
    if i0 < 0 || i0 >= j {
        None
    } else if cb[i0] == cb[j] {
        Some(i0)
    } else {
        first_match_before(cb, j, i0 + 1)
    }
}

/// The first repeated block at or after index `j`, with the earliest
/// index it repeats.
pub open spec fn first_duplicate_from(cb: Seq<Seq<u8>>, j: int) -> Option<(int, int)>
    decreases cb.len() - j,
    when j >= 0
{
    if j >= cb.len() {
        None
    } else {
        match first_match_before(cb, j, 0) {
            Some(i) => Some((i, j)),
            None => first_duplicate_from(cb, j + 1),
        }
    }
}

/// Once no block below `i` equals block `j`, the search from 0 and the
/// search from `i` agree.
proof fn lemma_first_match_align(cb: Seq<Seq<u8>>, j: int, i: int)
    requires
        0 <= i <= j,
        forall|t: int| 0 <= t < i ==> #[trigger] cb[t] != cb[j],
    ensures
        first_match_before(cb, j, 0) == first_match_before(cb, j, i),
    decreases i,
{
    if i > 0 {
        lemma_first_match_align(cb, j, i - 1);
    }
}

/// Once no block below `j` repeats an earlier one, the search from 0
/// and the search from `j` agree.
proof fn lemma_first_duplicate_align(cb: Seq<Seq<u8>>, j: int)
    requires
        0 <= j,
        forall|t: int| 0 <= t < j ==> #[trigger] first_match_before(cb, t, 0) is None,
    ensures
        first_duplicate_from(cb, 0) == first_duplicate_from(cb, j),
    decreases j,
{
    if j > 0 {
        lemma_first_duplicate_align(cb, j - 1);
    }
}

/// How many blocks a buffer of whole blocks holds.
proof fn lemma_blocks_of_len(data: Seq<u8>, bs: int)
    requires
        bs >= 1,
        data.len() as int % bs == 0,
    ensures
        crate::attack::blocks_of(data, bs).len() == data.len() as int / bs,
    decreases data.len(),
{
    let l = data.len() as int;
    vstd::arithmetic::div_mod::lemma_fundamental_div_mod(l, bs);
    if data.len() == 0 {
    } else if l <= bs {
        assert(l == bs) by {
            if l < bs {
                vstd::arithmetic::div_mod::lemma_small_mod(l as nat, bs as nat);
            }
        }
        vstd::arithmetic::div_mod::lemma_fundamental_div_mod_converse(l, bs, 1, 0);
    } else {
        assert(bs * (l / bs - 1) == bs * (l / bs) - bs) by (nonlinear_arith);
        vstd::arithmetic::div_mod::lemma_fundamental_div_mod_converse(l - bs, bs, l / bs - 1, 0);
        lemma_blocks_of_len(data.skip(bs), bs);
    }
}

/// Split a buffer into `bs`-byte blocks, the last possibly shorter.
fn split_blocks(data: &[u8], bs: usize) -> (r: Vec<Vec<u8>>)
    requires
        bs >= 1,
    ensures
        views_of(r@) == crate::attack::blocks_of(data@, bs as int),
{
    let ghost whole = crate::attack::blocks_of(data@, bs as int);
    let mut out: Vec<Vec<u8>> = Vec::new();
    let mut start: usize = 0;
    proof {
        assert(data@.skip(0) =~= data@);
        assert(views_of(out@) + crate::attack::blocks_of(data@.skip(0), bs as int) =~= whole);
    }
    while start < data.len()
        invariant
            1 <= bs,
            start <= data@.len(),
            views_of(out@) + crate::attack::blocks_of(data@.skip(start as int), bs as int)
                =~= whole,
            whole == crate::attack::blocks_of(data@, bs as int),
        decreases data@.len() - start,
    {
        let end = if data.len() - start > bs {
            start + bs
        } else {
            data.len()
        };
        let chunk = vstd::slice::slice_to_vec(vstd::slice::slice_subrange(data, start, end));
        proof {
            let rem = data@.skip(start as int);
            if rem.len() > bs {
                assert(rem.take(bs as int) =~= chunk@);
                assert(rem.skip(bs as int) =~= data@.skip(end as int));
            } else {
                assert(rem =~= chunk@);
                assert(data@.skip(end as int) =~= Seq::<u8>::empty());
            }
            assert(crate::attack::blocks_of(rem, bs as int) =~= seq![chunk@]
                + crate::attack::blocks_of(data@.skip(end as int), bs as int));
        }
        out.push(chunk);
        start = end;
        proof {
            assert(views_of(out@) + crate::attack::blocks_of(data@.skip(start as int), bs as int)
                =~= whole);
        }
    }
    proof {
        assert(data@.skip(data@.len() as int) =~= Seq::<u8>::empty());
        assert(views_of(out@) =~= whole);
    }
    out
}

/// Whether whole-block ciphertext was made in ECB mode: find the first
/// repeated ciphertext block and report whether its decryptions agree
/// as well, which under one key they always do.
pub fn try_decrypt(data: &[u8], key: &[u8]) -> (r: Option<bool>)
    requires
        key@.len() == 16,
        data@.len() % 16 == 0,
    ensures
        ({
            let cb = crate::attack::blocks_of(data@, 16);
            match first_duplicate_from(cb, 0) {
                None => r is None,
                Some((i, j)) => r == Some(
                    ecb_dec_blocks(key@, data@)[i] == ecb_dec_blocks(key@, data@)[j],
                ),
            }
        }),
{
    let dec = decrypt(data, key);
    let cb = split_blocks(data, 16);
    let ghost cbv = crate::attack::blocks_of(data@, 16);
    proof {
        lemma_blocks_of_len(data@, 16);
    }
    let n = cb.len();
    proof {
        assert(views_of(cb@).len() == cb@.len());
        assert(views_of(dec@).len() == dec@.len());
    }

    let mut j: usize = 0;
    while j < n
        invariant
            j <= n,
            n == cbv.len(),
            n == dec@.len(),
            cbv == crate::attack::blocks_of(data@, 16),
            views_of(cb@) == cbv,
            cb@.len() == n,
            views_of(dec@) == ecb_dec_blocks(key@, data@),
            forall|t: int| 0 <= t < j ==> #[trigger] first_match_before(cbv, t, 0) is None,
        decreases n - j,
    {
        let mut i: usize = 0;
        while i < j
            invariant
                i <= j < n,
                n == cbv.len(),
                n == dec@.len(),
                cbv == crate::attack::blocks_of(data@, 16),
                views_of(cb@) == cbv,
                cb@.len() == n,
                views_of(dec@) == ecb_dec_blocks(key@, data@),
                forall|t: int| 0 <= t < j ==> #[trigger] first_match_before(cbv, t, 0) is None,
                forall|t: int| 0 <= t < i ==> #[trigger] cbv[t] != cbv[j as int],
            decreases j - i,
        {
            proof {
                assert(views_of(cb@)[i as int] == cb@[i as int]@);
                assert(views_of(cb@)[j as int] == cb@[j as int]@);
            }
            if crate::attack::bytes_eq(cb[i].as_slice(), cb[j].as_slice()) {
                proof {
                    lemma_first_match_align(cbv, j as int, i as int);
                    assert(first_match_before(cbv, j as int, 0) == Some(i as int));
                    lemma_first_duplicate_align(cbv, j as int);
                    assert(first_duplicate_from(cbv, 0) == Some((i as int, j as int)));
                }
                let same = crate::attack::bytes_eq(dec[i].as_slice(), dec[j].as_slice());
                proof {
                    assert(views_of(dec@)[i as int] == dec@[i as int]@);
                    assert(views_of(dec@)[j as int] == dec@[j as int]@);
                }
                return Some(same);
            }
            proof {
                assert(cbv[i as int] != cbv[j as int]);
            }
            i = i + 1;
        }
        proof {
            lemma_first_match_align(cbv, j as int, j as int);
            assert(first_match_before(cbv, j as int, 0) is None);
        }
        j = j + 1;
    }
    proof {
        lemma_first_duplicate_align(cbv, n as int);
        assert(first_duplicate_from(cbv, 0) is None);
    }
    None
}

} // verus!
