use vstd::prelude::*;

verus! {

use vstd::string::StringSliceAdditionalSpecFns;

/// Number of bits set in a byte.
pub open spec fn popcount8(x: u8) -> nat
    decreases x,
{
    if x == 0 {
        0
    } else {
        (x % 2) as nat + popcount8(x / 2)
    }
}

/// `data` combined with `key` repeated cyclically; an empty key gives an
/// empty result, as zipping with an empty cycle yields nothing.
pub open spec fn xor_spec(data: Seq<u8>, key: Seq<u8>) -> Seq<u8> {
    if key.len() == 0 {
        Seq::empty()
    } else {
        Seq::new(data.len(), |i: int| data[i] ^ key[i % key.len() as int])
    }
}

/// Bits that differ over the common prefix of `a` and `b`, up to index `n`.
pub open spec fn hamming_upto(a: Seq<u8>, b: Seq<u8>, n: int) -> nat
    decreases n,
{
    if n <= 0 {
        0
    } else {
        hamming_upto(a, b, n - 1) + popcount8(a[n - 1] ^ b[n - 1])
    }
}

/// Bits that differ between `a` and `b` over their common prefix.
pub open spec fn hamming_spec(a: Seq<u8>, b: Seq<u8>) -> nat {
    hamming_upto(a, b, if a.len() <= b.len() { a.len() as int } else { b.len() as int })
}

/// A byte holds at most eight set bits.
pub proof fn lemma_popcount8_bound(x: u8)
    ensures
        popcount8(x) <= 8,
{
    reveal_with_fuel(popcount8, 10);
    assert(x / 128 / 2 == 0);
}

/// The bit-distance over a prefix grows by at most eight per byte.
proof fn lemma_hamming_upto_bound(a: Seq<u8>, b: Seq<u8>, n: int)
    requires
        n >= 0,
    ensures
        hamming_upto(a, b, n) <= 8 * n,
    decreases n,
{
    if n > 0 {
        lemma_hamming_upto_bound(a, b, n - 1);
        lemma_popcount8_bound(a[n - 1] ^ b[n - 1]);
    }
}

/// The bit-distance of two buffers is at most eight bits per byte of
/// the shorter one.
pub proof fn lemma_hamming_bound(a: Seq<u8>, b: Seq<u8>)
    ensures
        hamming_spec(a, b) <= 8 * a.len(),
        hamming_spec(a, b) <= 8 * b.len(),
{
    if a.len() <= b.len() {
        lemma_hamming_upto_bound(a, b, a.len() as int);
    } else {
        lemma_hamming_upto_bound(a, b, b.len() as int);
    }
}

pub trait StreamCipher {
    fn xor(&self, key: &[u8]) -> Vec<u8>;
    fn xor_ref(&self, key: &[u8]) -> Vec<u8>;
}

impl StreamCipher for [u8] {
    /// Repeating-key XOR of the buffer with `key`.
    fn xor(&self, key: &[u8]) -> (r: Vec<u8>)
        ensures
            r@ == xor_spec(self@, key@),
    {
        let mut out: Vec<u8> = Vec::new();
        if key.len() == 0 {
            return out;
        }
        let mut i: usize = 0;
        while i < self.len()
            invariant
                i <= self@.len(),
                key@.len() > 0,
                out@ =~= xor_spec(self@, key@).take(i as int),
            decreases self@.len() - i,
        {
            out.push(self[i] ^ key[i % key.len()]);
            i = i + 1;
            proof {
                assert(out@ =~= xor_spec(self@, key@).take(i as int));
            }
        }
        proof {
            assert(out@ =~= xor_spec(self@, key@));
        }
        out
    }

    /// Repeating-key XOR of the buffer with `key`.
    fn xor_ref(&self, key: &[u8]) -> (r: Vec<u8>)
        ensures
            r@ == xor_spec(self@, key@),
    {
        self.xor(key)
    }
}

impl StreamCipher for str {
    /// Repeating-key XOR of the text's UTF-8 bytes with `key`.
    fn xor(&self, key: &[u8]) -> (r: Vec<u8>)
        ensures
            r@ == xor_spec(self.spec_bytes(), key@),
    {
        self.as_bytes().xor(key)
    }

    /// Repeating-key XOR of the text's UTF-8 bytes with `key`.
    fn xor_ref(&self, key: &[u8]) -> (r: Vec<u8>)
        ensures
            r@ == xor_spec(self.spec_bytes(), key@),
    {
        self.as_bytes().xor(key)
    }
}

/// Bits set in `x`, counted nibble-free from its binary digits.
fn popcount_byte(x: u8) -> (c: u8)
    ensures
        c == popcount8(x),
        c <= 8,
{
    let c: u8 = (x % 2) + (x / 2 % 2) + (x / 4 % 2) + (x / 8 % 2) + (x / 16 % 2) + (x / 32 % 2)
        + (x / 64 % 2) + (x / 128 % 2);
    proof {
        reveal_with_fuel(popcount8, 10);
        assert(x / 128 / 2 == 0);
    }
    c
}

/// The number of bit positions at which the two buffers differ, taken
/// over their common prefix.
pub fn hamming(lhs: &[u8], rhs: &[u8]) -> (r: u32)
    requires
        8 * lhs@.len() <= u32::MAX,
    ensures
        r == hamming_spec(lhs@, rhs@),
{
    let n = if lhs.len() <= rhs.len() {
        lhs.len()
    } else {
        rhs.len()
    };
    let mut sum: u32 = 0;
    let mut i: usize = 0;
    while i < n
        invariant
            i <= n,
            n <= lhs@.len(),
            n <= rhs@.len(),
            8 * lhs@.len() <= u32::MAX,
            sum == hamming_upto(lhs@, rhs@, i as int),
            sum <= 8 * i,
        decreases n - i,
    {
        sum = sum + popcount_byte(lhs[i] ^ rhs[i]) as u32;
        i = i + 1;
    }
    sum
}

} // verus!
