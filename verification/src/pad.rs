use vstd::prelude::*;

verus! {

/// Mathematical model of PKCS#7 padding: for a block size of at least 2,
/// append `k` bytes of value `k`, where `k` brings the length up to the
/// next multiple of the block size (a whole block of padding when the
/// data is already aligned). Smaller block sizes leave the data unchanged.
pub open spec fn pad7(data: Seq<u8>, bs: int) -> Seq<u8> {
    if bs < 2 {
        data
    } else {
        let k = bs - data.len() as int % bs;
        data + Seq::new(k as nat, |i: int| k as u8)
    }
}

/// The last `k` bytes of `data` all equal its last byte.
pub open spec fn uniform_tail(data: Seq<u8>, k: int) -> bool {
    forall|i: int| #![trigger data[i]]
        data.len() - k <= i < data.len() ==> data[i] == data.last()
}

/// The padding width that a valid PKCS#7 tail declares: the last byte `k`,
/// provided it is in `1..=bs` and the last `k` bytes all equal `k`.
pub open spec fn padding_size7(data: Seq<u8>, bs: int) -> Option<int> {
    if data.len() == 0 || bs < 1 {
        None
    } else {
        let k = data.last() as int;
        if 1 <= k <= bs && k <= data.len() && uniform_tail(data, k) {
            Some(k)
        } else {
            None
        }
    }
}

/// What stripping a PKCS#7 tail leaves: the data without its declared
/// padding when the tail is valid, the data unchanged otherwise.
pub open spec fn unpad7(data: Seq<u8>, bs: int) -> Seq<u8> {
    match padding_size7(data, bs) {
        Some(k) => data.take(data.len() - k),
        None => data,
    }
}

pub trait BytesCryptoExt: Sized {
    fn pad_pkcs7(&mut self, block_size: u8);
    fn pkcs7_padding_size(&self, block_size: u8) -> Option<usize>;
    fn unpad_pkcs7(&mut self, block_size: u8);
    fn generate_random(count: usize) -> Self;
}

impl BytesCryptoExt for Vec<u8> {
    /// Append a PKCS#7 tail, bringing the length to a multiple of
    /// `block_size`; block sizes below 2 leave the buffer unchanged.
    fn pad_pkcs7(&mut self, block_size: u8)
        ensures
            final(self)@ == pad7(old(self)@, block_size as int),
    {
        if block_size < 2 {
            return ;
        }

        let bs = block_size as usize;
        let to_pad: usize = bs - self.len() % bs;
        let ghost orig = self@;
        let mut i: usize = 0;
        while i < to_pad
            invariant
                i <= to_pad,
                to_pad <= u8::MAX,
                self@ == orig + Seq::new(i as nat, |j: int| to_pad as u8),
            decreases to_pad - i,
        {
            self.push(to_pad as u8);
            i = i + 1;
            proof {
                assert(self@ =~= orig + Seq::new(i as nat, |j: int| to_pad as u8));
            }
        }
        proof {
            assert(self@ =~= pad7(orig, block_size as int));
        }
    }

    /// The width of the buffer's PKCS#7 tail, when the tail is valid.
    fn pkcs7_padding_size(&self, block_size: u8) -> (r: Option<usize>)
        ensures
            match r {
                Some(k) => padding_size7(self@, block_size as int) == Some(k as int),
                None => padding_size7(self@, block_size as int) is None,
            },
    {
        if self.len() == 0 {
            return None;
        }
        if block_size < 1 {
            return None;
        }

        let last_byte: u8 = self[self.len() - 1];
        if last_byte > block_size {
            return None;
        }
        if last_byte == 0 {
            return None;
        }
        let k = last_byte as usize;
        if k > self.len() {
            return None;
        }

        let mut i: usize = self.len() - k;
        while i < self.len()
            invariant
                self@.len() - k <= i <= self@.len(),
                0 < k <= self@.len(),
                k == last_byte as usize,
                last_byte == self@.last(),
                forall|j: int| self@.len() - k <= j < i ==> self@[j] == self@.last(),
            decreases self@.len() - i,
        {
            if self[i] != last_byte {
                proof {
                    if padding_size7(self@, block_size as int) is Some {
                        assert(uniform_tail(self@, self@.last() as int));
                        assert(self@[i as int] == self@.last());
                    }
                }
                return None;
            }
            i = i + 1;
        }

        Some(k)
    }

    /// Strip the buffer's PKCS#7 tail when it is valid; otherwise leave
    /// the buffer unchanged.
    fn unpad_pkcs7(&mut self, block_size: u8)
        ensures
            final(self)@ == unpad7(old(self)@, block_size as int),
    {
        if let Some(k) = self.pkcs7_padding_size(block_size) {
            let new_len = self.len() - k;
            self.truncate(new_len);
        }
    }

    /// Fresh random bytes from the thread-local generator.
    fn generate_random(count: usize) -> (r: Self)
        ensures
            r@.len() == count,
    {
        random_bytes(count)
    }
}

/// Relies on rand::thread_rng and rand::Rng::gen: `count` bytes drawn
/// from the thread-local generator; nothing is promised of their values.
#[verifier::external_body]
fn random_bytes(count: usize) -> (r: Vec<u8>)
    ensures
        r@.len() == count,
{
    let mut rng = rand::thread_rng();
    (0..count).map(|_| rand::Rng::gen(&mut rng)).collect()
}

/// Padding then stripping returns the original bytes, for every buffer
/// and every block size of at least 2.
pub proof fn lemma_pad_unpad_roundtrip(data: Seq<u8>, bs: int)
    requires
        2 <= bs <= u8::MAX,
    ensures
        unpad7(pad7(data, bs), bs) == data,
{
    let k = bs - data.len() as int % bs;
    let padded = pad7(data, bs);
    assert(padded.last() == k as u8);
    assert(padding_size7(padded, bs) == Some(k));
    assert(unpad7(padded, bs) =~= data);
}

} // verus!
