use vstd::prelude::*;

verus! {

/// A chosen-plaintext encryption oracle. Within one attack session the
/// oracle is deterministic: a fixed response for each input.
pub trait Oracle {
    /// The oracle's response function, fixed for its lifetime.
    spec fn response(&self, data: Seq<u8>) -> Seq<u8>;

    /// Encrypt attacker-chosen bytes.
    fn encrypt(&self, data: &[u8]) -> (r: Vec<u8>)
        ensures
            r@ == self.response(data@),
    ;
}

/// The cipher mode the oracle was found to use, with the number of
/// whole blocks its hidden prefix occupies in the ECB case.
#[derive(Debug, PartialEq, Eq, Structural)]
pub enum Mode {
    Ebc { prefix_blocks: usize },
    Cbc,
}

/// Why an attack stage gave up: the stage that failed identifies itself.
#[derive(Debug, PartialEq, Eq, Structural, Clone, Copy)]
pub enum AttackError {
    /// Growing fillers never grew the ciphertext within the probe cap.
    BlockSizeNotDetected,
    /// The oracle did not behave as a block-aligned ECB oracle.
    NotEcbMode,
    /// No trial byte reproduced the reference block at this position.
    ByteRecoveryFailed(usize),
}

/// The byte used for filler payloads.
pub const FILLER_BYTE: u8 = 65;

/// How many filler lengths are probed before block-size detection gives up.
pub const BLOCK_SIZE_PROBE_CAP: usize = 4096;

/// Largest block size the engine accepts as plausible.
pub const MAX_BLOCK_SIZE: usize = 65536;

/// How many identical consecutive blocks mode detection demands.
pub const BLOCKS_TO_VERIFY: usize = 10;

/// `n` filler bytes.
pub open spec fn filler(n: int) -> Seq<u8> {
    Seq::new(n as nat, |i: int| FILLER_BYTE)
}

/// Length of the oracle's answer to `n` filler bytes.
pub open spec fn resp_len<O: Oracle>(o: &O, n: int) -> int {
    o.response(filler(n)).len() as int
}

/// The first filler length in `i..=BLOCK_SIZE_PROBE_CAP` whose answer
/// differs in length from the answer to the empty payload.
pub open spec fn first_growth_from<O: Oracle>(o: &O, i: int) -> Option<int>
    decreases BLOCK_SIZE_PROBE_CAP + 1 - i,
{
    if i < 1 || i > BLOCK_SIZE_PROBE_CAP {
        None
    } else if resp_len(o, i) != resp_len(o, 0) {
        Some(i)
    } else {
        first_growth_from(o, i + 1)
    }
}

/// What block-size detection returns for this oracle: at the first
/// filler length `i` that changes the ciphertext length, the growth is
/// the block size and the empty-payload length minus `i` is the length
/// of the hidden content. A shrinking answer, an absurd growth or an
/// exhausted probe cap is a failed detection.
pub open spec fn spec_detect_block_size<O: Oracle>(o: &O) -> Result<(int, int), AttackError> {
    match first_growth_from(o, 1) {
        None => Err(AttackError::BlockSizeNotDetected),
        Some(i) => {
            let diff = resp_len(o, i) - resp_len(o, 0);
            if 1 <= diff <= MAX_BLOCK_SIZE && resp_len(o, 0) >= i {
                Ok((diff, resp_len(o, 0) - i))
            } else {
                Err(AttackError::BlockSizeNotDetected)
            }
        },
    }
}

/// `data` cut into `bs`-byte blocks, the last block possibly shorter.
pub open spec fn blocks_of(data: Seq<u8>, bs: int) -> Seq<Seq<u8>>
    decreases data.len(),
    when bs >= 1
{
    if data.len() == 0 {
        Seq::empty()
    } else if data.len() <= bs {
        seq![data]
    } else {
        seq![data.take(bs)] + blocks_of(data.skip(bs), bs)
    }
}

/// Block `t` of the oracle's answer to `payload`, when there is one.
pub open spec fn block_at<O: Oracle>(o: &O, bs: int, payload: Seq<u8>, t: int) -> Option<Seq<u8>> {
    let bks = blocks_of(o.response(payload), bs);
    if 0 <= t < bks.len() {
        Some(bks[t])
    } else {
        None
    }
}

/// A view-level mirror of a `(usize, usize)` result.
pub open spec fn res2_view(r: Result<(usize, usize), AttackError>) -> Result<(int, int), AttackError> {
    match r {
        Ok((a, b)) => Ok((a as int, b as int)),
        Err(e) => Err(e),
    }
}

/// Once all filler lengths below `i` leave the ciphertext length
/// unchanged, the search from 1 and the search from `i` agree.
pub proof fn lemma_first_growth_align<O: Oracle>(o: &O, i: int)
    requires
        1 <= i <= BLOCK_SIZE_PROBE_CAP + 1,
        forall|j: int| 1 <= j < i ==> #[trigger] resp_len(o, j) == resp_len(o, 0),
    ensures
        first_growth_from(o, 1) == first_growth_from(o, i),
    decreases i,
{
    if i > 1 {
        lemma_first_growth_align(o, i - 1);
    }
}

/// Blocks `q..q+k` of `bks` exist and are all equal.
pub open spec fn is_run(bks: Seq<Seq<u8>>, k: int, q: int) -> bool {
    &&& 0 <= q
    &&& q + k <= bks.len()
    &&& forall|t: int| q <= t < q + k ==> #[trigger] bks[t] == bks[q]
}

/// The least `q` at or after `q0` where `k` equal consecutive blocks start.
pub open spec fn first_run_from(bks: Seq<Seq<u8>>, k: int, q0: int) -> Option<int>
    decreases bks.len() - q0,
    when k >= 1
{
    if q0 < 0 || q0 + k > bks.len() {
        None
    } else if is_run(bks, k, q0) {
        Some(q0)
    } else {
        first_run_from(bks, k, q0 + 1)
    }
}

/// What mode detection concludes for this oracle and block size: the
/// start of the first run of `BLOCKS_TO_VERIFY` equal consecutive
/// ciphertext blocks in the answer to `(BLOCKS_TO_VERIFY + 2)` blocks of
/// filler, or nothing when no such run exists.
pub open spec fn spec_detect_mode<O: Oracle>(o: &O, bs: int) -> Option<int> {
    let bks = blocks_of(o.response(filler(bs * (BLOCKS_TO_VERIFY + 2))), bs);
    first_run_from(bks, BLOCKS_TO_VERIFY as int, 0)
}

/// Once no run starts before `f`, the search from `q0` and the search
/// from `f` agree.
pub proof fn lemma_first_run_align(bks: Seq<Seq<u8>>, k: int, q0: int, f: int)
    requires
        k >= 1,
        0 <= q0 <= f,
        forall|q: int| q0 <= q < f ==> !(#[trigger] is_run(bks, k, q)),
    ensures
        first_run_from(bks, k, q0) == first_run_from(bks, k, f),
    decreases f - q0,
{
    if q0 < f {
        lemma_first_run_align(bks, k, q0 + 1, f);
    }
}

/// When no run starts anywhere at or after `q0`, the search finds nothing.
pub proof fn lemma_first_run_none(bks: Seq<Seq<u8>>, k: int, q0: int)
    requires
        k >= 1,
        0 <= q0,
        forall|q: int| q0 <= q ==> !(#[trigger] is_run(bks, k, q)),
    ensures
        first_run_from(bks, k, q0) is None,
    decreases bks.len() - q0,
{
    if q0 + k <= bks.len() {
        lemma_first_run_none(bks, k, q0 + 1);
    }
}

/// How the oracle enciphers a whole block of filler after its prefix:
/// block `pb` of the answer to two blocks of filler.
pub open spec fn spec_ref_block<O: Oracle>(o: &O, bs: int, pb: int) -> Option<Seq<u8>> {
    block_at(o, bs, filler(2 * bs), pb)
}

/// The first pad length at or after `p`, below two blocks, whose answer
/// repeats `target` at block `pb`.
pub open spec fn first_pad_from<O: Oracle>(
    o: &O,
    bs: int,
    pb: int,
    target: Seq<u8>,
    p: int,
) -> Option<int>
    decreases 2 * bs - p,
    when bs >= 1
{
    if p < 0 || p >= 2 * bs {
        None
    } else if block_at(o, bs, filler(p), pb) == Some(target) {
        Some(p)
    } else {
        first_pad_from(o, bs, pb, target, p + 1)
    }
}

/// What prefix-padding detection concludes: the first pad length whose
/// answer repeats the reference block at the prefix boundary, reduced
/// modulo the block size. An oracle without a usable reference block or
/// without any matching pad is not behaving as an ECB oracle.
pub open spec fn spec_prefix_padding<O: Oracle>(o: &O, bs: int) -> Result<int, AttackError> {
    match spec_detect_mode(o, bs) {
        None => Err(AttackError::NotEcbMode),
        Some(pb) => match spec_ref_block(o, bs, pb) {
            None => Err(AttackError::NotEcbMode),
            Some(tb) => match first_pad_from(o, bs, pb, tb, 0) {
                None => Err(AttackError::NotEcbMode),
                Some(p) => Ok(p % bs),
            },
        },
    }
}

/// What the prefix-detection pair is: the prefix's whole blocks and the
/// filler bytes that complete its last block.
pub open spec fn spec_prefix_components<O: Oracle>(o: &O, bs: int) -> Result<
    (int, int),
    AttackError,
> {
    match spec_detect_mode(o, bs) {
        None => Err(AttackError::NotEcbMode),
        Some(pb) => match spec_prefix_padding(o, bs) {
            Err(e) => Err(e),
            Ok(pp) => Ok((pb, pp)),
        },
    }
}

/// The prefix's exact byte length: its whole blocks times the block
/// size, minus the padding that completes its last block. Components
/// that cannot come from a real prefix are rejected.
pub open spec fn spec_prefix_exact<O: Oracle>(o: &O, bs: int) -> Result<int, AttackError> {
    match spec_prefix_components(o, bs) {
        Err(e) => Err(e),
        Ok((pb, pp)) => if pb > usize::MAX as int / bs || pp > pb * bs {
            Err(AttackError::NotEcbMode)
        } else {
            Ok(pb * bs - pp)
        },
    }
}

/// The secret suffix's exact byte length: the hidden content's length
/// minus the prefix's exact length.
pub open spec fn spec_suffix_size<O: Oracle>(o: &O) -> Result<int, AttackError> {
    match spec_detect_block_size(o) {
        Err(e) => Err(e),
        Ok((bs, fixed)) => match spec_prefix_exact(o, bs) {
            Err(e) => Err(e),
            Ok(ps) => if ps > fixed {
                Err(AttackError::NotEcbMode)
            } else {
                Ok(fixed - ps)
            },
        },
    }
}

/// Once no pad length below `p` matches, the search from 0 and the
/// search from `p` agree.
pub proof fn lemma_first_pad_align<O: Oracle>(o: &O, bs: int, pb: int, target: Seq<u8>, p: int)
    requires
        bs >= 1,
        0 <= p <= 2 * bs,
        forall|q: int| 0 <= q < p ==> #[trigger] block_at(o, bs, filler(q), pb) != Some(target),
    ensures
        first_pad_from(o, bs, pb, target, 0) == first_pad_from(o, bs, pb, target, p),
    decreases p,
{
    if p > 0 {
        lemma_first_pad_align(o, bs, pb, target, p - 1);
    }
}

/// The first trial byte, over the full range 0 to 255 inclusive, whose
/// answer repeats `expected` at block `t` when appended to `payload`.
pub open spec fn first_guess_from<O: Oracle>(
    o: &O,
    bs: int,
    payload: Seq<u8>,
    t: int,
    expected: Seq<u8>,
    g: int,
) -> Option<u8>
    decreases 256 - g,
{
    if g < 0 || g > 255 {
        None
    } else if block_at(o, bs, payload.push(g as u8), t) == Some(expected) {
        Some(g as u8)
    } else {
        first_guess_from(o, bs, payload, t, expected, g + 1)
    }
}

/// Once no trial byte below `g` matches, the search from 0 and the
/// search from `g` agree.
pub proof fn lemma_first_guess_align<O: Oracle>(
    o: &O,
    bs: int,
    payload: Seq<u8>,
    t: int,
    expected: Seq<u8>,
    g: int,
)
    requires
        0 <= g <= 256,
        forall|h: int|
            0 <= h < g ==> #[trigger] block_at(o, bs, payload.push(h as u8), t) != Some(expected),
    ensures
        first_guess_from(o, bs, payload, t, expected, 0) == first_guess_from(
            o,
            bs,
            payload,
            t,
            expected,
            g,
        ),
    decreases g,
{
    if g > 0 {
        lemma_first_guess_align(o, bs, payload, t, expected, g - 1);
    }
}

/// The filler that leaves one unknown byte at the end of the target
/// block for position `n`.
pub open spec fn short_len(pp: int, bs: int, n: int) -> int {
    pp + bs - 1 - (n % bs)
}

/// The reference block for position `n`: the block at the prefix
/// boundary plus `n`'s block, in the answer to the short filler.
pub open spec fn spec_position_ref<O: Oracle>(
    o: &O,
    bs: int,
    pb: int,
    pp: int,
    n: int,
) -> Option<Seq<u8>> {
    block_at(o, bs, filler(short_len(pp, bs, n)), pb + n / bs)
}

/// The bytes placed before each trial byte for position `n`: in the
/// first block, the short filler and everything recovered so far; in
/// later blocks, the alignment filler and the last `bs - 1` recovered
/// bytes.
pub open spec fn brute_payload(pp: int, bs: int, known: Seq<u8>, n: int) -> Seq<u8> {
    if n / bs == 0 {
        filler(short_len(pp, bs, n)) + known
    } else {
        filler(pp) + known.subrange(n - bs + 1, n)
    }
}

/// The byte recovered at position `n`, once `known` holds the bytes
/// before it: the first trial byte whose block at the prefix boundary
/// repeats the reference block.
pub open spec fn spec_recover_next<O: Oracle>(
    o: &O,
    bs: int,
    pb: int,
    pp: int,
    known: Seq<u8>,
    n: int,
) -> Option<u8> {
    match spec_position_ref(o, bs, pb, pp, n) {
        None => None,
        Some(rb) => first_guess_from(o, bs, brute_payload(pp, bs, known, n), pb, rb, 0),
    }
}

/// The first `n` recovered suffix bytes, or the position where recovery
/// first failed.
pub open spec fn spec_recover_upto<O: Oracle>(
    o: &O,
    bs: int,
    pb: int,
    pp: int,
    n: int,
) -> Result<Seq<u8>, AttackError>
    decreases n,
{
    if n <= 0 {
        Ok(Seq::empty())
    } else {
        match spec_recover_upto(o, bs, pb, pp, n - 1) {
            Err(e) => Err(e),
            Ok(kn) => match spec_recover_next(o, bs, pb, pp, kn, n - 1) {
                None => Err(AttackError::ByteRecoveryFailed((n - 1) as usize)),
                Some(b) => Ok(kn.push(b)),
            },
        }
    }
}

/// Once recovery has failed, going further does not change the outcome.
proof fn lemma_recover_upto_err<O: Oracle>(o: &O, bs: int, pb: int, pp: int, n: int, m: int)
    requires
        0 <= n <= m,
        spec_recover_upto(o, bs, pb, pp, n) is Err,
    ensures
        spec_recover_upto(o, bs, pb, pp, m) == spec_recover_upto(o, bs, pb, pp, n),
    decreases m - n,
{
    if n < m {
        lemma_recover_upto_err(o, bs, pb, pp, n + 1, m);
    }
}

/// What the whole attack returns for this oracle: the suffix recovered
/// byte by byte once every detection stage has succeeded, or the first
/// stage's failure.
pub open spec fn spec_detect_suffix<O: Oracle>(o: &O) -> Result<Seq<u8>, AttackError> {
    match spec_detect_block_size(o) {
        Err(e) => Err(e),
        Ok((bs, fixed)) => match spec_prefix_components(o, bs) {
            Err(e) => Err(e),
            Ok((pb, pp)) => if pb > usize::MAX as int / bs || pp > pb * bs || pb * bs - pp
                > fixed {
                Err(AttackError::NotEcbMode)
            } else {
                spec_recover_upto(o, bs, pb, pp, fixed - (pb * bs - pp))
            },
        },
    }
}

/// A view-level mirror of a recovered-bytes result.
pub open spec fn res_bytes_view(r: Result<Vec<u8>, AttackError>) -> Result<Seq<u8>, AttackError> {
    match r {
        Ok(v) => Ok(v@),
        Err(e) => Err(e),
    }
}

/// Whether two byte slices hold the same bytes.
pub(crate) fn bytes_eq(a: &[u8], b: &[u8]) -> (r: bool)
    ensures
        r == (a@ == b@),
{
    if a.len() != b.len() {
        return false;
    }
    let mut i: usize = 0;
    while i < a.len()
        invariant
            i <= a@.len(),
            a@.len() == b@.len(),
            forall|j: int| 0 <= j < i ==> a@[j] == b@[j],
        decreases a@.len() - i,
    {
        if a[i] != b[i] {
            return false;
        }
        i = i + 1;
    }
    proof {
        assert(a@ =~= b@);
    }
    true
}

/// A set of tools to reveal hidden plaintext enciphered by a block
/// cipher in ECB mode behind a chosen-plaintext oracle.
pub struct EbcBreaking<O: Oracle> {
    pub oracle: O,
    pub block_size: usize,
    pub fixed_parts_size: usize,
}

impl<O: Oracle> EbcBreaking<O> {
    /// The engine's fields agree with what detection derives from its oracle.
    pub open spec fn wf(&self) -> bool {
        &&& spec_detect_block_size(&self.oracle) == Ok::<_, AttackError>(
            (self.block_size as int, self.fixed_parts_size as int),
        )
        &&& 1 <= self.block_size <= MAX_BLOCK_SIZE
    }

    /// Run block-size detection on `oracle` and wrap it with the findings.
    pub fn new(oracle: O) -> (r: Result<Self, AttackError>)
        ensures
            match r {
                Ok(eng) => eng.wf() && eng.oracle == oracle,
                Err(e) => spec_detect_block_size(&oracle) == Err::<(int, int), _>(e),
            },
    {
        match Self::detect_block_size(&oracle) {
            Ok((block_size, fixed_parts_size)) => Ok(EbcBreaking {
                oracle,
                block_size,
                fixed_parts_size,
            }),
            Err(e) => Err(e),
        }
    }

    /// `size` filler bytes.
    pub fn same_symbols_data(size: usize) -> (r: Vec<u8>)
        ensures
            r@ == filler(size as int),
    {
        let mut v: Vec<u8> = Vec::new();
        let mut i: usize = 0;
        while i < size
            invariant
                i <= size,
                v@ =~= filler(i as int),
            decreases size - i,
        {
            v.push(FILLER_BYTE);
            i = i + 1;
            proof {
                assert(v@ =~= filler(i as int));
            }
        }
        v
    }

    /// The oracle's answer to `data`, cut into blocks of the detected size.
    pub fn encrypt_blocks(&self, data: &[u8]) -> (r: Vec<Vec<u8>>)
        requires
            self.wf(),
        ensures
            crate::aes_cypher::views_of(r@) == blocks_of(
                self.oracle.response(data@),
                self.block_size as int,
            ),
    {
        let enc = self.oracle.encrypt(data);
        let bs = self.block_size;
        let ghost whole = blocks_of(enc@, bs as int);
        let mut out: Vec<Vec<u8>> = Vec::new();
        let mut start: usize = 0;
        proof {
            assert(enc@.skip(0) =~= enc@);
            assert(crate::aes_cypher::views_of(out@) + blocks_of(enc@.skip(0), bs as int)
                =~= whole);
        }
        while start < enc.len()
            invariant
                1 <= bs,
                start <= enc@.len(),
                crate::aes_cypher::views_of(out@) + blocks_of(enc@.skip(start as int), bs as int)
                    =~= whole,
                whole == blocks_of(enc@, bs as int),
            decreases enc@.len() - start,
        {
            let end = if enc.len() - start > bs {
                start + bs
            } else {
                enc.len()
            };
            let chunk = vstd::slice::slice_to_vec(
                vstd::slice::slice_subrange(enc.as_slice(), start, end),
            );
            proof {
                let rem = enc@.skip(start as int);
                if rem.len() > bs {
                    assert(rem.take(bs as int) =~= chunk@);
                    assert(rem.skip(bs as int) =~= enc@.skip(end as int));
                    assert(blocks_of(rem, bs as int) =~= seq![chunk@] + blocks_of(
                        enc@.skip(end as int),
                        bs as int,
                    ));
                } else {
                    assert(rem =~= chunk@);
                    assert(enc@.skip(end as int) =~= Seq::<u8>::empty());
                    assert(blocks_of(rem, bs as int) =~= seq![chunk@] + blocks_of(
                        enc@.skip(end as int),
                        bs as int,
                    ));
                }
            }
            out.push(chunk);
            start = end;
            proof {
                assert(crate::aes_cypher::views_of(out@) + blocks_of(
                    enc@.skip(start as int),
                    bs as int,
                ) =~= whole);
            }
        }
        proof {
            assert(enc@.skip(enc@.len() as int) =~= Seq::<u8>::empty());
            assert(crate::aes_cypher::views_of(out@) =~= whole);
        }
        out
    }

    /// The oracle's answer to `size` filler bytes, cut into blocks.
    pub fn encrypt_same_symbols(&self, size: usize) -> (r: Vec<Vec<u8>>)
        requires
            self.wf(),
        ensures
            crate::aes_cypher::views_of(r@) == blocks_of(
                self.oracle.response(filler(size as int)),
                self.block_size as int,
            ),
    {
        let payload = Self::same_symbols_data(size);
        self.encrypt_blocks(payload.as_slice())
    }

    /// Classify the oracle: send enough identical filler blocks and look
    /// for `BLOCKS_TO_VERIFY` equal consecutive ciphertext blocks. ECB
    /// repeats ciphertext for repeated plaintext blocks; chaining modes
    /// do not. The first such run's start counts the prefix's whole blocks.
    pub fn detect_mode(&self) -> (m: Mode)
        requires
            self.wf(),
        ensures
            match m {
                Mode::Ebc { prefix_blocks } => spec_detect_mode(
                    &self.oracle,
                    self.block_size as int,
                ) == Some(prefix_blocks as int),
                Mode::Cbc => spec_detect_mode(&self.oracle, self.block_size as int) is None,
            },
    {
        let payload_size = self.block_size * (BLOCKS_TO_VERIFY + 2);
        let enc_blocks = self.encrypt_blocks(Self::same_symbols_data(payload_size).as_slice());
        let ghost bks = blocks_of(
            self.oracle.response(filler(self.block_size as int * (BLOCKS_TO_VERIFY + 2))),
            self.block_size as int,
        );
        let ghost k = BLOCKS_TO_VERIFY as int;
        let m = enc_blocks.len();

        let mut first_of_equal_blocks: usize = 0;
        let mut p: usize = 0;
        while p + 1 < m
            invariant
                m == bks.len(),
                bks == blocks_of(
                    self.oracle.response(filler((self.block_size as int) * (BLOCKS_TO_VERIFY + 2))),
                    self.block_size as int,
                ),
                crate::aes_cypher::views_of(enc_blocks@) == bks,
                enc_blocks@.len() == m,
                k == BLOCKS_TO_VERIFY as int,
                first_of_equal_blocks <= p,
                m == 0 ==> p == 0,
                m >= 1 ==> p <= m - 1,
                p - first_of_equal_blocks <= k - 2,
                forall|u: int|
                    first_of_equal_blocks <= u <= p && p < m
                        ==> #[trigger] bks[u] == bks[first_of_equal_blocks as int],
                forall|q: int| 0 <= q < first_of_equal_blocks ==> !(#[trigger] is_run(bks, k, q)),
            decreases m - p,
        {
            let equal = bytes_eq(enc_blocks[p].as_slice(), enc_blocks[p + 1].as_slice());
            if equal {
                proof {
                    assert(crate::aes_cypher::views_of(enc_blocks@)[p as int]
                        == enc_blocks@[p as int]@);
                    assert(crate::aes_cypher::views_of(enc_blocks@)[p + 1 as int]
                        == enc_blocks@[p + 1 as int]@);
                    assert(bks[p as int] == bks[first_of_equal_blocks as int]);
                    assert(bks[p + 1 as int] == bks[first_of_equal_blocks as int]);
                }
                if p - first_of_equal_blocks == BLOCKS_TO_VERIFY - 2 {
                    proof {
                        let f = first_of_equal_blocks as int;
                        assert(is_run(bks, k, f));
                        lemma_first_run_align(bks, k, 0, f);
                        assert(first_run_from(bks, k, f) == Some(f));
                        assert(first_run_from(bks, k, 0) == Some(f));
                        let sbks = blocks_of(
                            self.oracle.response(
                                filler((self.block_size as int) * (BLOCKS_TO_VERIFY + 2)),
                            ),
                            self.block_size as int,
                        );
                        assert(sbks == bks);
                        assert(spec_detect_mode(&self.oracle, self.block_size as int) == Some(f));
                    }
                    return Mode::Ebc { prefix_blocks: first_of_equal_blocks };
                }
            } else {
                proof {
                    let f = first_of_equal_blocks as int;
                    assert forall|q: int| 0 <= q < p + 1 implies !(#[trigger] is_run(bks, k, q)) by {
                        if f <= q <= p && is_run(bks, k, q) {
                            assert(bks[p as int] == bks[q]);
                            assert(bks[p + 1 as int] == bks[q]);
                        }
                    }
                }
                first_of_equal_blocks = p + 1;
            }
            p = p + 1;
        }
        proof {
            let f = first_of_equal_blocks as int;
            assert forall|q: int| 0 <= q implies !(#[trigger] is_run(bks, k, q)) by {
                if q >= f && is_run(bks, k, q) {
                    assert(q + k <= m);
                }
            }
            lemma_first_run_none(bks, k, 0);
        }
        Mode::Cbc
    }

    /// Probe the oracle with growing fillers until the ciphertext grows:
    /// the growth is the block size, and the empty-payload ciphertext
    /// length minus the filler length is the length of the hidden content.
    pub fn detect_block_size(oracle: &O) -> (r: Result<(usize, usize), AttackError>)
        ensures
            res2_view(r) == spec_detect_block_size(oracle),
    {
        let empty: Vec<u8> = Vec::new();
        proof {
            assert(empty@ =~= filler(0));
        }
        let empty_enc_size: usize = oracle.encrypt(empty.as_slice()).len();

        let mut i: usize = 1;
        while i <= BLOCK_SIZE_PROBE_CAP
            invariant
                1 <= i <= BLOCK_SIZE_PROBE_CAP + 1,
                empty_enc_size == resp_len(oracle, 0),
                forall|j: int| 1 <= j < i ==> #[trigger] resp_len(oracle, j) == resp_len(oracle, 0),
            decreases BLOCK_SIZE_PROBE_CAP + 1 - i,
        {
            let payload = Self::same_symbols_data(i);
            let enc_size: usize = oracle.encrypt(payload.as_slice()).len();

            if enc_size != empty_enc_size {
                proof {
                    lemma_first_growth_align(oracle, i as int);
                    assert(first_growth_from(oracle, i as int) == Some(i as int));
                }
                if enc_size > empty_enc_size && enc_size - empty_enc_size <= MAX_BLOCK_SIZE
                    && empty_enc_size >= i {
                    let diff = enc_size - empty_enc_size;
                    let fixed_data_size = empty_enc_size - i;
                    return Ok((diff, fixed_data_size));
                } else {
                    return Err(AttackError::BlockSizeNotDetected);
                }
            }
            i = i + 1;
        }
        proof {
            lemma_first_growth_align(oracle, BLOCK_SIZE_PROBE_CAP + 1 as int);
            assert(first_growth_from(oracle, BLOCK_SIZE_PROBE_CAP + 1 as int) is None);
        }
        Err(AttackError::BlockSizeNotDetected)
    }

    /// Find how many extra filler bytes make attacker input start on a
    /// block boundary: take the ciphertext of a whole filler block as a
    /// reference, then grow a pad until that block reappears at the
    /// prefix boundary.
    pub fn detect_prefix_padding_size(&self) -> (r: Result<usize, AttackError>)
        requires
            self.wf(),
        ensures
            match r {
                Ok(pp) => spec_prefix_padding(&self.oracle, self.block_size as int) == Ok::<
                    int,
                    AttackError,
                >(pp as int) && pp < self.block_size,
                Err(e) => spec_prefix_padding(&self.oracle, self.block_size as int) == Err::<
                    int,
                    AttackError,
                >(e),
            },
    {
        let whole_blocks_for_prefix = match self.detect_mode() {
            Mode::Cbc => {
                return Err(AttackError::NotEcbMode);
            },
            Mode::Ebc { prefix_blocks } => prefix_blocks,
        };
        let ghost bs = self.block_size as int;
        let ghost pb = whole_blocks_for_prefix as int;

        let enc_blocks = self.encrypt_same_symbols(2 * self.block_size);
        proof {
            assert(filler((2 * self.block_size) as int) == filler(2 * bs));
        }
        if whole_blocks_for_prefix >= enc_blocks.len() {
            proof {
                assert(spec_ref_block(&self.oracle, bs, pb) is None);
            }
            return Err(AttackError::NotEcbMode);
        }
        let a_block = &enc_blocks[whole_blocks_for_prefix];
        let ghost target = a_block@;
        proof {
            assert(crate::aes_cypher::views_of(enc_blocks@)[pb] == enc_blocks@[pb]@);
            assert(spec_ref_block(&self.oracle, bs, pb) == Some(target));
        }

        let bound = 2 * self.block_size;
        let mut pad_size: usize = 0;
        while pad_size < bound
            invariant
                self.wf(),
                bs == self.block_size as int,
                bound == 2 * self.block_size,
                0 <= pad_size <= bound,
                spec_detect_mode(&self.oracle, bs) == Some(pb),
                pb == whole_blocks_for_prefix as int,
                spec_ref_block(&self.oracle, bs, pb) == Some(target),
                a_block@ == target,
                forall|q: int|
                    0 <= q < pad_size ==> #[trigger] block_at(&self.oracle, bs, filler(q), pb)
                        != Some(target),
            decreases bound - pad_size,
        {
            let blocks = self.encrypt_same_symbols(pad_size);
            let hit = whole_blocks_for_prefix < blocks.len() && bytes_eq(
                blocks[whole_blocks_for_prefix].as_slice(),
                a_block.as_slice(),
            );
            proof {
                if pb < blocks@.len() {
                    assert(crate::aes_cypher::views_of(blocks@)[pb] == blocks@[pb]@);
                }
            }
            if hit {
                proof {
                    assert(block_at(&self.oracle, bs, filler(pad_size as int), pb) == Some(
                        target,
                    ));
                    lemma_first_pad_align(&self.oracle, bs, pb, target, pad_size as int);
                    assert(first_pad_from(&self.oracle, bs, pb, target, 0) == Some(
                        pad_size as int,
                    ));
                }
                return Ok(pad_size % self.block_size);
            }
            proof {
                assert(block_at(&self.oracle, bs, filler(pad_size as int), pb) != Some(target));
            }
            pad_size = pad_size + 1;
        }
        proof {
            lemma_first_pad_align(&self.oracle, bs, pb, target, 2 * bs);
            assert(first_pad_from(&self.oracle, bs, pb, target, 0) is None);
        }
        Err(AttackError::NotEcbMode)
    }

    /// Both prefix measurements at once: its whole blocks and the filler
    /// bytes that complete its last block.
    pub fn get_prefix_components(&self) -> (r: Result<(usize, usize), AttackError>)
        requires
            self.wf(),
        ensures
            res2_view(r) == spec_prefix_components(&self.oracle, self.block_size as int),
    {
        let prefix_blocks = match self.detect_mode() {
            Mode::Cbc => {
                return Err(AttackError::NotEcbMode);
            },
            Mode::Ebc { prefix_blocks } => prefix_blocks,
        };
        match self.detect_prefix_padding_size() {
            Err(e) => Err(e),
            Ok(prefix_padding_size) => Ok((prefix_blocks, prefix_padding_size)),
        }
    }

    /// The prefix's exact byte length.
    pub fn get_prefix_exact_size(&self) -> (r: Result<usize, AttackError>)
        requires
            self.wf(),
        ensures
            match r {
                Ok(ps) => spec_prefix_exact(&self.oracle, self.block_size as int) == Ok::<
                    int,
                    AttackError,
                >(ps as int),
                Err(e) => spec_prefix_exact(&self.oracle, self.block_size as int) == Err::<
                    int,
                    AttackError,
                >(e),
            },
    {
        let (prefix_blocks, prefix_padding_size) = match self.get_prefix_components() {
            Err(e) => {
                return Err(e);
            },
            Ok(t) => t,
        };
        if prefix_blocks > usize::MAX / self.block_size {
            return Err(AttackError::NotEcbMode);
        }
        proof {
            vstd::arithmetic::mul::lemma_mul_inequality(
                prefix_blocks as int,
                usize::MAX as int / self.block_size as int,
                self.block_size as int,
            );
            vstd::arithmetic::div_mod::lemma_fundamental_div_mod(
                usize::MAX as int,
                self.block_size as int,
            );
        }
        let total = prefix_blocks * self.block_size;
        if prefix_padding_size > total {
            return Err(AttackError::NotEcbMode);
        }
        Ok(total - prefix_padding_size)
    }

    /// The secret suffix's exact byte length.
    pub fn get_suffix_exact_sizes(&self) -> (r: Result<usize, AttackError>)
        requires
            self.wf(),
        ensures
            match r {
                Ok(ss) => spec_suffix_size(&self.oracle) == Ok::<int, AttackError>(ss as int),
                Err(e) => spec_suffix_size(&self.oracle) == Err::<int, AttackError>(e),
            },
    {
        let prefix_size = match self.get_prefix_exact_size() {
            Err(e) => {
                return Err(e);
            },
            Ok(ps) => ps,
        };
        if prefix_size > self.fixed_parts_size {
            return Err(AttackError::NotEcbMode);
        }
        Ok(self.fixed_parts_size - prefix_size)
    }

    /// Try every byte value, 255 included: append each to `short_payload`
    /// and look for the first whose ciphertext repeats `expected_block`
    /// at block `target_block_number`.
    pub fn detect_byte(
        &self,
        short_payload: &[u8],
        target_block_number: usize,
        expected_block: &[u8],
    ) -> (r: Option<u8>)
        requires
            self.wf(),
        ensures
            r == first_guess_from(
                &self.oracle,
                self.block_size as int,
                short_payload@,
                target_block_number as int,
                expected_block@,
                0,
            ),
    {
        let ghost bs = self.block_size as int;
        let mut g: u16 = 0;
        while g < 256
            invariant
                self.wf(),
                bs == self.block_size as int,
                g <= 256,
                forall|h: int|
                    0 <= h < g ==> #[trigger] block_at(
                        &self.oracle,
                        bs,
                        short_payload@.push(h as u8),
                        target_block_number as int,
                    ) != Some(expected_block@),
            decreases 256 - g,
        {
            let mut crafted_payload = vstd::slice::slice_to_vec(short_payload);
            crafted_payload.push(g as u8);
            let enc = self.encrypt_blocks(crafted_payload.as_slice());
            let hit = target_block_number < enc.len() && bytes_eq(
                enc[target_block_number].as_slice(),
                expected_block,
            );
            proof {
                if (target_block_number as int) < enc@.len() {
                    assert(crate::aes_cypher::views_of(enc@)[target_block_number as int]
                        == enc@[target_block_number as int]@);
                }
                assert(crafted_payload@ == short_payload@.push(g as u8));
            }
            if hit {
                proof {
                    assert(block_at(
                        &self.oracle,
                        bs,
                        short_payload@.push(g as u8),
                        target_block_number as int,
                    ) == Some(expected_block@));
                    lemma_first_guess_align(
                        &self.oracle,
                        bs,
                        short_payload@,
                        target_block_number as int,
                        expected_block@,
                        g as int,
                    );
                }
                return Some(g as u8);
            }
            proof {
                assert(block_at(
                    &self.oracle,
                    bs,
                    short_payload@.push(g as u8),
                    target_block_number as int,
                ) != Some(expected_block@));
            }
            g = g + 1;
        }
        proof {
            lemma_first_guess_align(
                &self.oracle,
                bs,
                short_payload@,
                target_block_number as int,
                expected_block@,
                256,
            );
        }
        None
    }

    /// Recover the secret suffix byte by byte: for each position, take a
    /// reference ciphertext block that ends at the next unknown byte,
    /// then try every value for that byte until the reference block
    /// reappears.
    pub fn detect_suffix(&self) -> (r: Result<Vec<u8>, AttackError>)
        requires
            self.wf(),
        ensures
            res_bytes_view(r) == spec_detect_suffix(&self.oracle),
    {
        let ghost bs = self.block_size as int;
        let (prefix_blocks, prefix_padding_size) = match self.get_prefix_components() {
            Err(e) => {
                return Err(e);
            },
            Ok(t) => t,
        };
        let suffix_size = match self.get_suffix_exact_sizes() {
            Err(e) => {
                return Err(e);
            },
            Ok(ss) => ss,
        };
        let ghost pb = prefix_blocks as int;
        let ghost pp = prefix_padding_size as int;
        let ghost ss = suffix_size as int;
        proof {
            assert(spec_detect_suffix(&self.oracle) == spec_recover_upto(
                &self.oracle,
                bs,
                pb,
                pp,
                ss,
            ));
        }

        let mut result: Vec<u8> = Vec::new();
        let mut byte_number: usize = 0;
        while byte_number < suffix_size
            invariant
                self.wf(),
                bs == self.block_size as int,
                pb == prefix_blocks as int,
                pp == prefix_padding_size as int,
                ss == suffix_size as int,
                prefix_padding_size < self.block_size,
                spec_detect_mode(&self.oracle, bs) == Some(pb),
                spec_detect_suffix(&self.oracle) == spec_recover_upto(
                    &self.oracle,
                    bs,
                    pb,
                    pp,
                    ss,
                ),
                byte_number <= suffix_size,
                result@.len() == byte_number,
                spec_recover_upto(&self.oracle, bs, pb, pp, byte_number as int) == Ok::<
                    Seq<u8>,
                    AttackError,
                >(result@),
            decreases suffix_size - byte_number,
        {
            let ghost n = byte_number as int;
            let ghost known = result@;
            let byte_offset = byte_number % self.block_size;
            let block_number = byte_number / self.block_size;
            let one_byte_shorter = self.block_size - byte_offset - 1;
            let short_payload = Self::same_symbols_data(prefix_padding_size + one_byte_shorter);
            proof {
                assert(short_payload@ == filler(short_len(pp, bs, n)));
            }

            let short_template = self.encrypt_blocks(short_payload.as_slice());
            let tlen = short_template.len();
            if block_number >= tlen || prefix_blocks >= tlen - block_number {
                proof {
                    assert(spec_position_ref(&self.oracle, bs, pb, pp, n) is None);
                    assert(spec_recover_upto(&self.oracle, bs, pb, pp, n + 1)
                        == Err::<Seq<u8>, AttackError>(AttackError::ByteRecoveryFailed(
                        byte_number,
                    )));
                    lemma_recover_upto_err(&self.oracle, bs, pb, pp, n + 1, ss);
                }
                return Err(AttackError::ByteRecoveryFailed(byte_number));
            }
            let target_index = prefix_blocks + block_number;
            let short_block = &short_template[target_index];
            proof {
                assert(crate::aes_cypher::views_of(short_template@)[target_index as int]
                    == short_template@[target_index as int]@);
                assert(spec_position_ref(&self.oracle, bs, pb, pp, n) == Some(short_block@));
            }

            let brute_force_payload: Vec<u8> = if block_number == 0 {
                let mut payload = short_payload;
                payload.extend_from_slice(result.as_slice());
                payload
            } else {
                proof {
                    vstd::arithmetic::div_mod::lemma_fundamental_div_mod(
                        byte_number as int,
                        self.block_size as int,
                    );
                    vstd::arithmetic::mul::lemma_mul_inequality(
                        1,
                        byte_number as int / (self.block_size as int),
                        self.block_size as int,
                    );
                }
                let window_start = byte_number + 1 - self.block_size;
                let mut payload = Self::same_symbols_data(prefix_padding_size);
                payload.extend_from_slice(
                    vstd::slice::slice_subrange(result.as_slice(), window_start, byte_number),
                );
                payload
            };
            proof {
                assert(brute_force_payload@ =~= brute_payload(pp, bs, known, n));
            }

            let detected = self.detect_byte(
                brute_force_payload.as_slice(),
                prefix_blocks,
                short_block.as_slice(),
            );
            match detected {
                None => {
                    proof {
                        assert(spec_recover_next(&self.oracle, bs, pb, pp, known, n) is None);
                        assert(spec_recover_upto(&self.oracle, bs, pb, pp, n + 1)
                            == Err::<Seq<u8>, AttackError>(AttackError::ByteRecoveryFailed(
                            byte_number,
                        )));
                        lemma_recover_upto_err(&self.oracle, bs, pb, pp, n + 1, ss);
                    }
                    return Err(AttackError::ByteRecoveryFailed(byte_number));
                },
                Some(b) => {
                    result.push(b);
                    proof {
                        assert(spec_recover_next(&self.oracle, bs, pb, pp, known, n) == Some(b));
                        assert(spec_recover_upto(&self.oracle, bs, pb, pp, n + 1) == Ok::<
                            Seq<u8>,
                            AttackError,
                        >(known.push(b)));
                        assert(result@ == known.push(b));
                    }
                },
            }
            byte_number = byte_number + 1;
        }
        Ok(result)
    }
}

/// Probe the oracle with growing fillers until the ciphertext grows; the
/// growth is the block size, the empty-payload ciphertext length minus
/// the filler length the length of the hidden content.
pub fn detect_block_size<O: Oracle>(oracle: &O) -> (r: Result<(usize, usize), AttackError>)
    ensures
        res2_view(r) == spec_detect_block_size(oracle),
{
    EbcBreaking::detect_block_size(oracle)
}

/// Run the whole attack: detect the block size, refuse non-ECB oracles,
/// locate the prefix, and recover the secret suffix byte by byte.
pub fn recover_suffix<O: Oracle>(oracle: O) -> (r: Result<Vec<u8>, AttackError>)
    ensures
        res_bytes_view(r) == spec_detect_suffix(&oracle),
{
    match EbcBreaking::new(oracle) {
        Err(e) => Err(e),
        Ok(engine) => engine.detect_suffix(),
    }
}

} // verus!
