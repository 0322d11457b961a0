use vstd::prelude::*;

use crate::aes_cypher::concat_blocks;
use crate::attack::{
    filler, first_growth_from, resp_len, spec_detect_block_size, AttackError, Oracle,
    BLOCKS_TO_VERIFY, BLOCK_SIZE_PROBE_CAP, FILLER_BYTE, MAX_BLOCK_SIZE,
};
use crate::pad::pad7;

verus! {

use vstd::arithmetic::div_mod::{lemma_fundamental_div_mod, lemma_fundamental_div_mod_converse};
use vstd::arithmetic::mul::lemma_mul_is_distributive_sub_other_way;

/// `data` enciphered block by block with an abstract block cipher `c`;
/// `data` is assumed padded to whole `b`-byte blocks.
pub open spec fn ecb_model_blocks(c: spec_fn(Seq<u8>) -> Seq<u8>, b: int, data: Seq<u8>) -> Seq<
    Seq<u8>,
> {
    Seq::new((data.len() as int / b) as nat, |i: int| c(data.subrange(b * i, b * (i + 1))))
}

/// `o` behaves as a synthetic ECB oracle built on the block cipher `c`
/// with block size `b`, hidden prefix `prefix` and hidden suffix
/// `suffix`: every answer is the blockwise encipherment of the padded
/// concatenation, and the cipher maps blocks to `b`-byte blocks.
pub open spec fn is_ecb_oracle<O: Oracle>(
    o: &O,
    c: spec_fn(Seq<u8>) -> Seq<u8>,
    b: int,
    prefix: Seq<u8>,
    suffix: Seq<u8>,
) -> bool {
    &&& 2 <= b <= 255
    &&& forall|blk: Seq<u8>| (#[trigger] c(blk)).len() == b
    &&& forall|d: Seq<u8>| #[trigger] o.response(d) == concat_blocks(
        ecb_model_blocks(c, b, pad7(prefix + d + suffix, b)),
    )
}

/// Every byte of `s` differs from the engine's filler byte.
pub open spec fn avoids_filler(s: Seq<u8>) -> bool {
    forall|i: int| 0 <= i < s.len() ==> s[i] != FILLER_BYTE
}

/// `c` never maps two distinct `b`-byte blocks to the same ciphertext
/// block, as a block cipher's encryption never does under a fixed key.
pub open spec fn injective_cipher(c: spec_fn(Seq<u8>) -> Seq<u8>, b: int) -> bool {
    forall|x: Seq<u8>, y: Seq<u8>|
        x.len() == b && y.len() == b && #[trigger] c(x) == #[trigger] c(y) ==> x == y
}

/// How many whole blocks a prefix of length `p` occupies.
pub open spec fn prefix_whole_blocks(p: int, b: int) -> int {
    if p % b == 0 {
        p / b
    } else {
        p / b + 1
    }
}

/// Blocks of uniform width laid end to end have length width times count.
proof fn lemma_concat_blocks_len(bs: Seq<Seq<u8>>, w: int)
    requires
        w >= 0,
        forall|i: int| 0 <= i < bs.len() ==> (#[trigger] bs[i]).len() == w,
    ensures
        concat_blocks(bs).len() == w * bs.len(),
    decreases bs.len(),
{
    if bs.len() == 0 {
    } else {
        lemma_concat_blocks_len(bs.drop_last(), w);
        lemma_mul_is_distributive_sub_other_way(w, bs.len() as int, 1);
    }
}

/// The length of a synthetic ECB oracle's answer: the input length plus
/// the prefix, the suffix, and a full PKCS#7 pad.
proof fn lemma_ecb_response_len<O: Oracle>(
    o: &O,
    c: spec_fn(Seq<u8>) -> Seq<u8>,
    b: int,
    prefix: Seq<u8>,
    suffix: Seq<u8>,
    n: int,
)
    requires
        is_ecb_oracle(o, c, b, prefix, suffix),
        n >= 0,
    ensures
        ({
            let m = prefix.len() + n + suffix.len();
            resp_len(o, n) == m + b - m % b
        }),
{
    let d = filler(n);
    let input = prefix + d + suffix;
    let m = input.len() as int;
    let padded = pad7(input, b);
    assert(padded.len() == m + (b - m % b));
    let blocks = ecb_model_blocks(c, b, padded);
    assert(o.response(d) == concat_blocks(blocks));
    assert(forall|i: int| 0 <= i < blocks.len() ==> (#[trigger] blocks[i]).len() == b);
    lemma_concat_blocks_len(blocks, b);
    let padlen = padded.len() as int;
    assert(padlen % b == 0) by {
        lemma_fundamental_div_mod(m, b);
        assert((m / b + 1) * b == b * (m / b) + b) by (nonlinear_arith);
        lemma_fundamental_div_mod_converse(padlen, b, m / b + 1, 0);
    }
    assert(b * (padlen / b) == padlen) by {
        lemma_fundamental_div_mod(padlen, b);
    }
}

/// Laying blocks end to end can also be read off from the front.
proof fn lemma_concat_front(bs: Seq<Seq<u8>>)
    requires
        bs.len() >= 1,
    ensures
        concat_blocks(bs) =~= bs[0] + concat_blocks(bs.drop_first()),
    decreases bs.len(),
{
    if bs.len() == 1 {
        assert(bs.drop_last() =~= Seq::<Seq<u8>>::empty());
        assert(bs.drop_first() =~= Seq::<Seq<u8>>::empty());
    } else {
        lemma_concat_front(bs.drop_last());
        assert(bs.drop_last()[0] == bs[0]);
        assert(bs.drop_last().drop_first() =~= bs.drop_first().drop_last());
        assert(bs.drop_first().last() == bs.last());
    }
}

/// Cutting uniform blocks laid end to end gives the blocks back.
proof fn lemma_blocks_of_concat(bs: Seq<Seq<u8>>, w: int)
    requires
        w >= 1,
        forall|i: int| 0 <= i < bs.len() ==> (#[trigger] bs[i]).len() == w,
    ensures
        crate::attack::blocks_of(concat_blocks(bs), w) =~= bs,
    decreases bs.len(),
{
    lemma_concat_blocks_len(bs, w);
    if bs.len() == 0 {
    } else {
        lemma_concat_front(bs);
        let data = concat_blocks(bs);
        let rest = concat_blocks(bs.drop_first());
        lemma_concat_blocks_len(bs.drop_first(), w);
        lemma_blocks_of_concat(bs.drop_first(), w);
        if bs.len() == 1 {
            assert(data =~= bs[0]);
            assert(crate::attack::blocks_of(data, w) =~= seq![bs[0]]);
            assert(seq![bs[0]] =~= bs);
        } else {
            assert(data.len() > w);
            assert(data.take(w) =~= bs[0]);
            assert(data.skip(w) =~= rest);
            assert(crate::attack::blocks_of(data, w) =~= seq![bs[0]] + bs.drop_first());
            assert(seq![bs[0]] + bs.drop_first() =~= bs);
        }
    }
}

/// How a synthetic ECB oracle's answer to `n` filler bytes falls into
/// blocks: one enciphered block for each block of the padded input.
proof fn lemma_ecb_response_blocks<O: Oracle>(
    o: &O,
    c: spec_fn(Seq<u8>) -> Seq<u8>,
    b: int,
    prefix: Seq<u8>,
    suffix: Seq<u8>,
    n: int,
)
    requires
        is_ecb_oracle(o, c, b, prefix, suffix),
        n >= 0,
    ensures
        ({
            let padded = pad7(prefix + filler(n) + suffix, b);
            crate::attack::blocks_of(o.response(filler(n)), b) =~= ecb_model_blocks(c, b, padded)
        }),
{
    let padded = pad7(prefix + filler(n) + suffix, b);
    let blocks = ecb_model_blocks(c, b, padded);
    assert(forall|i: int| 0 <= i < blocks.len() ==> (#[trigger] blocks[i]).len() == b);
    lemma_blocks_of_concat(blocks, b);
}

/// The byte a synthetic oracle's padded input holds at position `t`:
/// prefix, then filler, then suffix, then the PKCS#7 tail.
pub open spec fn model_byte(prefix: Seq<u8>, suffix: Seq<u8>, b: int, m: int, t: int) -> u8 {
    let p = prefix.len() as int;
    let s = suffix.len() as int;
    if t < p {
        prefix[t]
    } else if t < p + m {
        FILLER_BYTE
    } else if t < p + m + s {
        suffix[t - p - m]
    } else {
        (b - (p + m + s) % b) as u8
    }
}

/// The shape of the padded input behind a filler payload of length `m`:
/// its length is the next multiple of the block size above the raw
/// parts, and each of its bytes is the corresponding model byte.
proof fn lemma_padded_shape(prefix: Seq<u8>, suffix: Seq<u8>, b: int, m: int)
    requires
        2 <= b <= 255,
        m >= 0,
    ensures
        ({
            let raw = prefix.len() + m + suffix.len();
            let padded = pad7(prefix + filler(m) + suffix, b);
            &&& padded.len() == raw + b - raw % b
            &&& padded.len() as int % b == 0
            &&& raw < padded.len()
            &&& forall|t: int|
                0 <= t < padded.len() ==> padded[t] == model_byte(prefix, suffix, b, m, t)
        }),
{
    let p = prefix.len() as int;
    let s = suffix.len() as int;
    let raw = p + m + s;
    let input = prefix + filler(m) + suffix;
    let padded = pad7(input, b);
    let k = b - raw % b;
    lemma_fundamental_div_mod(raw, b);
    assert(padded.len() == raw + k);
    assert(padded.len() as int % b == 0) by {
        assert((raw / b + 1) * b == b * (raw / b) + b) by (nonlinear_arith);
        lemma_fundamental_div_mod_converse(raw + k, b, raw / b + 1, 0);
    }
    assert forall|t: int| 0 <= t < padded.len() implies padded[t] == model_byte(
        prefix,
        suffix,
        b,
        m,
        t,
    ) by {
        if t < p {
            assert(padded[t] == prefix[t]);
        } else if t < p + m {
            assert(padded[t] == filler(m)[t - p]);
        } else if t < raw {
            assert(padded[t] == suffix[t - p - m]);
        } else {
            assert(padded[t] == k as u8);
        }
    }
}

/// A block of the oracle's answer whose span lies wholly inside the
/// filler is the enciphered filler block.
proof fn lemma_filler_block<O: Oracle>(
    o: &O,
    c: spec_fn(Seq<u8>) -> Seq<u8>,
    b: int,
    prefix: Seq<u8>,
    suffix: Seq<u8>,
    m: int,
    i: int,
)
    requires
        is_ecb_oracle(o, c, b, prefix, suffix),
        m >= 0,
        0 <= i,
        prefix.len() <= b * i,
        b * i + b <= prefix.len() + m,
    ensures
        ({
            let bks = crate::attack::blocks_of(o.response(filler(m)), b);
            i < bks.len() && bks[i] == c(filler(b))
        }),
{
    let p = prefix.len() as int;
    let raw = p + m + suffix.len();
    lemma_padded_shape(prefix, suffix, b, m);
    lemma_ecb_response_blocks(o, c, b, prefix, suffix, m);
    let padded = pad7(prefix + filler(m) + suffix, b);
    let blocks = ecb_model_blocks(c, b, padded);
    assert(padded.len() >= b * i + b);
    assert(i < padded.len() as int / b) by {
        lemma_fundamental_div_mod(padded.len() as int, b);
        assert(b * (padded.len() as int / b) >= b * i + b);
        if padded.len() as int / b <= i {
            assert(b * (padded.len() as int / b) <= b * i) by (nonlinear_arith)
                requires
                    padded.len() as int / b <= i,
                    b >= 0,
            ;
        }
    }
    assert(b * (i + 1) == b * i + b) by (nonlinear_arith);
    let sub = padded.subrange(b * i, b * i + b);
    assert(sub =~= filler(b)) by {
        assert forall|j: int| 0 <= j < b implies sub[j] == FILLER_BYTE by {
            assert(padded[b * i + j] == model_byte(prefix, suffix, b, m, b * i + j));
        }
    }
    assert(blocks[i] == c(sub));
}

/// A block of the oracle's answer that covers a position outside both
/// the prefix and the filler differs from the enciphered filler block,
/// because the byte there is a suffix or padding byte, never the filler.
proof fn lemma_nonfiller_block<O: Oracle>(
    o: &O,
    c: spec_fn(Seq<u8>) -> Seq<u8>,
    b: int,
    prefix: Seq<u8>,
    suffix: Seq<u8>,
    m: int,
    i: int,
    t0: int,
)
    requires
        is_ecb_oracle(o, c, b, prefix, suffix),
        injective_cipher(c, b),
        avoids_filler(prefix),
        avoids_filler(suffix),
        b < FILLER_BYTE as int,
        m >= 0,
        0 <= i,
        b * i <= t0 < b * i + b,
        t0 < prefix.len() || t0 >= prefix.len() + m,
        t0 < pad7(prefix + filler(m) + suffix, b).len(),
    ensures
        ({
            let bks = crate::attack::blocks_of(o.response(filler(m)), b);
            i < bks.len() && bks[i] != c(filler(b))
        }),
{
    let p = prefix.len() as int;
    let s = suffix.len() as int;
    let raw = p + m + s;
    lemma_padded_shape(prefix, suffix, b, m);
    lemma_ecb_response_blocks(o, c, b, prefix, suffix, m);
    let padded = pad7(prefix + filler(m) + suffix, b);
    let blocks = ecb_model_blocks(c, b, padded);
    assert(padded.len() >= b * i + b) by {
        lemma_fundamental_div_mod(padded.len() as int, b);
        if padded.len() < b * i + b {
            assert(padded.len() as int / b <= i) by (nonlinear_arith)
                requires
                    b >= 1,
                    padded.len() < b * i + b,
                    padded.len() as int % b == 0,
                    b * (padded.len() as int / b) == padded.len(),
                    0 <= i,
            ;
            assert(b * (padded.len() as int / b) <= b * i) by (nonlinear_arith)
                requires
                    padded.len() as int / b <= i,
                    b >= 0,
            ;
        }
    }
    assert(i < padded.len() as int / b) by {
        lemma_fundamental_div_mod(padded.len() as int, b);
        if padded.len() as int / b <= i {
            assert(b * (padded.len() as int / b) <= b * i) by (nonlinear_arith)
                requires
                    padded.len() as int / b <= i,
                    b >= 0,
            ;
        }
    }
    assert(b * (i + 1) == b * i + b) by (nonlinear_arith);
    let sub = padded.subrange(b * i, b * i + b);
    assert(padded[t0] == model_byte(prefix, suffix, b, m, t0));
    assert(padded[t0] != FILLER_BYTE) by {
        if t0 >= raw {
            lemma_fundamental_div_mod(raw, b);
            assert(1 <= b - raw % b <= b);
        }
    }
    assert(sub[t0 - b * i] != FILLER_BYTE);
    assert(sub.len() == b);
    assert(filler(b).len() == b);
    if c(sub) == c(filler(b)) {
        assert(sub == filler(b));
        assert(sub[t0 - b * i] == FILLER_BYTE);
    }
    assert(blocks[i] == c(sub));
}

/// Block-size detection is exact on every synthetic ECB oracle: it
/// returns the cipher's block size and the combined length of the
/// hidden prefix and suffix, whatever those are.
pub proof fn lemma_block_size_detection_on_ecb<O: Oracle>(
    o: &O,
    c: spec_fn(Seq<u8>) -> Seq<u8>,
    b: int,
    prefix: Seq<u8>,
    suffix: Seq<u8>,
)
    requires
        is_ecb_oracle(o, c, b, prefix, suffix),
    ensures
        spec_detect_block_size(o) == Ok::<(int, int), AttackError>(
            (b, prefix.len() + suffix.len() as int),
        ),
{
    let p = prefix.len() as int;
    let s = suffix.len() as int;
    let fixed = p + s;
    let r = fixed % b;
    let n0 = b - r;
    assert(0 <= r < b) by {
        lemma_fundamental_div_mod(fixed, b);
    }

    lemma_ecb_response_len(o, c, b, prefix, suffix, 0);
    assert(resp_len(o, 0) == fixed + b - r);

    assert forall|j: int| 1 <= j < n0 implies #[trigger] resp_len(o, j) == resp_len(o, 0) by {
        lemma_ecb_response_len(o, c, b, prefix, suffix, j);
        assert((fixed + j) % b == r + j) by {
            lemma_fundamental_div_mod(fixed, b);
            lemma_fundamental_div_mod_converse(fixed + j, b, fixed / b, r + j);
        }
    }

    lemma_ecb_response_len(o, c, b, prefix, suffix, n0);
    assert((fixed + n0) % b == 0) by {
        lemma_fundamental_div_mod(fixed, b);
        assert((fixed / b + 1) * b == b * (fixed / b) + b) by (nonlinear_arith);
        lemma_fundamental_div_mod_converse(fixed + n0, b, fixed / b + 1, 0);
    }
    assert(resp_len(o, n0) == fixed + n0 + b);
    assert(resp_len(o, n0) != resp_len(o, 0));

    crate::attack::lemma_first_growth_align(o, n0);
    assert(first_growth_from(o, n0) == Some(n0));
    assert(first_growth_from(o, 1) == Some(n0));

    assert(resp_len(o, n0) - resp_len(o, 0) == b);
    assert(resp_len(o, 0) - n0 == fixed);
    assert(resp_len(o, 0) >= n0);
}

/// Prefix location is exact on every synthetic ECB oracle whose block
/// cipher is injective and whose hidden parts avoid the filler byte:
/// mode detection counts the prefix's whole blocks, padding detection
/// finds the filler that completes its last block, and their
/// combination is the prefix's exact byte length.
pub proof fn lemma_prefix_location_on_ecb<O: Oracle>(
    o: &O,
    c: spec_fn(Seq<u8>) -> Seq<u8>,
    b: int,
    prefix: Seq<u8>,
    suffix: Seq<u8>,
)
    requires
        is_ecb_oracle(o, c, b, prefix, suffix),
        injective_cipher(c, b),
        avoids_filler(prefix),
        avoids_filler(suffix),
        b < FILLER_BYTE as int,
        prefix.len() < 9 * b,
    ensures
        crate::attack::spec_detect_mode(o, b) == Some(
            prefix_whole_blocks(prefix.len() as int, b),
        ),
        crate::attack::spec_prefix_padding(o, b) == Ok::<int, AttackError>(
            prefix_whole_blocks(prefix.len() as int, b) * b - prefix.len(),
        ),
        crate::attack::spec_prefix_exact(o, b) == Ok::<int, AttackError>(prefix.len() as int),
{
    let p = prefix.len() as int;
    let s = suffix.len() as int;
    let pbv = prefix_whole_blocks(p, b);
    let ppv = pbv * b - p;
    let k10 = BLOCKS_TO_VERIFY as int;

    lemma_fundamental_div_mod(p, b);
    assert(b * (p / b) == (p / b) * b) by (nonlinear_arith);
    if p % b != 0 {
        assert(pbv * b == (p / b) * b + b) by (nonlinear_arith)
            requires
                pbv == p / b + 1,
        ;
    }
    assert(0 <= ppv < b);
    assert(p <= pbv * b);
    assert(pbv <= 9) by {
        if p / b >= 9 {
            vstd::arithmetic::mul::lemma_mul_inequality(9, p / b, b);
            assert(p >= 9 * b);
        }
    }
    assert(pbv >= 0);

    // mode detection: the first run of equal blocks starts right after
    // the prefix's whole blocks
    let m12 = b * (k10 + 2);
    lemma_padded_shape(prefix, suffix, b, m12);
    lemma_ecb_response_blocks(o, c, b, prefix, suffix, m12);
    let bks = crate::attack::blocks_of(o.response(filler(m12)), b);

    assert forall|i: int| pbv <= i < pbv + k10 implies #[trigger] bks[i] == c(filler(b)) && i
        < bks.len() by {
        assert(b * i >= b * pbv) by (nonlinear_arith)
            requires
                i >= pbv,
                b >= 0,
        ;
        assert(b * i + b <= b * (pbv + k10)) by (nonlinear_arith)
            requires
                i < pbv + k10,
                b >= 1,
        ;
        assert(b * (pbv + k10) == b * pbv + b * k10) by (nonlinear_arith);
        assert(b * pbv == pbv * b) by (nonlinear_arith);
        lemma_filler_block(o, c, b, prefix, suffix, m12, i);
    }
    assert(pbv <= pbv + k10 - 1 < pbv + k10);
    assert(bks[pbv + k10 - 1] == c(filler(b)));
    assert(pbv + k10 - 1 < bks.len());
    assert(pbv + k10 <= bks.len());
    assert(crate::attack::is_run(bks, k10, pbv));

    assert forall|q: int| 0 <= q < pbv implies !(#[trigger] crate::attack::is_run(
        bks,
        k10,
        q,
    )) by {
        if crate::attack::is_run(bks, k10, q) {
            assert(q <= pbv < q + k10);
            assert(bks[pbv] == bks[q]);
            assert(b * q + b <= b * pbv) by (nonlinear_arith)
                requires
                    q < pbv,
                    b >= 1,
            ;
            assert(b * pbv == pbv * b) by (nonlinear_arith);
            lemma_padded_shape(prefix, suffix, b, m12);
            lemma_nonfiller_block(o, c, b, prefix, suffix, m12, q, b * q);
            assert(bks[q] != c(filler(b)));
        }
    }
    crate::attack::lemma_first_run_align(bks, k10, 0, pbv);
    assert(crate::attack::first_run_from(bks, k10, pbv) == Some(pbv));
    assert(crate::attack::spec_detect_mode(o, b) == Some(pbv));

    // the reference block: a whole block of filler behind the prefix
    let m2 = 2 * b;
    assert(b * pbv == pbv * b) by (nonlinear_arith);
    lemma_filler_block(o, c, b, prefix, suffix, m2, pbv);
    let target = c(filler(b));
    assert(crate::attack::spec_ref_block(o, b, pbv) == Some(target));

    // the pad scan: the reference block reappears first once the pad
    // fills the prefix's last block and one whole block beyond it
    let q0 = ppv + b;
    assert forall|q: int| 0 <= q < q0 implies #[trigger] crate::attack::block_at(
        o,
        b,
        filler(q),
        pbv,
    ) != Some(target) by {
        lemma_padded_shape(prefix, suffix, b, q);
        lemma_ecb_response_blocks(o, c, b, prefix, suffix, q);
        let padq = pad7(prefix + filler(q) + suffix, b);
        let bq = crate::attack::blocks_of(o.response(filler(q)), b);
        assert(bq.len() == padq.len() as int / b);
        if pbv < bq.len() {
            assert(padq.len() >= b * (pbv + 1)) by {
                lemma_fundamental_div_mod(padq.len() as int, b);
                assert(b * (padq.len() as int / b) >= b * (pbv + 1)) by (nonlinear_arith)
                    requires
                        padq.len() as int / b >= pbv + 1,
                        b >= 0,
                ;
            }
            assert(b * (pbv + 1) == b * pbv + b) by (nonlinear_arith);
            assert(b * pbv == pbv * b) by (nonlinear_arith);
            let t0 = if q >= ppv {
                p + q
            } else {
                b * pbv
            };
            lemma_nonfiller_block(o, c, b, prefix, suffix, q, pbv, t0);
            assert(bq[pbv] != target);
        }
    }
    lemma_filler_block(o, c, b, prefix, suffix, q0, pbv);
    assert(crate::attack::block_at(o, b, filler(q0), pbv) == Some(target));
    assert(0 <= q0 < 2 * b);
    crate::attack::lemma_first_pad_align(o, b, pbv, target, q0);
    assert(crate::attack::first_pad_from(o, b, pbv, target, q0) == Some(q0));
    assert(crate::attack::first_pad_from(o, b, pbv, target, 0) == Some(q0));
    assert(q0 % b == ppv) by {
        assert(q0 == 1 * b + ppv) by (nonlinear_arith)
            requires
                q0 == ppv + b,
        ;
        lemma_fundamental_div_mod_converse(q0, b, 1, ppv);
    }
    assert(crate::attack::spec_prefix_padding(o, b) == Ok::<int, AttackError>(ppv));

    // the exact prefix length follows
    assert(crate::attack::spec_prefix_components(o, b) == Ok::<(int, int), AttackError>(
        (pbv, ppv),
    ));
    assert(pbv <= usize::MAX as int / b) by {
        lemma_fundamental_div_mod(usize::MAX as int, b);
        if usize::MAX as int / b <= 8 {
            assert(b * (usize::MAX as int / b) <= b * 8) by (nonlinear_arith)
                requires
                    usize::MAX as int / b <= 8,
                    b >= 0,
            ;
        }
    }
    assert(0 <= ppv <= pbv * b);
    assert(crate::attack::spec_prefix_exact(o, b) == Ok::<int, AttackError>(p));
}

/// The byte the padded input holds at position `t` for an arbitrary
/// payload `d`: prefix, then payload, then suffix, then the PKCS#7 tail.
pub open spec fn layout_byte(prefix: Seq<u8>, d: Seq<u8>, suffix: Seq<u8>, b: int, t: int) -> u8 {
    let p = prefix.len() as int;
    let raw = prefix.len() + d.len() + suffix.len() as int;
    if t < p {
        prefix[t]
    } else if t < p + d.len() {
        d[t - p]
    } else if t < raw {
        suffix[t - p - d.len()]
    } else {
        (b - raw % b) as u8
    }
}

/// The shape of the padded input behind an arbitrary payload `d`.
proof fn lemma_padded_layout(prefix: Seq<u8>, d: Seq<u8>, suffix: Seq<u8>, b: int)
    requires
        2 <= b <= 255,
    ensures
        ({
            let raw = prefix.len() + d.len() + suffix.len() as int;
            let padded = pad7(prefix + d + suffix, b);
            &&& padded.len() == raw + b - raw % b
            &&& padded.len() as int % b == 0
            &&& raw < padded.len()
            &&& forall|t: int|
                0 <= t < padded.len() ==> padded[t] == layout_byte(prefix, d, suffix, b, t)
        }),
{
    let p = prefix.len() as int;
    let raw = p + d.len() + suffix.len();
    let padded = pad7(prefix + d + suffix, b);
    let k = b - raw % b;
    lemma_fundamental_div_mod(raw, b);
    assert(padded.len() == raw + k);
    assert(padded.len() as int % b == 0) by {
        assert((raw / b + 1) * b == b * (raw / b) + b) by (nonlinear_arith);
        lemma_fundamental_div_mod_converse(raw + k, b, raw / b + 1, 0);
    }
    assert forall|t: int| 0 <= t < padded.len() implies padded[t] == layout_byte(
        prefix,
        d,
        suffix,
        b,
        t,
    ) by {
        if t < p {
            assert(padded[t] == prefix[t]);
        } else if t < p + d.len() {
            assert(padded[t] == d[t - p]);
        } else if t < raw {
            assert(padded[t] == suffix[t - p - d.len()]);
        } else {
            assert(padded[t] == k as u8);
        }
    }
}

/// How a synthetic ECB oracle's answer to an arbitrary payload falls
/// into blocks: one enciphered block per block of the padded input.
proof fn lemma_ecb_payload_blocks<O: Oracle>(
    o: &O,
    c: spec_fn(Seq<u8>) -> Seq<u8>,
    b: int,
    prefix: Seq<u8>,
    suffix: Seq<u8>,
    d: Seq<u8>,
)
    requires
        is_ecb_oracle(o, c, b, prefix, suffix),
    ensures
        ({
            let padded = pad7(prefix + d + suffix, b);
            crate::attack::blocks_of(o.response(d), b) =~= ecb_model_blocks(c, b, padded)
        }),
{
    let padded = pad7(prefix + d + suffix, b);
    let blocks = ecb_model_blocks(c, b, padded);
    assert(forall|i: int| 0 <= i < blocks.len() ==> (#[trigger] blocks[i]).len() == b);
    lemma_blocks_of_concat(blocks, b);
}

/// What stands before the unknown byte in the target block at position
/// `n`: alignment filler and the suffix bytes recovered so far.
pub open spec fn window_before(suffix: Seq<u8>, b: int, n: int) -> Seq<u8> {
    if n / b == 0 {
        filler(b - 1 - n % b) + suffix.take(n)
    } else {
        suffix.subrange(n - b + 1, n)
    }
}

/// Recovering one byte succeeds and is exact on a synthetic ECB oracle:
/// with the suffix known up to position `n`, the first matching trial
/// byte is the suffix byte at `n`.
#[verifier::rlimit(60)]
proof fn lemma_recover_step_on_ecb<O: Oracle>(
    o: &O,
    c: spec_fn(Seq<u8>) -> Seq<u8>,
    b: int,
    prefix: Seq<u8>,
    suffix: Seq<u8>,
    n: int,
)
    requires
        is_ecb_oracle(o, c, b, prefix, suffix),
        injective_cipher(c, b),
        avoids_filler(prefix),
        avoids_filler(suffix),
        b < FILLER_BYTE as int,
        prefix.len() < 9 * b,
        0 <= n < suffix.len(),
    ensures
        ({
            let p = prefix.len() as int;
            let pbv = prefix_whole_blocks(p, b);
            let ppv = pbv * b - p;
            crate::attack::spec_recover_next(o, b, pbv, ppv, suffix.take(n), n) == Some(
                suffix[n],
            )
        }),
{
    let p = prefix.len() as int;
    let s = suffix.len() as int;
    let pbv = prefix_whole_blocks(p, b);
    let ppv = pbv * b - p;
    lemma_fundamental_div_mod(p, b);
    assert(b * (p / b) == (p / b) * b) by (nonlinear_arith);
    if p % b != 0 {
        assert(pbv * b == (p / b) * b + b) by (nonlinear_arith)
            requires
                pbv == p / b + 1,
        ;
    }
    assert(0 <= ppv < b);
    assert(p <= pbv * b);
    assert(b * pbv == pbv * b) by (nonlinear_arith);

    let off = n % b;
    let blk = n / b;
    lemma_fundamental_div_mod(n, b);
    assert(0 <= off < b);
    assert(blk >= 0) by {
        if blk < 0 {
            assert(b * blk <= b * (-1)) by (nonlinear_arith)
                requires
                    blk <= -1,
                    b >= 1,
            ;
        }
    }
    assert(n == b * blk + off);

    // the reference block for position n
    let m = ppv + b - 1 - off;
    let win = window_before(suffix, b, n);
    let refplain = win + seq![suffix[n]];
    assert(win.len() == b - 1) by {
        if blk == 0 {
            assert(b * blk == 0) by (nonlinear_arith)
                requires
                    blk == 0,
            ;
            assert(n == off);
        } else {
            assert(b * blk >= b * 1) by (nonlinear_arith)
                requires
                    blk >= 1,
                    b >= 0,
            ;
        }
    }
    let i = pbv + blk;
    assert(b * i == b * pbv + b * blk) by (nonlinear_arith)
        requires
            i == pbv + blk,
    ;
    if blk == 0 {
        assert(b * blk == 0) by (nonlinear_arith)
            requires
                blk == 0,
        ;
        assert(n == off);
    } else {
        assert(b * blk >= b) by (nonlinear_arith)
            requires
                blk >= 1,
                b >= 0,
        ;
        assert(n >= b);
    }

    lemma_padded_shape(prefix, suffix, b, m);
    lemma_ecb_response_blocks(o, c, b, prefix, suffix, m);
    let padm = pad7(prefix + filler(m) + suffix, b);
    let bksm = crate::attack::blocks_of(o.response(filler(m)), b);
    // the block ends exactly after suffix byte n
    assert(b * i + b == p + m + n + 1);
    assert(b * i + b <= p + m + s);
    assert(padm.len() >= b * (i + 1)) by {
        assert(b * (i + 1) == b * i + b) by (nonlinear_arith);
    }
    assert(i < padm.len() as int / b) by {
        lemma_fundamental_div_mod(padm.len() as int, b);
        if padm.len() as int / b <= i {
            assert(b * (padm.len() as int / b) <= b * i) by (nonlinear_arith)
                requires
                    padm.len() as int / b <= i,
                    b >= 0,
            ;
            assert(b * (i + 1) == b * i + b) by (nonlinear_arith);
        }
    }
    let refsub = padm.subrange(b * i, b * i + b);
    assert(refsub =~= refplain) by {
        assert forall|j: int| 0 <= j < b implies refsub[j] == refplain[j] by {
            let t = b * i + j;
            assert(padm[t] == model_byte(prefix, suffix, b, m, t));
            assert(t - p - m == b * blk + j - (b - 1) + off);
            if blk == 0 {
                assert(n == off);
                if j < b - 1 - off {
                    assert(padm[t] == FILLER_BYTE);
                    assert(refplain[j] == filler(b - 1 - off)[j]);
                } else {
                    assert(padm[t] == suffix[j - (b - 1 - off)]);
                    if j < b - 1 {
                        assert(refplain[j] == suffix.take(n)[j - (b - 1 - off)]);
                    } else {
                        assert(refplain[j] == suffix[n]);
                    }
                }
            } else {
                assert(b * blk >= b * 1) by (nonlinear_arith)
                    requires
                        blk >= 1,
                        b >= 0,
                ;
                assert(t >= p + m);
                assert(padm[t] == suffix[n - b + 1 + j]);
                if j < b - 1 {
                    assert(refplain[j] == suffix.subrange(n - b + 1, n)[j]);
                } else {
                    assert(refplain[j] == suffix[n]);
                }
            }
        }
    }
    assert(b * (i + 1) == b * i + b) by (nonlinear_arith);
    assert(bksm.len() == padm.len() as int / b);
    assert(bksm[i] == c(refsub));
    assert(bksm[i] == c(refplain));
    assert(crate::attack::short_len(ppv, b, n) == m);
    assert(crate::attack::spec_position_ref(o, b, pbv, ppv, n) == Some(c(refplain)));

    // each trial byte lands at the end of the block at the prefix
    // boundary, after the same window
    let known = suffix.take(n);
    let bp = crate::attack::brute_payload(ppv, b, known, n);
    assert(bp.len() == ppv + b - 1) by {
        if blk == 0 {
            assert(n == off);
        }
    }
    assert forall|g: int| #![trigger bp.push(g as u8)] 0 <= g <= 255 implies crate::attack::block_at(
        o,
        b,
        bp.push(g as u8),
        pbv,
    ) == Some(c(win.push(g as u8))) by {
        let d = bp.push(g as u8);
        assert(d.len() == ppv + b);
        lemma_padded_layout(prefix, d, suffix, b);
        lemma_ecb_payload_blocks(o, c, b, prefix, suffix, d);
        let padg = pad7(prefix + d + suffix, b);
        let bg = crate::attack::blocks_of(o.response(d), b);
        assert(padg.len() >= b * (pbv + 1)) by {
            assert(b * (pbv + 1) == b * pbv + b) by (nonlinear_arith);
        }
        assert(pbv < padg.len() as int / b) by {
            lemma_fundamental_div_mod(padg.len() as int, b);
            if padg.len() as int / b <= pbv {
                assert(b * (padg.len() as int / b) <= b * pbv) by (nonlinear_arith)
                    requires
                        padg.len() as int / b <= pbv,
                        b >= 0,
                ;
                assert(b * (pbv + 1) == b * pbv + b) by (nonlinear_arith);
            }
        }
        let sub = padg.subrange(b * pbv, b * pbv + b);
        assert(sub =~= win.push(g as u8)) by {
            assert forall|j: int| 0 <= j < b implies sub[j] == win.push(g as u8)[j] by {
                let t = b * pbv + j;
                assert(padg[t] == layout_byte(prefix, d, suffix, b, t));
                assert(p <= t < p + d.len());
                assert(padg[t] == d[ppv + j]);
                if j == b - 1 {
                    assert(d[ppv + j] == g as u8);
                } else {
                    assert(d[ppv + j] == bp[ppv + j]);
                    if blk == 0 {
                        assert(n == off);
                        if j < b - 1 - off {
                            assert(bp[ppv + j] == FILLER_BYTE);
                            assert(win[j] == filler(b - 1 - off)[j]);
                        } else {
                            assert(bp[ppv + j] == known[j - (b - 1 - off)]);
                            assert(win[j] == suffix.take(n)[j - (b - 1 - off)]);
                        }
                    } else {
                        assert(bp[ppv + j] == known.subrange(n - b + 1, n)[j]);
                        assert(win[j] == suffix.subrange(n - b + 1, n)[j]);
                        assert(known.subrange(n - b + 1, n)[j] == known[n - b + 1 + j]);
                        assert(known[n - b + 1 + j] == suffix[n - b + 1 + j]);
                        assert(suffix.subrange(n - b + 1, n)[j] == suffix[n - b + 1 + j]);
                    }
                }
            }
        }
        assert(b * (pbv + 1) == b * pbv + b) by (nonlinear_arith);
        assert(bg.len() == padg.len() as int / b);
        assert(bg[pbv] == c(sub));
        assert(c(sub) == c(win.push(g as u8)));
    }

    // a trial byte matches exactly when it is the suffix byte itself
    assert forall|g: int| 0 <= g < suffix[n] implies #[trigger] crate::attack::block_at(
        o,
        b,
        bp.push(g as u8),
        pbv,
    ) != Some(c(refplain)) by {
        let gb = win.push(g as u8);
        assert(gb.len() == b);
        assert(refplain.len() == b);
        if c(gb) == c(refplain) {
            assert(gb == refplain);
            assert(gb[b - 1] == refplain[b - 1]);
            assert(gb[b - 1] == g as u8);
            assert(refplain[b - 1] == suffix[n]);
        }
    }
    crate::attack::lemma_first_guess_align(o, b, bp, pbv, c(refplain), suffix[n] as int);
    assert(win.push((suffix[n] as int) as u8) =~= refplain);
    assert(crate::attack::block_at(o, b, bp.push((suffix[n] as int) as u8), pbv) == Some(
        c(refplain),
    ));
    assert(crate::attack::first_guess_from(o, b, bp, pbv, c(refplain), suffix[n] as int)
        == Some(suffix[n]));
    assert(crate::attack::first_guess_from(o, b, bp, pbv, c(refplain), 0) == Some(suffix[n]));
}

/// Byte-by-byte recovery rebuilds exactly the first `n` suffix bytes.
proof fn lemma_recover_upto_on_ecb<O: Oracle>(
    o: &O,
    c: spec_fn(Seq<u8>) -> Seq<u8>,
    b: int,
    prefix: Seq<u8>,
    suffix: Seq<u8>,
    n: int,
)
    requires
        is_ecb_oracle(o, c, b, prefix, suffix),
        injective_cipher(c, b),
        avoids_filler(prefix),
        avoids_filler(suffix),
        b < FILLER_BYTE as int,
        prefix.len() < 9 * b,
        0 <= n <= suffix.len(),
    ensures
        ({
            let p = prefix.len() as int;
            let pbv = prefix_whole_blocks(p, b);
            let ppv = pbv * b - p;
            crate::attack::spec_recover_upto(o, b, pbv, ppv, n) == Ok::<Seq<u8>, AttackError>(
                suffix.take(n),
            )
        }),
    decreases n,
{
    let p = prefix.len() as int;
    let pbv = prefix_whole_blocks(p, b);
    let ppv = pbv * b - p;
    if n == 0 {
        assert(suffix.take(0) =~= Seq::<u8>::empty());
    } else {
        lemma_recover_upto_on_ecb(o, c, b, prefix, suffix, n - 1);
        lemma_recover_step_on_ecb(o, c, b, prefix, suffix, n - 1);
        assert(suffix.take(n - 1).push(suffix[n - 1]) =~= suffix.take(n));
    }
}

/// The whole attack is exact on every synthetic ECB oracle whose block
/// cipher is injective and whose hidden parts avoid the filler byte: it
/// returns the hidden suffix, byte for byte.
pub proof fn lemma_suffix_recovery_on_ecb<O: Oracle>(
    o: &O,
    c: spec_fn(Seq<u8>) -> Seq<u8>,
    b: int,
    prefix: Seq<u8>,
    suffix: Seq<u8>,
)
    requires
        is_ecb_oracle(o, c, b, prefix, suffix),
        injective_cipher(c, b),
        avoids_filler(prefix),
        avoids_filler(suffix),
        b < FILLER_BYTE as int,
        prefix.len() < 9 * b,
        b <= BLOCK_SIZE_PROBE_CAP,
    ensures
        crate::attack::spec_detect_suffix(o) == Ok::<Seq<u8>, AttackError>(suffix),
{
    let p = prefix.len() as int;
    let s = suffix.len() as int;
    let pbv = prefix_whole_blocks(p, b);
    let ppv = pbv * b - p;
    lemma_block_size_detection_on_ecb(o, c, b, prefix, suffix);
    lemma_prefix_location_on_ecb(o, c, b, prefix, suffix);
    assert(pbv * b - ppv == p);
    assert(pbv <= usize::MAX as int / b) by {
        lemma_fundamental_div_mod(p, b);
        assert(b * (p / b) == (p / b) * b) by (nonlinear_arith);
        if p % b != 0 {
            assert(pbv * b == (p / b) * b + b) by (nonlinear_arith)
                requires
                    pbv == p / b + 1,
            ;
        }
        assert(0 <= ppv < b);
        assert(pbv <= 9) by {
            if p / b >= 9 {
                vstd::arithmetic::mul::lemma_mul_inequality(9, p / b, b);
                assert(p >= 9 * b);
            }
        }
        lemma_fundamental_div_mod(usize::MAX as int, b);
        if usize::MAX as int / b <= 8 {
            assert(b * (usize::MAX as int / b) <= b * 8) by (nonlinear_arith)
                requires
                    usize::MAX as int / b <= 8,
                    b >= 0,
            ;
        }
    }
    assert(0 <= ppv <= pbv * b) by {
        lemma_fundamental_div_mod(p, b);
        assert(b * (p / b) == (p / b) * b) by (nonlinear_arith);
        if p % b != 0 {
            assert(pbv * b == (p / b) * b + b) by (nonlinear_arith)
                requires
                    pbv == p / b + 1,
            ;
        }
    }
    lemma_recover_upto_on_ecb(o, c, b, prefix, suffix, s);
    assert(suffix.take(s) =~= suffix);
}

} // verus!
