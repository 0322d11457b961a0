use vstd::prelude::*;

use crate::attack::blocks_of;
use crate::xor::{hamming, hamming_spec, lemma_hamming_bound};

verus! {

use vstd::relations::sorted_by;
use vstd::seq_lib::lemma_sorted_unique;
use vstd::seq_lib::lemma_multiset_commutative;
use vstd::multiset::Multiset;

/// Longest repeating-XOR key length that is considered.
pub const MAX_KEY_SIZE: usize = 40;

/// How many leading blocks weigh into a key-size score.
pub const BLOCKS_TO_ANALYZE_KEY_SIZE: usize = 5;

/// How many candidate key sizes are kept.
pub const KEY_SIZE_CANDIDATES: usize = 4;

/// The smaller of two integers.
pub open spec fn min_int(a: int, b: int) -> int {
    if a <= b {
        a
    } else {
        b
    }
}

/// The bit-distances between adjacent blocks, summed.
pub open spec fn pairwise_distance(blocks: Seq<Seq<u8>>) -> int
    decreases blocks.len(),
{
    if blocks.len() <= 1 {
        0
    } else {
        pairwise_distance(blocks.drop_last()) + hamming_spec(
            blocks[blocks.len() - 2],
            blocks.last(),
        )
    }
}

/// The score of a candidate key size: the summed bit-distance between
/// the data's first few adjacent `ks`-byte blocks, normalised by the
/// size.
pub open spec fn key_size_distance_spec(data: Seq<u8>, ks: int) -> int {
    let bks = blocks_of(data, ks);
    pairwise_distance(bks.take(min_int(BLOCKS_TO_ANALYZE_KEY_SIZE as int, bks.len() as int)))
        * 1000 / ks
}

/// Score a candidate key size by the normalised bit-distance between
/// the data's first few `key_size`-byte blocks: the smaller, the more
/// plausible the size.
pub fn key_size_distance(data: &[u8], key_size: usize) -> (r: u32)
    requires
        data@.len() > 0,
        1 <= key_size <= MAX_KEY_SIZE,
    ensures
        r == key_size_distance_spec(data@, key_size as int),
{
    let ghost whole = blocks_of(data@, key_size as int);
    let ghost wanted = min_int(BLOCKS_TO_ANALYZE_KEY_SIZE as int, whole.len() as int);

    let mut blocks: Vec<Vec<u8>> = Vec::new();
    let mut start: usize = 0;
    proof {
        assert(data@.skip(0) =~= data@);
        assert(whole.skip(0) =~= whole);
    }
    while start < data.len() && blocks.len() < BLOCKS_TO_ANALYZE_KEY_SIZE
        invariant
            1 <= key_size <= MAX_KEY_SIZE,
            start <= data@.len(),
            whole == blocks_of(data@, key_size as int),
            blocks@.len() <= BLOCKS_TO_ANALYZE_KEY_SIZE,
            blocks@.len() <= whole.len(),
            start == data@.len() ==> blocks@.len() == whole.len(),
            forall|j: int|
                0 <= j < blocks@.len() ==> (#[trigger] blocks@[j])@ == whole[j] && whole[j].len()
                    <= key_size,
            blocks_of(data@.skip(start as int), key_size as int) =~= whole.skip(
                blocks@.len() as int,
            ),
        decreases data@.len() - start,
    {
        let ghost bl = blocks@.len() as int;
        let end = if data.len() - start > key_size {
            start + key_size
        } else {
            data.len()
        };
        let chunk = vstd::slice::slice_to_vec(vstd::slice::slice_subrange(data, start, end));
        proof {
            let rem = data@.skip(start as int);
            if rem.len() > key_size {
                assert(rem.take(key_size as int) =~= chunk@);
                assert(rem.skip(key_size as int) =~= data@.skip(end as int));
            } else {
                assert(rem =~= chunk@);
                assert(data@.skip(end as int) =~= Seq::<u8>::empty());
            }
            assert(blocks_of(rem, key_size as int) =~= seq![chunk@] + blocks_of(
                data@.skip(end as int),
                key_size as int,
            ));
            assert(whole.skip(bl)[0] == chunk@);
            assert(whole[bl] == chunk@);
            let tail = blocks_of(data@.skip(end as int), key_size as int);
            assert forall|kk: int| 0 <= kk < tail.len() implies whole.skip(bl + 1)[kk]
                == tail[kk] by {
                assert(whole.skip(bl)[kk + 1] == whole[bl + 1 + kk]);
                assert(whole.skip(bl + 1)[kk] == whole[bl + 1 + kk]);
                assert(whole.skip(bl)[kk + 1] == (seq![chunk@] + tail)[kk + 1]);
            }
            assert(whole.skip(bl + 1).len() == tail.len());
            assert(whole.skip(bl + 1) =~= tail);
        }
        blocks.push(chunk);
        start = end;
        proof {
            assert(blocks@[bl]@ == whole[bl]);
            assert(whole[bl].len() <= key_size);
        }
    }
    proof {
        if start >= data@.len() {
            assert(data@.skip(start as int) =~= Seq::<u8>::empty());
        }
        assert(blocks@.len() as int == wanted);
        assert(crate::aes_cypher::views_of(blocks@) =~= whole.take(wanted));
    }

    let mut total_distance: u32 = 0;
    let mut i: usize = 1;
    while i < blocks.len()
        invariant
            1 <= key_size <= MAX_KEY_SIZE,
            blocks@.len() == 0 && i == 1 || 1 <= i <= blocks@.len(),
            blocks@.len() <= BLOCKS_TO_ANALYZE_KEY_SIZE,
            crate::aes_cypher::views_of(blocks@) == whole.take(wanted),
            wanted == blocks@.len() as int,
            forall|j: int| 0 <= j < blocks@.len() ==> (#[trigger] blocks@[j])@.len() <= key_size,
            total_distance == pairwise_distance(
                whole.take(wanted).take(
                    if i <= blocks@.len() {
                        i as int
                    } else {
                        0
                    },
                ),
            ),
            total_distance <= 1600 * i,
        decreases blocks@.len() - i,
    {
        let d = hamming(blocks[i - 1].as_slice(), blocks[i].as_slice());
        proof {
            let tw = whole.take(wanted);
            assert(tw.take(i + 1 as int).drop_last() =~= tw.take(i as int));
            assert(tw.take(i + 1 as int).last() == blocks@[i as int]@);
            assert(tw.take(i + 1 as int)[i - 1] == blocks@[i - 1 as int]@);
            lemma_hamming_bound(blocks@[i - 1 as int]@, blocks@[i as int]@);
        }
        total_distance = total_distance + d;
        i = i + 1;
    }
    proof {
        if blocks@.len() == 0 {
            assert(whole.take(wanted).take(0) =~= whole.take(wanted));
        } else {
            assert(whole.take(wanted).take(blocks@.len() as int) =~= whole.take(wanted));
        }
    }
    (total_distance * 1000) / (key_size as u32)
}

/// The lexicographic order on scored key sizes.
pub open spec fn score_leq(a: (u32, usize), b: (u32, usize)) -> bool {
    a.0 < b.0 || (a.0 == b.0 && a.1 <= b.1)
}

/// The lexicographic order on scored key sizes, as a function value.
pub open spec fn score_order() -> spec_fn((u32, usize), (u32, usize)) -> bool {
    |a: (u32, usize), b: (u32, usize)| score_leq(a, b)
}

/// The scored candidate key sizes, from 2 up to the largest considered.
pub open spec fn scored_sizes(data: Seq<u8>) -> Seq<(u32, usize)> {
    Seq::new(
        (MAX_KEY_SIZE - 1) as nat,
        |i: int| (key_size_distance_spec(data, i + 2) as u32, (i + 2) as usize),
    )
}

/// `s` with `x` inserted at position `j` holds the same values as `s`
/// with `x` added.
proof fn lemma_insert_to_multiset(s: Seq<(u32, usize)>, j: int, x: (u32, usize))
    requires
        0 <= j <= s.len(),
    ensures
        s.insert(j, x).to_multiset() =~= s.to_multiset().insert(x),
{
    broadcast use vstd::seq_lib::group_to_multiset_ensures;

    assert(s.insert(j, x) =~= s.take(j) + (seq![x] + s.skip(j)));
    lemma_multiset_commutative(s.take(j), seq![x] + s.skip(j));
    lemma_multiset_commutative(seq![x], s.skip(j));
    lemma_multiset_commutative(s.take(j), s.skip(j));
    assert(s.take(j) + s.skip(j) =~= s);
    assert(seq![x] =~= Seq::<(u32, usize)>::empty().push(x));
    assert(seq![x].to_multiset() =~= Multiset::empty().insert(x));
}

/// Sort scored key sizes by score, then by size.
fn sort_scores(input: Vec<(u32, usize)>) -> (r: Vec<(u32, usize)>)
    ensures
        sorted_by(r@, score_order()),
        r@.to_multiset() == input@.to_multiset(),
        r@.len() == input@.len(),
{
    let mut out: Vec<(u32, usize)> = Vec::new();
    let mut i: usize = 0;
    proof {
        broadcast use vstd::seq_lib::group_to_multiset_ensures;

        assert(input@.take(0) =~= Seq::<(u32, usize)>::empty());
        assert(out@.to_multiset() =~= input@.take(0).to_multiset());
    }
    while i < input.len()
        invariant
            i <= input@.len(),
            sorted_by(out@, score_order()),
            out@.to_multiset() == input@.take(i as int).to_multiset(),
            out@.len() == i,
        decreases input@.len() - i,
    {
        let x = input[i];
        let mut j: usize = 0;
        while j < out.len() && (out[j].0 < x.0 || (out[j].0 == x.0 && out[j].1 <= x.1))
            invariant
                j <= out@.len(),
                forall|t: int| 0 <= t < j ==> score_leq(#[trigger] out@[t], x),
            decreases out@.len() - j,
        {
            j = j + 1;
        }
        let ghost old_out = out@;
        let ghost jj = j as int;
        proof {
            broadcast use vstd::seq_lib::group_to_multiset_ensures;

            lemma_insert_to_multiset(old_out, jj, x);
            assert(input@.take(i + 1 as int).drop_last() =~= input@.take(i as int));
            assert(input@.take(i + 1 as int) =~= input@.take(i as int).push(x));
        }
        out.insert(j, x);
        i = i + 1;
        proof {
            assert(out@.to_multiset() =~= input@.take(i as int).to_multiset());
            let s = out@;
            assert(s =~= old_out.take(jj) + (seq![x] + old_out.skip(jj)));
            assert forall|u: int, v: int| 0 <= u < v < s.len() implies score_leq(s[u], s[v]) by {
                assert(sorted_by(old_out, score_order()));
                if v < jj {
                    assert(s[u] == old_out[u]);
                    assert(s[v] == old_out[v]);
                    assert(score_order()(old_out[u], old_out[v]));
                } else if u < jj && v == jj {
                    assert(s[u] == old_out[u]);
                    assert(s[v] == x);
                } else if u < jj && v > jj {
                    assert(s[u] == old_out[u]);
                    assert(s[v] == old_out[v - 1]);
                    assert(score_order()(old_out[u], old_out[v - 1]));
                } else if u == jj {
                    assert(s[u] == x);
                    assert(s[v] == old_out[v - 1]);
                    assert(score_leq(x, old_out[jj]));
                    if jj < v - 1 {
                        assert(score_order()(old_out[jj], old_out[v - 1]));
                    }
                } else {
                    assert(s[u] == old_out[u - 1]);
                    assert(s[v] == old_out[v - 1]);
                    assert(score_order()(old_out[u - 1], old_out[v - 1]));
                }
            }
            assert(sorted_by(s, score_order()));
        }
    }
    proof {
        assert(input@.take(input@.len() as int) =~= input@);
    }
    out
}

/// The most plausible repeating-XOR key sizes, best first: the
/// candidate sizes ordered by their normalised block distance.
pub fn determine_key_size(data: &[u8]) -> (r: Vec<usize>)
    requires
        data@.len() > 0,
    ensures
        ({
            let sorted = scored_sizes(data@).sort_by(score_order());
            r@ == sorted.take(KEY_SIZE_CANDIDATES as int).map_values(|p: (u32, usize)| p.1)
        }),
{
    let mut distances: Vec<(u32, usize)> = Vec::new();
    let mut ks: usize = 2;
    while ks <= MAX_KEY_SIZE
        invariant
            2 <= ks <= MAX_KEY_SIZE + 1,
            data@.len() > 0,
            distances@ =~= scored_sizes(data@).take(ks - 2),
        decreases MAX_KEY_SIZE + 1 - ks,
    {
        let d = key_size_distance(data, ks);
        distances.push((d, ks));
        ks = ks + 1;
        proof {
            assert(distances@ =~= scored_sizes(data@).take(ks - 2));
        }
    }
    proof {
        assert(distances@ =~= scored_sizes(data@));
    }

    let sorted = sort_scores(distances);
    proof {
        let target = scored_sizes(data@).sort_by(score_order());
        scored_sizes(data@).lemma_sort_by_ensures(score_order());
        lemma_sorted_unique(sorted@, target, score_order());
        assert(sorted@ == target);
    }

    let mut out: Vec<usize> = Vec::new();
    let mut i: usize = 0;
    while i < KEY_SIZE_CANDIDATES && i < sorted.len()
        invariant
            i <= KEY_SIZE_CANDIDATES,
            i <= sorted@.len(),
            out@ =~= sorted@.take(i as int).map_values(|p: (u32, usize)| p.1),
        decreases KEY_SIZE_CANDIDATES - i,
    {
        out.push(sorted[i].1);
        i = i + 1;
        proof {
            assert(out@ =~= sorted@.take(i as int).map_values(|p: (u32, usize)| p.1));
        }
    }
    proof {
        assert(i == KEY_SIZE_CANDIDATES);
        assert(out@ =~= sorted@.take(KEY_SIZE_CANDIDATES as int).map_values(
            |p: (u32, usize)| p.1,
        ));
    }
    out
}

} // verus!
