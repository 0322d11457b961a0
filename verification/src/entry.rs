use vstd::prelude::*;

use crate::aes_cypher::{cbc_enc_blocks, encrypt_cbc, views_of};
use crate::cookie::{find_char_from, find_idx, lemma_find_props, remove_chars, removed, segments};
use crate::pad::pad7;

verus! {

use vstd::string::StringSliceAdditionalSpecFns;
use vstd::string::StrSliceExecFns;
use vstd::string::StringExecFns;

/// `s` with the entry metacharacters ';' and '=' removed.
pub open spec fn entry_sanitized(s: Seq<char>) -> Seq<char> {
    removed(s, ';', '=')
}

/// The entry text built around sanitised user data: two fixed comments
/// with the user data between them.
pub open spec fn entry_text(input: Seq<char>) -> Seq<char> {
    "comment1=cooking%20MCs;userdata="@ + entry_sanitized(input)
        + ";comment2=%20like%20a%20pound%20of%20bacon"@
}

/// The full entry for user data: the data with its metacharacters
/// removed, framed by the two fixed comments.
pub fn get_entry(input: &str) -> (r: String)
    ensures
        r@ == entry_text(input@),
{
    let sanitized = remove_chars(input, ';', '=');
    let mut out = String::from_str("comment1=cooking%20MCs;userdata=");
    out.append(sanitized.as_str());
    out.append(";comment2=%20like%20a%20pound%20of%20bacon");
    out
}

/// One entry segment read as an attribute: the text before its first
/// '=' as key and the text between its first and second '=' as value;
/// a segment without '=' has an empty value.
pub open spec fn entry_pair(seg: Seq<char>) -> (Seq<char>, Seq<char>) {
    let e1 = find_idx(seg, '=', 0);
    if e1 >= seg.len() {
        (seg, Seq::empty())
    } else {
        let e2 = find_idx(seg, '=', e1 + 1);
        (seg.take(e1), seg.subrange(e1 + 1, e2))
    }
}

/// An entry read as an attribute list, one pair per ';'-separated
/// segment.
pub open spec fn parse_entry_text(s: Seq<char>) -> Seq<(Seq<char>, Seq<char>)> {
    segments(s, ';', 0).map_values(|seg: Seq<char>| entry_pair(seg))
}

/// Split an entry on ';' and read each segment as a `key=value` pair; a
/// segment without '=' keeps an empty value.
pub fn parse_entry(s: &str) -> (r: Vec<(String, String)>)
    ensures
        crate::cookie::pairs_views(r@) == parse_entry_text(s@),
{
    let n = s.unicode_len();
    let mut out: Vec<(String, String)> = Vec::new();
    let mut start: usize = 0;
    proof {
        assert(segments(s@, ';', 0).skip(0) =~= segments(s@, ';', 0));
    }
    loop
        invariant_except_break
            start <= n,
            n == s@.len(),
            out@.len() <= segments(s@, ';', 0).len(),
            segments(s@, ';', 0).skip(out@.len() as int) =~= segments(s@, ';', start as int),
            crate::cookie::pairs_views(out@) =~= parse_entry_text(s@).take(out@.len() as int),
        ensures
            crate::cookie::pairs_views(out@) =~= parse_entry_text(s@),
        decreases n - start,
    {
        let ghost done = out@.len() as int;
        let seg_end = find_char_from(s, ';', start);
        let seg = s.substring_char(start, seg_end);
        proof {
            lemma_find_props(s@, ';', start as int);
            let all = segments(s@, ';', 0);
            let rest = segments(s@, ';', start as int);
            assert(rest.len() >= 1);
            assert(rest[0] == seg@);
            assert(all.skip(done)[0] == rest[0]);
            assert(all[done] == seg@);
        }
        let seg_len = seg.unicode_len();
        let e1 = find_char_from(seg, '=', 0);
        if e1 == seg_len {
            out.push((String::from_str(seg), String::new()));
            proof {
                assert((seg@, Seq::<char>::empty()) == entry_pair(seg@));
            }
        } else {
            let e2 = find_char_from(seg, '=', e1 + 1);
            let k = seg.substring_char(0, e1);
            let v = seg.substring_char(e1 + 1, e2);
            proof {
                assert((k@, v@) == entry_pair(seg@));
            }
            out.push((String::from_str(k), String::from_str(v)));
        }
        proof {
            assert(crate::cookie::pairs_views(out@) =~= parse_entry_text(s@).take(
                out@.len() as int,
            ));
            if seg_end < n {
                let all = segments(s@, ';', 0);
                let tail = segments(s@, ';', seg_end + 1 as int);
                assert(segments(s@, ';', start as int) =~= seq![seg@] + tail);
                assert forall|kk: int| 0 <= kk < tail.len() implies all.skip(done + 1)[kk]
                    == tail[kk] by {
                    assert(all.skip(done + 1)[kk] == all[done + 1 + kk]);
                    assert(all.skip(done)[kk + 1] == all[done + 1 + kk]);
                    assert(all.skip(done)[kk + 1] == (seq![seg@] + tail)[kk + 1]);
                }
                assert(all.skip(done + 1).len() == tail.len());
                assert(all.skip(done + 1) =~= tail);
            }
        }
        if seg_end == n {
            proof {
                assert(segments(s@, ';', start as int) =~= seq![seg@]);
                assert(out@.len() == segments(s@, ';', 0).len());
                assert(crate::cookie::pairs_views(out@) =~= parse_entry_text(s@));
            }
            break ;
        }
        start = seg_end + 1;
    }
    out
}

/// The entry built for user data, enciphered in CBC mode under `key`
/// and `iv`, one vector per ciphertext block.
pub fn entry_for(data: &str, key: &[u8], iv: &[u8]) -> (r: Vec<Vec<u8>>)
    requires
        key@.len() == 16,
        iv@.len() == 16,
    ensures
        views_of(r@) == cbc_enc_blocks(
            key@,
            iv@,
            pad7(vstd::utf8::encode_utf8(entry_text(data@)), 16),
        ),
{
    let entry = get_entry(data);
    encrypt_cbc(entry.as_str().as_bytes(), key, iv)
}

} // verus!
