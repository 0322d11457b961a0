use vstd::prelude::*;

use crate::aes_cypher::{concat_blocks, concat_bytes, ecb_blocks, encrypt};
use crate::pad::pad7;

verus! {

use vstd::string::StringSliceAdditionalSpecFns;
use vstd::string::StrSliceExecFns;
use vstd::string::StringExecFns;

/// `s` with every occurrence of the two characters `a` and `b` removed.
pub open spec fn removed(s: Seq<char>, a: char, b: char) -> Seq<char>
    decreases s.len(),
{
    if s.len() == 0 {
        Seq::empty()
    } else if s.last() != a && s.last() != b {
        removed(s.drop_last(), a, b).push(s.last())
    } else {
        removed(s.drop_last(), a, b)
    }
}

/// `s` with the cookie metacharacters '&' and '=' removed.
pub open spec fn sanitize(s: Seq<char>) -> Seq<char> {
    removed(s, '&', '=')
}

/// `s` with every occurrence of `a` and `b` removed.
pub(crate) fn remove_chars(s: &str, a: char, b: char) -> (r: String)
    ensures
        r@ == removed(s@, a, b),
{
    let n = s.unicode_len();
    let mut out = String::new();
    let mut i: usize = 0;
    while i < n
        invariant
            i <= n,
            n == s@.len(),
            out@ == removed(s@.take(i as int), a, b),
        decreases n - i,
    {
        let c = s.get_char(i);
        proof {
            assert(s@.take(i + 1 as int).drop_last() =~= s@.take(i as int));
            assert(s@.take(i + 1 as int).last() == s@[i as int]);
        }
        if c != a && c != b {
            let piece = s.substring_char(i, i + 1);
            proof {
                assert(piece@ =~= seq![s@[i as int]]);
            }
            out.append(piece);
            proof {
                assert(out@ =~= removed(s@.take(i + 1 as int), a, b));
            }
        }
        i = i + 1;
    }
    proof {
        assert(s@.take(n as int) =~= s@);
    }
    out
}

/// The cookie attribute list for an email address: the sanitised email,
/// a fixed user id, and the user role.
pub fn get_profile(email: &str) -> (r: Vec<(&str, String)>)
    ensures
        r@.len() == 3,
        (r@[0].0)@ == "email"@,
        (r@[0].1)@ == sanitize(email@),
        (r@[1].0)@ == "uid"@,
        (r@[1].1)@ == "10"@,
        (r@[2].0)@ == "role"@,
        (r@[2].1)@ == "user"@,
{
    let mut v: Vec<(&str, String)> = Vec::new();
    v.push(("email", remove_chars(email, '&', '=')));
    v.push(("uid", String::from_str("10")));
    v.push(("role", String::from_str("user")));
    v
}

/// One cookie attribute rendered as text: key, '=', value.
pub open spec fn pair_text(p: (Seq<char>, Seq<char>)) -> Seq<char> {
    p.0 + seq!['='] + p.1
}

/// An attribute list rendered as text, the attributes joined with '&'.
pub open spec fn fmt_pairs_text(ps: Seq<(Seq<char>, Seq<char>)>) -> Seq<char>
    decreases ps.len(),
{
    if ps.len() == 0 {
        Seq::empty()
    } else if ps.len() == 1 {
        pair_text(ps.last())
    } else {
        fmt_pairs_text(ps.drop_last()) + seq!['&'] + pair_text(ps.last())
    }
}

/// The text views of borrowed attribute pairs.
pub open spec fn pair_views(ps: Seq<(&str, String)>) -> Seq<(Seq<char>, Seq<char>)> {
    ps.map_values(|p: (&str, String)| (p.0@, p.1@))
}

/// Render an attribute list as cookie text: `k=v` pairs joined by '&',
/// in the order given.
pub fn fmt_pairs(data: &[(&str, String)]) -> (r: String)
    ensures
        r@ == fmt_pairs_text(pair_views(data@)),
{
    let mut out = String::new();
    let mut i: usize = 0;
    while i < data.len()
        invariant
            i <= data@.len(),
            out@ == fmt_pairs_text(pair_views(data@).take(i as int)),
        decreases data@.len() - i,
    {
        proof {
            reveal_strlit("&");
            reveal_strlit("=");
            assert(pair_views(data@).take(i + 1 as int).drop_last() =~= pair_views(data@).take(
                i as int,
            ));
            assert(pair_views(data@).take(i + 1 as int).last() == (data@[i as int].0@,
            data@[i as int].1@));
        }
        if i > 0 {
            out.append("&");
        }
        out.append(data[i].0);
        out.append("=");
        out.append(data[i].1.as_str());
        i = i + 1;
        proof {
            assert(out@ =~= fmt_pairs_text(pair_views(data@).take(i as int)));
        }
    }
    proof {
        assert(pair_views(data@).take(data@.len() as int) =~= pair_views(data@));
    }
    out
}

/// The first index at or after `from` holding `c`, or the length when
/// none does.
pub open spec fn find_idx(s: Seq<char>, c: char, from: int) -> int
    decreases s.len() - from,
    when 0 <= from
{
    if from >= s.len() {
        s.len() as int
    } else if s[from] == c {
        from
    } else {
        find_idx(s, c, from + 1)
    }
}

/// Once `c` does not occur in `from..i`, the search from `from` and the
/// search from `i` agree.
proof fn lemma_find_align(s: Seq<char>, c: char, from: int, i: int)
    requires
        0 <= from <= i,
        forall|j: int| from <= j < i ==> s[j] != c,
    ensures
        find_idx(s, c, from) == find_idx(s, c, i),
    decreases i - from,
{
    if from < i {
        lemma_find_align(s, c, from + 1, i);
    }
}

/// Where the search lands: at or after `from`, at most the length, on
/// an occurrence when there is one, and past no occurrence.
pub(crate) proof fn lemma_find_props(s: Seq<char>, c: char, from: int)
    requires
        0 <= from <= s.len(),
    ensures
        from <= find_idx(s, c, from) <= s.len(),
        find_idx(s, c, from) < s.len() ==> s[find_idx(s, c, from)] == c,
        forall|j: int| from <= j < find_idx(s, c, from) ==> s[j] != c,
    decreases s.len() - from,
{
    if from < s.len() && s[from] != c {
        lemma_find_props(s, c, from + 1);
    }
}

/// The `sep`-separated segments of `s`, starting at `from`: splitting
/// an empty remainder still yields one empty segment.
pub open spec fn segments(s: Seq<char>, sep: char, from: int) -> Seq<Seq<char>>
    decreases s.len() - from,
    when 0 <= from <= s.len()
    via segments_dec
{
    let e = find_idx(s, sep, from);
    let seg = s.subrange(from, e);
    if e >= s.len() {
        seq![seg]
    } else {
        seq![seg] + segments(s, sep, e + 1)
    }
}

#[via_fn]
proof fn segments_dec(s: Seq<char>, sep: char, from: int) {
    lemma_find_props(s, sep, from);
}

/// One segment read as an attribute: the text before its first '=' and
/// the text between its first and second '='.
pub open spec fn parse_pair(seg: Seq<char>) -> (Seq<char>, Seq<char>) {
    let e1 = find_idx(seg, '=', 0);
    let e2 = find_idx(seg, '=', e1 + 1);
    (seg.take(e1), seg.subrange(e1 + 1, e2))
}

/// Every '&'-separated segment of the cookie contains an '='.
pub open spec fn wf_cookie(s: Seq<char>) -> bool {
    forall|i: int|
        0 <= i < segments(s, '&', 0).len() ==> find_idx(#[trigger] segments(s, '&', 0)[i], '=', 0)
            < segments(s, '&', 0)[i].len()
}

/// A cookie read as an attribute list, one pair per segment.
pub open spec fn parse_cookie_text(s: Seq<char>) -> Seq<(Seq<char>, Seq<char>)> {
    segments(s, '&', 0).map_values(|seg: Seq<char>| parse_pair(seg))
}

/// The text views of owned attribute pairs.
pub open spec fn pairs_views(ps: Seq<(String, String)>) -> Seq<(Seq<char>, Seq<char>)> {
    ps.map_values(|p: (String, String)| (p.0@, p.1@))
}

/// The first index at or after `from` holding `c`, or the text's length.
pub(crate) fn find_char_from(s: &str, c: char, from: usize) -> (r: usize)
    requires
        from <= s@.len(),
    ensures
        r == find_idx(s@, c, from as int),
        from <= r <= s@.len(),
{
    let n = s.unicode_len();
    let mut i = from;
    while i < n
        invariant
            from <= i <= n,
            n == s@.len(),
            forall|j: int| from <= j < i ==> s@[j] != c,
        decreases n - i,
    {
        if s.get_char(i) == c {
            proof {
                lemma_find_align(s@, c, from as int, i as int);
            }
            return i;
        }
        i = i + 1;
    }
    proof {
        lemma_find_align(s@, c, from as int, n as int);
    }
    n
}

/// Split a cookie on '&' and read each segment as a `key=value` pair;
/// text after a second '=' within a segment is dropped.
pub fn parse_cookie(s: &str) -> (r: Vec<(String, String)>)
    requires
        wf_cookie(s@),
    ensures
        pairs_views(r@) == parse_cookie_text(s@),
{
    let n = s.unicode_len();
    let mut out: Vec<(String, String)> = Vec::new();
    let mut start: usize = 0;
    proof {
        assert(segments(s@, '&', 0).skip(0) =~= segments(s@, '&', 0));
    }
    loop
        invariant_except_break
            start <= n,
            n == s@.len(),
            wf_cookie(s@),
            out@.len() <= segments(s@, '&', 0).len(),
            segments(s@, '&', 0).skip(out@.len() as int) =~= segments(s@, '&', start as int),
            pairs_views(out@) =~= parse_cookie_text(s@).take(out@.len() as int),
        ensures
            pairs_views(out@) =~= parse_cookie_text(s@),
        decreases n - start,
    {
        let ghost done = out@.len() as int;
        let seg_end = find_char_from(s, '&', start);
        let seg = s.substring_char(start, seg_end);
        proof {
            lemma_find_props(s@, '&', start as int);
            let all = segments(s@, '&', 0);
            let rest = segments(s@, '&', start as int);
            assert(rest.len() >= 1);
            assert(rest[0] == seg@);
            assert(all.skip(done)[0] == rest[0]);
            assert(all[done] == seg@);
        }
        let e1 = find_char_from(seg, '=', 0);
        proof {
            assert(find_idx(seg@, '=', 0) < seg@.len());
        }
        let e2 = find_char_from(seg, '=', e1 + 1);
        let k = seg.substring_char(0, e1);
        let v = seg.substring_char(e1 + 1, e2);
        proof {
            assert((k@, v@) == parse_pair(seg@));
        }
        out.push((String::from_str(k), String::from_str(v)));
        proof {
            assert(pairs_views(out@) =~= parse_cookie_text(s@).take(out@.len() as int));
            if seg_end < n {
                let all = segments(s@, '&', 0);
                let tail = segments(s@, '&', seg_end + 1 as int);
                assert(segments(s@, '&', start as int) =~= seq![seg@] + tail);
                assert forall|kk: int| 0 <= kk < tail.len() implies all.skip(done + 1)[kk]
                    == tail[kk] by {
                    assert(all.skip(done + 1)[kk] == all[done + 1 + kk]);
                    assert(all.skip(done)[kk + 1] == all[done + 1 + kk]);
                    assert(all.skip(done)[kk + 1] == (seq![seg@] + tail)[kk + 1]);
                }
                assert(all.skip(done + 1).len() == tail.len());
                assert(all.skip(done + 1) =~= tail);
            }
        }
        if seg_end == n {
            proof {
                assert(segments(s@, '&', start as int) =~= seq![seg@]);
                assert(out@.len() == segments(s@, '&', 0).len());
                assert(pairs_views(out@) =~= parse_cookie_text(s@));
            }
            break ;
        }
        start = seg_end + 1;
    }
    out
}

/// The value of the last attribute named `key`, scanning from the end.
pub open spec fn lookup_last(ps: Seq<(Seq<char>, Seq<char>)>, key: Seq<char>) -> Option<Seq<char>>
    decreases ps.len(),
{
    if ps.len() == 0 {
        None
    } else if ps.last().0 == key {
        Some(ps.last().1)
    } else {
        lookup_last(ps.drop_last(), key)
    }
}

/// Whether two texts hold the same characters.
pub(crate) fn str_eq(a: &str, b: &str) -> (r: bool)
    ensures
        r == (a@ == b@),
{
    let na = a.unicode_len();
    let nb = b.unicode_len();
    if na != nb {
        return false;
    }
    let mut i: usize = 0;
    while i < na
        invariant
            i <= na,
            na == a@.len(),
            na == b@.len(),
            forall|j: int| 0 <= j < i ==> a@[j] == b@[j],
        decreases na - i,
    {
        if a.get_char(i) != b.get_char(i) {
            return false;
        }
        i = i + 1;
    }
    proof {
        assert(a@ =~= b@);
    }
    true
}

/// The value of the last pair whose key is `key`, if any.
fn lookup_last_pair(pairs: &Vec<(String, String)>, key: &str) -> (r: Option<String>)
    ensures
        match r {
            Some(v) => lookup_last(pairs_views(pairs@), key@) == Some(v@),
            None => lookup_last(pairs_views(pairs@), key@) is None,
        },
{
    let mut i: usize = pairs.len();
    proof {
        assert(pairs_views(pairs@).take(pairs@.len() as int) =~= pairs_views(pairs@));
    }
    while i > 0
        invariant
            i <= pairs@.len(),
            lookup_last(pairs_views(pairs@), key@) == lookup_last(
                pairs_views(pairs@).take(i as int),
                key@,
            ),
        decreases i,
    {
        proof {
            assert(pairs_views(pairs@).take(i as int).drop_last() =~= pairs_views(pairs@).take(
                i - 1 as int,
            ));
        }
        if str_eq(pairs[i - 1].0.as_str(), key) {
            return Some(pairs[i - 1].1.clone());
        }
        i = i - 1;
    }
    None
}

/// A parsed user profile: the three attributes a cookie carries.
pub struct Profile {
    email: String,
    uid: String,
    role: String,
}

impl Profile {
    /// The profile's email attribute.
    pub closed spec fn email_view(&self) -> Seq<char> {
        self.email@
    }

    /// The profile's uid attribute.
    pub closed spec fn uid_view(&self) -> Seq<char> {
        self.uid@
    }

    /// The profile's role attribute.
    pub closed spec fn role_view(&self) -> Seq<char> {
        self.role@
    }

    /// Read a profile from cookie text; the last occurrence of each
    /// attribute wins, and all three must be present.
    pub fn from_cookie(formatted: &str) -> (r: Option<Self>)
        requires
            wf_cookie(formatted@),
        ensures
            ({
                let ps = parse_cookie_text(formatted@);
                match r {
                    Some(p) => lookup_last(ps, "email"@) == Some(p.email_view()) && lookup_last(
                        ps,
                        "uid"@,
                    ) == Some(p.uid_view()) && lookup_last(ps, "role"@) == Some(p.role_view()),
                    None => lookup_last(ps, "email"@) is None || lookup_last(ps, "uid"@) is None
                        || lookup_last(ps, "role"@) is None,
                }
            }),
    {
        let data = parse_cookie(formatted);
        let email = match lookup_last_pair(&data, "email") {
            None => {
                return None;
            },
            Some(v) => v,
        };
        let uid = match lookup_last_pair(&data, "uid") {
            None => {
                return None;
            },
            Some(v) => v,
        };
        let role = match lookup_last_pair(&data, "role") {
            None => {
                return None;
            },
            Some(v) => v,
        };
        Some(Profile { email, uid, role })
    }

    /// The profile's email, as text.
    pub fn email(&self) -> (r: &str)
        ensures
            r@ == self.email_view(),
    {
        self.email.as_str()
    }

    /// The profile's role, as text.
    pub fn role(&self) -> (r: &str)
        ensures
            r@ == self.role_view(),
    {
        self.role.as_str()
    }
}

/// The cookie text of the profile generated for an email address.
pub open spec fn profile_text(email: Seq<char>) -> Seq<char> {
    fmt_pairs_text(
        seq![("email"@, sanitize(email)), ("uid"@, "10"@), ("role"@, "user"@)],
    )
}

/// The profile cookie for an email address, enciphered blockwise under
/// `key` and returned as one buffer.
pub fn profile_for(email: &str, key: &[u8]) -> (r: Vec<u8>)
    requires
        key@.len() == 16,
    ensures
        r@ == concat_blocks(
            ecb_blocks(
                key@,
                pad7(vstd::utf8::encode_utf8(profile_text(email@)), 16),
            ),
        ),
{
    let pairs = get_profile(email);
    let text = fmt_pairs(pairs.as_slice());
    proof {
        assert(pair_views(pairs@) =~= seq![
            ("email"@, sanitize(email@)),
            ("uid"@, "10"@),
            ("role"@, "user"@),
        ]);
    }
    let blocks = encrypt(text.as_str().as_bytes(), key);
    concat_bytes(&blocks)
}

} // verus!
