//! String utilities: equality and lexicographic order on character views
//! (used for the deterministic orders the store exposes), subsequence
//! filtering, file-name sanitizing, and the natural order of the `natord`
//! library behind a trusted comparison.

use vstd::prelude::*;

verus! {

/// `q` can be read off `t` in order: the standard recursive definition of a
/// subsequence, matching the head of `q` greedily against the head of `t`.
pub open spec fn is_subseq_of(q: Seq<char>, t: Seq<char>) -> bool
    decreases q.len() + t.len(),
{
    if q.len() == 0 {
        true
    } else if t.len() == 0 {
        false
    } else if q[0] == t[0] {
        is_subseq_of(q.drop_first(), t.drop_first())
    } else {
        is_subseq_of(q, t.drop_first())
    }
}

/// Whether the query matches the target: every query character appears in the
/// target, in query order (an empty query matches everything).
pub fn fuzzy_match(target: &str, query: &str) -> (r: bool)
    ensures
        r == is_subseq_of(query@, target@),
{
    let tlen = target.unicode_len();
    let qlen = query.unicode_len();
    let mut ti: usize = 0;
    let mut qi: usize = 0;
    proof {
        assert(target@.skip(0) =~= target@);
        assert(query@.skip(0) =~= query@);
    }
    while ti < tlen
        invariant
            ti <= tlen,
            qi <= qlen,
            tlen == target@.len(),
            qlen == query@.len(),
            is_subseq_of(query@, target@) == is_subseq_of(query@.skip(qi as int), target@.skip(ti as int)),
        decreases tlen - ti,
    {
        if qi == qlen {
            proof {
                assert(query@.skip(qi as int).len() == 0);
            }
            return true;
        }
        let tc = target.get_char(ti);
        let qc = query.get_char(qi);
        proof {
            let qs = query@.skip(qi as int);
            let ts = target@.skip(ti as int);
            assert(qs[0] == qc && ts[0] == tc);
            assert(qs.drop_first() =~= query@.skip(qi as int + 1));
            assert(ts.drop_first() =~= target@.skip(ti as int + 1));
        }
        if tc == qc {
            qi = qi + 1;
        }
        ti = ti + 1;
    }
    if qi == qlen {
        proof {
            assert(query@.skip(qi as int).len() == 0);
        }
        true
    } else {
        proof {
            assert(query@.skip(qi as int).len() > 0);
            assert(target@.skip(ti as int).len() == 0);
        }
        false
    }
}

/// Whether the two string slices hold the same characters.
pub fn str_eq(a: &str, b: &str) -> (r: bool)
    ensures
        r == (a@ == b@),
{
    let alen = a.unicode_len();
    let blen = b.unicode_len();
    if alen != blen {
        return false;
    }
    let mut i: usize = 0;
    while i < alen
        invariant
            i <= alen,
            alen == a@.len() == b@.len(),
            forall|j: int| 0 <= j < i ==> a@[j] == b@[j],
        decreases alen - i,
    {
        if a.get_char(i) != b.get_char(i) {
            return false;
        }
        i = i + 1;
    }
    proof {
        assert(a@ =~= b@);
    }
    true
}

/// Strict lexicographic order on character sequences, comparing characters by
/// their scalar values. On encoded strings this is the same order as the byte
/// order of the standard library's string comparison.
pub open spec fn chars_lt(a: Seq<char>, b: Seq<char>) -> bool
    decreases a.len(),
{
    if b.len() == 0 {
        false
    } else if a.len() == 0 {
        true
    } else if a[0] != b[0] {
        (a[0] as u32) < (b[0] as u32)
    } else {
        chars_lt(a.drop_first(), b.drop_first())
    }
}

/// Whether `a` is lexicographically strictly before `b`.
pub fn str_lt(a: &str, b: &str) -> (r: bool)
    ensures
        r == chars_lt(a@, b@),
{
    let alen = a.unicode_len();
    let blen = b.unicode_len();
    let mut i: usize = 0;
    proof {
        assert(a@.skip(0) =~= a@);
        assert(b@.skip(0) =~= b@);
    }
    loop
        invariant
            i <= alen,
            i <= blen,
            alen == a@.len(),
            blen == b@.len(),
            chars_lt(a@, b@) == chars_lt(a@.skip(i as int), b@.skip(i as int)),
        decreases alen - i,
    {
        if i == blen {
            return false;
        }
        if i == alen {
            return true;
        }
        let ac = a.get_char(i);
        let bc = b.get_char(i);
        proof {
            let asuf = a@.skip(i as int);
            let bsuf = b@.skip(i as int);
            assert(asuf[0] == ac && bsuf[0] == bc);
            assert(asuf.drop_first() =~= a@.skip(i as int + 1));
            assert(bsuf.drop_first() =~= b@.skip(i as int + 1));
        }
        if ac != bc {
            return (ac as u32) < (bc as u32);
        }
        i = i + 1;
    }
}

/// Transitivity of the lexicographic order (together with its totality on
/// distinct sequences this makes the sorted orders below unambiguous).
pub proof fn lemma_chars_lt_trans(a: Seq<char>, b: Seq<char>, c: Seq<char>)
    requires
        chars_lt(a, b),
        chars_lt(b, c),
    ensures
        chars_lt(a, c),
    decreases a.len() + b.len() + c.len(),
{
    if b.len() != 0 && c.len() != 0 && a.len() != 0 {
        if a[0] == b[0] && b[0] == c[0] {
            lemma_chars_lt_trans(a.drop_first(), b.drop_first(), c.drop_first());
        }
    }
}

/// The order is irreflexive and total: of two distinct sequences one is
/// strictly before the other, and never both.
pub proof fn lemma_chars_lt_total(a: Seq<char>, b: Seq<char>)
    ensures
        a == b <==> (!chars_lt(a, b) && !chars_lt(b, a)),
        !(chars_lt(a, b) && chars_lt(b, a)),
    decreases a.len() + b.len(),
{
    if a.len() != 0 && b.len() != 0 {
        if a[0] == b[0] {
            lemma_chars_lt_total(a.drop_first(), b.drop_first());
            if a.drop_first() == b.drop_first() {
                assert(a =~= seq![a[0]] + a.drop_first());
                assert(b =~= seq![b[0]] + b.drop_first());
            }
            if a == b {
                assert(a.drop_first() =~= b.drop_first());
            }
        } else {
            assert(a[0] as u32 != b[0] as u32) by {
                if a[0] as u32 == b[0] as u32 {
                    vstd::utf8::char_u32_cast(a[0], a[0] as u32);
                    vstd::utf8::char_u32_cast(b[0], b[0] as u32);
                }
            }
        }
    } else {
        if a.len() == 0 && b.len() == 0 {
            assert(a =~= b);
        }
    }
}

/// The character that replaces file-system separators and wildcard
/// characters in a layout name; other characters pass through.
pub open spec fn sanitize_char(c: char) -> char {
    if c == '/' || c == '\\' || c == ':' || c == '*' || c == '?' || c == '"' || c == '<' || c == '>'
        || c == '|' {
        '_'
    } else {
        c
    }
}

/// Replaces the characters that file systems refuse in names by underscores,
/// character for character.
pub fn sanitize_filename(name: &str) -> (r: String)
    ensures
        r@ == name@.map_values(|c: char| sanitize_char(c)),
{
    let n = name.unicode_len();
    let mut out = String::new();
    let mut i: usize = 0;
    while i < n
        invariant
            i <= n,
            n == name@.len(),
            out@ == name@.take(i as int).map_values(|c: char| sanitize_char(c)),
        decreases n - i,
    {
        let c = name.get_char(i);
        if c == '/' || c == '\\' || c == ':' || c == '*' || c == '?' || c == '"' || c == '<' || c
            == '>' || c == '|' {
            proof {
                reveal_strlit("_");
            }
            out.append("_");
        } else {
            let piece = name.substring_char(i, i + 1);
            out.append(piece);
        }
        proof {
            assert(name@.take(i as int + 1).map_values(|ch: char| sanitize_char(ch)) =~= name@.take(
                i as int,
            ).map_values(|ch: char| sanitize_char(ch)).push(sanitize_char(name@[i as int])));
            assert(name@.subrange(i as int, i as int + 1) =~= seq![name@[i as int]]);
        }
        i = i + 1;
    }
    proof {
        assert(name@.take(n as int) =~= name@);
    }
    out
}

/// Relies on `String::from_utf8`: it succeeds exactly on valid UTF-8 input
/// and yields the characters that the bytes encode.
#[verifier::external_body]
pub(crate) fn string_from_utf8(v: Vec<u8>) -> (r: Option<String>)
    ensures
        (match r {
            Some(s) => vstd::utf8::valid_utf8(v@) && s@ == vstd::utf8::decode_utf8(v@),
            None => !vstd::utf8::valid_utf8(v@),
        }),
{
    String::from_utf8(v).ok()
}

/// The natural order that the `natord` library implements: digit runs compare
/// by numeric value, everything else by character. Uninterpreted here; the
/// trusted comparison below relates its answers to this relation.
pub uninterp spec fn nat_lt(a: Seq<char>, b: Seq<char>) -> bool;

/// Relies on `natord::compare`, whose result depends on the two strings
/// alone and which orders arguments antisymmetrically (swapping them reverses
/// the answer): minus one, zero or one as `a` is naturally before, tied with,
/// or after `b`.
#[verifier::external_body]
pub(crate) fn natural_compare(a: &str, b: &str) -> (r: i8)
    ensures
        r == -1 || r == 0 || r == 1,
        (r == -1) == nat_lt(a@, b@),
        (r == 1) == nat_lt(b@, a@),
{
    match natord::compare(a, b) {
        std::cmp::Ordering::Less => -1,
        std::cmp::Ordering::Equal => 0,
        std::cmp::Ordering::Greater => 1,
    }
}

} // verus!
