use vstd::prelude::*;

use crate::lines::{chars_of, push_char};
use crate::order::lemma_bytes_injective;

verus! {

/// The ASCII lowercase of one character: `A`..=`Z` become `a`..=`z`,
/// every other character stays as it is.
pub open spec fn lower_char(c: char) -> char {
    if 'A' <= c && c <= 'Z' {
        ((c as u32) + 32) as char
    } else {
        c
    }
}

/// The ASCII lowercase of a character sequence.
pub open spec fn ascii_lower(s: Seq<char>) -> Seq<char> {
    s.map_values(|c: char| lower_char(c))
}

/// The ASCII lowercase of one character.
pub fn lower_char_of(c: char) -> (r: char)
    ensures
        r == lower_char(c),
{
    let code = c as u32;
    if 65 <= code && code <= 90 {
        let low = (code + 32) as u8;
        low as char
    } else {
        c
    }
}

/// The ASCII lowercase of a text: `A`..=`Z` become `a`..=`z`, every other
/// character, non-ASCII ones included, stays as it is.
pub fn to_ascii_lowercase(s: &str) -> (r: String)
    ensures
        r@ == ascii_lower(s@),
{
    let chars = chars_of(s);
    let mut out = String::new();
    let mut i: usize = 0;
    while i < chars.len()
        invariant
            chars@ == s@,
            i <= chars@.len(),
            out@ == ascii_lower(chars@.subrange(0, i as int)),
        decreases chars@.len() - i,
    {
        let c = lower_char_of(chars[i]);
        push_char(&mut out, c);
        proof {
            assert(ascii_lower(chars@.subrange(0, i + 1)) =~= ascii_lower(chars@.subrange(0, i as int)).push(c));
        }
        i = i + 1;
    }
    proof {
        assert(chars@.subrange(0, chars@.len() as int) =~= chars@);
    }
    out
}

/// Joining a path segment onto a base path, as `Path::join` does on Unix:
/// an absolute segment replaces the base; otherwise a `/` is put between
/// them when the base is non-empty and does not already end with one.
pub open spec fn join_spec(base: Seq<char>, seg: Seq<char>) -> Seq<char> {
    if seg.len() > 0 && seg[0] == '/' {
        seg
    } else if base.len() > 0 && base.last() != '/' {
        base + seq!['/'] + seg
    } else {
        base + seg
    }
}

/// Joining puts exactly one `/` between a base that does not end in `/` and
/// a relative segment, none after a base that ends in `/`, adds nothing to
/// an empty base, and lets an absolute segment replace the base.
pub proof fn law_join(base: Seq<char>, seg: Seq<char>)
    ensures
        seg.len() > 0 && seg[0] == '/' ==> join_spec(base, seg) == seg,
        !(seg.len() > 0 && seg[0] == '/') && base.len() > 0 && base.last() != '/' ==> join_spec(base, seg) == base
            + seq!['/'] + seg,
        !(seg.len() > 0 && seg[0] == '/') && base.len() > 0 && base.last() == '/' ==> join_spec(base, seg) == base
            + seg,
        !(seg.len() > 0 && seg[0] == '/') && base.len() == 0 ==> join_spec(base, seg) == seg,
{
    assert(Seq::<char>::empty() + seg =~= seg);
    if base.len() == 0 {
        assert(base + seg =~= seg);
    }
}

/// Joins `seg` onto `base` with the separator rules of `join_spec`.
pub fn path_join(base: &str, seg: &str) -> (r: String)
    ensures
        r@ == join_spec(base@, seg@),
{
    let seg_len = seg.unicode_len();
    if seg_len > 0 && seg.get_char(0) == '/' {
        return String::from_str(seg);
    }
    let base_len = base.unicode_len();
    let mut out = String::from_str(base);
    if base_len > 0 && base.get_char(base_len - 1) != '/' {
        let sep = "/";
        proof {
            reveal_strlit("/");
        }
        out.append(sep);
    }
    out.append(seg);
    out
}

/// Whether two byte slices are equal.
pub fn bytes_eq(a: &[u8], b: &[u8]) -> (r: bool)
    ensures
        r == (a@ == b@),
{
    if a.len() != b.len() {
        return false;
    }
    let mut i: usize = 0;
    while i < a.len()
        invariant
            a.len() == b.len(),
            i <= a.len(),
            forall|j: int| 0 <= j < i ==> a@[j] == b@[j],
        decreases a.len() - i,
    {
        if a[i] != b[i] {
            return false;
        }
        i = i + 1;
    }
    assert(a@ =~= b@);
    true
}

/// Whether two strings have the same text.
pub fn str_eq(a: &str, b: &str) -> (r: bool)
    ensures
        r == (a@ == b@),
{
    let r = bytes_eq(a.as_bytes(), b.as_bytes());
    proof {
        if r {
            lemma_bytes_injective(a@, b@);
        }
    }
    r
}

/// Whether the text of `s` begins with the text of `p`.
pub fn str_starts_with(s: &str, p: &str) -> (r: bool)
    ensures
        r == (p@.len() <= s@.len() && s@.subrange(0, p@.len() as int) == p@),
{
    let n = s.unicode_len();
    let m = p.unicode_len();
    if m > n {
        return false;
    }
    str_eq(s.substring_char(0, m), p)
}

} // verus!
