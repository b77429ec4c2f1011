use vstd::prelude::*;
use vstd::utf8::{encode_utf8, encode_utf8_decode_utf8};

verus! {

/// Lexicographic "less than" on byte sequences, comparing from position `i` on
/// (the positions before `i` being taken as equal).
pub open spec fn lex_lt_from(a: Seq<u8>, b: Seq<u8>, i: int) -> bool
    decreases a.len() - i, b.len() - i,
{
    if i < 0 || i >= b.len() {
        false
    } else if i >= a.len() {
        true
    } else if a[i] < b[i] {
        true
    } else if a[i] > b[i] {
        false
    } else {
        lex_lt_from(a, b, i + 1)
    }
}

/// Lexicographic order on bytes: the order of `str` and `String`.
pub open spec fn lex_lt(a: Seq<u8>, b: Seq<u8>) -> bool {
    lex_lt_from(a, b, 0)
}

pub open spec fn lex_le(a: Seq<u8>, b: Seq<u8>) -> bool {
    lex_lt(a, b) || a == b
}

/// `s` begins with `q`.
pub open spec fn has_prefix(s: Seq<u8>, q: Seq<u8>) -> bool {
    q.len() <= s.len() && s.subrange(0, q.len() as int) == q
}

/// `q` occurs in `s` starting at byte `k`.
pub open spec fn occurs_at(s: Seq<u8>, q: Seq<u8>, k: int) -> bool {
    0 <= k && k + q.len() <= s.len() && s.subrange(k, k + q.len()) == q
}

/// `q` occurs somewhere in `s`.
pub open spec fn has_substring(s: Seq<u8>, q: Seq<u8>) -> bool {
    exists|k: int| occurs_at(s, q, k)
}

proof fn lemma_lt_from_irrefl(a: Seq<u8>, i: int)
    requires
        0 <= i,
    ensures
        !lex_lt_from(a, a, i),
    decreases a.len() - i,
{
    if i < a.len() {
        lemma_lt_from_irrefl(a, i + 1);
    }
}

proof fn lemma_lt_from_trans(a: Seq<u8>, b: Seq<u8>, c: Seq<u8>, i: int)
    requires
        0 <= i,
        lex_lt_from(a, b, i),
        lex_lt_from(b, c, i),
    ensures
        lex_lt_from(a, c, i),
    decreases a.len() - i,
{
    if i < a.len() && i < b.len() && i < c.len() && a[i] == b[i] && b[i] == c[i] {
        lemma_lt_from_trans(a, b, c, i + 1);
    }
}

proof fn lemma_lt_from_asym(a: Seq<u8>, b: Seq<u8>, i: int)
    requires
        0 <= i,
        lex_lt_from(a, b, i),
    ensures
        !lex_lt_from(b, a, i),
    decreases a.len() - i,
{
    if i < a.len() && i < b.len() && a[i] == b[i] {
        lemma_lt_from_asym(a, b, i + 1);
    }
}

proof fn lemma_lt_from_total(a: Seq<u8>, b: Seq<u8>, i: int)
    requires
        0 <= i <= a.len(),
        i <= b.len(),
        a.subrange(0, i) == b.subrange(0, i),
        a != b,
    ensures
        lex_lt_from(a, b, i) || lex_lt_from(b, a, i),
    decreases a.len() - i,
{
    if i < a.len() && i < b.len() && a[i] == b[i] {
        assert(a.subrange(0, i + 1) =~= a.subrange(0, i).push(a[i]));
        assert(b.subrange(0, i + 1) =~= b.subrange(0, i).push(b[i]));
        lemma_lt_from_total(a, b, i + 1);
    } else if i == a.len() && i == b.len() {
        assert(a =~= a.subrange(0, i));
        assert(b =~= b.subrange(0, i));
    }
}

/// `lex_lt` is irreflexive.
pub proof fn lemma_lt_irrefl(a: Seq<u8>)
    ensures
        !lex_lt(a, a),
{
    lemma_lt_from_irrefl(a, 0);
}

/// `lex_lt` is transitive.
pub proof fn lemma_lt_trans(a: Seq<u8>, b: Seq<u8>, c: Seq<u8>)
    requires
        lex_lt(a, b),
        lex_lt(b, c),
    ensures
        lex_lt(a, c),
{
    lemma_lt_from_trans(a, b, c, 0);
}

/// `lex_lt` is asymmetric.
pub proof fn lemma_lt_asym(a: Seq<u8>, b: Seq<u8>)
    requires
        lex_lt(a, b),
    ensures
        !lex_lt(b, a),
{
    lemma_lt_from_asym(a, b, 0);
}

/// Two distinct byte sequences are ordered one way or the other.
pub proof fn lemma_lt_total(a: Seq<u8>, b: Seq<u8>)
    requires
        a != b,
    ensures
        lex_lt(a, b) || lex_lt(b, a),
{
    assert(a.subrange(0, 0) =~= b.subrange(0, 0));
    lemma_lt_from_total(a, b, 0);
}

proof fn lemma_prefix_not_below_from(s: Seq<u8>, q: Seq<u8>, i: int)
    requires
        has_prefix(s, q),
        0 <= i,
    ensures
        !lex_lt_from(s, q, i),
    decreases q.len() - i,
{
    if i < q.len() {
        assert(s[i] == s.subrange(0, q.len() as int)[i]);
        lemma_prefix_not_below_from(s, q, i + 1);
    }
}

/// A sequence that begins with `q` is not below `q`.
pub proof fn lemma_prefix_not_below(s: Seq<u8>, q: Seq<u8>)
    requires
        has_prefix(s, q),
    ensures
        !lex_lt(s, q),
{
    lemma_prefix_not_below_from(s, q, 0);
}

proof fn lemma_prefix_block_from(q: Seq<u8>, s: Seq<u8>, t: Seq<u8>, i: int)
    requires
        has_prefix(s, q),
        !has_prefix(t, q),
        !lex_lt_from(t, q, i),
        0 <= i <= q.len(),
        i <= t.len(),
        t.subrange(0, i) == q.subrange(0, i),
    ensures
        lex_lt_from(s, t, i),
    decreases q.len() - i,
{
    if i < q.len() {
        assert(s[i] == s.subrange(0, q.len() as int)[i]);
    }
    if i == q.len() {
        assert(q.subrange(0, i) =~= q);
        assert(t.subrange(0, q.len() as int) == q);
    } else if i == t.len() {
    } else if t[i] == q[i] {
        assert(t.subrange(0, i + 1) =~= t.subrange(0, i).push(t[i]));
        assert(q.subrange(0, i + 1) =~= q.subrange(0, i).push(q[i]));
        lemma_prefix_block_from(q, s, t, i + 1);
    }
}

/// Among sequences not below `q`, those that begin with `q` come before
/// those that do not.
pub proof fn lemma_prefix_block(q: Seq<u8>, s: Seq<u8>, t: Seq<u8>)
    requires
        has_prefix(s, q),
        !has_prefix(t, q),
        !lex_lt(t, q),
    ensures
        lex_lt(s, t),
{
    assert(t.subrange(0, 0) =~= q.subrange(0, 0));
    lemma_prefix_block_from(q, s, t, 0);
}

/// Whether `a` comes before `b` in byte order.
pub fn bytes_lt(a: &[u8], b: &[u8]) -> (r: bool)
    ensures
        r == lex_lt(a@, b@),
{
    let mut i: usize = 0;
    while i < a.len() && i < b.len()
        invariant
            i <= a.len(),
            i <= b.len(),
            lex_lt(a@, b@) == lex_lt_from(a@, b@, i as int),
        decreases a.len() - i,
    {
        if a[i] < b[i] {
            return true;
        }
        if a[i] > b[i] {
            return false;
        }
        i = i + 1;
    }
    i < b.len()
}

/// Whether `s` begins with `q`.
pub fn bytes_starts_with(s: &[u8], q: &[u8]) -> (r: bool)
    ensures
        r == has_prefix(s@, q@),
{
    if q.len() > s.len() {
        return false;
    }
    let mut i: usize = 0;
    while i < q.len()
        invariant
            q.len() <= s.len(),
            i <= q.len(),
            forall|j: int| 0 <= j < i ==> s@[j] == q@[j],
        decreases q.len() - i,
    {
        if s[i] != q[i] {
            assert(s@.subrange(0, q.len() as int)[i as int] != q@[i as int]);
            return false;
        }
        i = i + 1;
    }
    assert(s@.subrange(0, q.len() as int) =~= q@);
    true
}

/// Whether `q` occurs at byte `k` of `s`.
fn bytes_occurs_at(s: &[u8], q: &[u8], k: usize) -> (r: bool)
    requires
        k + q.len() <= s.len(),
    ensures
        r == occurs_at(s@, q@, k as int),
{
    let mut i: usize = 0;
    while i < q.len()
        invariant
            k + q.len() <= s.len(),
            i <= q.len(),
            forall|j: int| 0 <= j < i ==> s@[k + j] == q@[j],
        decreases q.len() - i,
    {
        if s[k + i] != q[i] {
            assert(s@.subrange(k as int, k + q.len())[i as int] != q@[i as int]);
            return false;
        }
        i = i + 1;
    }
    assert(s@.subrange(k as int, k + q.len()) =~= q@);
    true
}

/// Whether `q` occurs somewhere in `s`.
pub fn bytes_contains(s: &[u8], q: &[u8]) -> (r: bool)
    ensures
        r == has_substring(s@, q@),
{
    if q.len() > s.len() {
        return false;
    }
    let last = s.len() - q.len();
    let mut k: usize = 0;
    while k < last
        invariant
            last == s.len() - q.len(),
            q.len() <= s.len(),
            k <= last,
            forall|j: int| 0 <= j < k ==> !occurs_at(s@, q@, j),
        decreases last - k,
    {
        if bytes_occurs_at(s, q, k) {
            return true;
        }
        k = k + 1;
    }
    if bytes_occurs_at(s, q, last) {
        return true;
    }
    assert forall|j: int| !occurs_at(s@, q@, j) by {
        if 0 <= j && j + q.len() <= s.len() {
            assert(j <= last);
        }
    }
    false
}


/// The UTF-8 bytes of a string: what `as_bytes` gives and what `String`'s
/// order and equality compare.
pub open spec fn sbytes(s: String) -> Seq<u8> {
    encode_utf8(s@)
}

/// Distinct character sequences have distinct UTF-8 encodings.
pub proof fn lemma_bytes_injective(a: Seq<char>, b: Seq<char>)
    requires
        encode_utf8(a) == encode_utf8(b),
    ensures
        a == b,
{
    encode_utf8_decode_utf8(a);
    encode_utf8_decode_utf8(b);
}

/// Sorted in ascending byte order, equal neighbours allowed.
pub open spec fn sorted_le(v: Seq<String>) -> bool {
    forall|i: int, j: int| 0 <= i < j < v.len() ==> lex_le(#[trigger] sbytes(v[i]), #[trigger] sbytes(v[j]))
}

/// Sorted in strictly ascending byte order: sorted and free of duplicates.
pub open spec fn sorted_lt(v: Seq<String>) -> bool {
    forall|i: int, j: int| 0 <= i < j < v.len() ==> lex_lt(#[trigger] sbytes(v[i]), #[trigger] sbytes(v[j]))
}

/// Some element of `v` has the text `s`.
pub open spec fn has_text(v: Seq<String>, s: Seq<char>) -> bool {
    exists|i: int| 0 <= i < v.len() && (#[trigger] v[i])@ == s
}

/// `slice::sort_unstable` on strings: the vector afterwards holds the same
/// strings, in ascending order of `String`'s `Ord`, which compares bytes.
#[verifier::external_body]
pub fn sort_strings(v: &mut Vec<String>)
    ensures
        final(v)@.to_multiset() == old(v)@.to_multiset(),
        sorted_le(final(v)@),
{
    v.sort_unstable();
}

/// Sorting keeps exactly the texts that were there.
pub proof fn lemma_same_multiset_same_texts(a: Seq<String>, b: Seq<String>, s: Seq<char>)
    requires
        a.to_multiset() == b.to_multiset(),
    ensures
        has_text(a, s) <==> has_text(b, s),
{
    broadcast use vstd::seq_lib::group_to_multiset_ensures;

    if has_text(a, s) {
        let i = choose|i: int| 0 <= i < a.len() && (#[trigger] a[i])@ == s;
        assert(a.contains(a[i]));
        assert(a.to_multiset().count(a[i]) > 0);
        assert(b.to_multiset().count(a[i]) > 0);
        assert(b.contains(a[i]));
        let j = choose|j: int| 0 <= j < b.len() && b[j] == a[i];
        assert(b[j]@ == s);
    }
    if has_text(b, s) {
        let i = choose|i: int| 0 <= i < b.len() && (#[trigger] b[i])@ == s;
        assert(b.contains(b[i]));
        assert(b.to_multiset().count(b[i]) > 0);
        assert(a.to_multiset().count(b[i]) > 0);
        assert(a.contains(b[i]));
        let j = choose|j: int| 0 <= j < a.len() && a[j] == b[i];
        assert(a[j]@ == s);
    }
}

/// Removes consecutive repeats from a sorted vector (as `Vec::dedup` does),
/// which leaves it strictly sorted with the same texts.
pub fn dedup_sorted(v: &Vec<String>) -> (r: Vec<String>)
    requires
        sorted_le(v@),
    ensures
        sorted_lt(r@),
        forall|s: Seq<char>| has_text(r@, s) <==> has_text(v@, s),
{
    let mut r: Vec<String> = Vec::new();
    let mut i: usize = 0;
    while i < v.len()
        invariant
            i <= v.len(),
            sorted_le(v@),
            sorted_lt(r@),
            i == 0 <==> r.len() == 0,
            i > 0 ==> r@.last()@ == v@[i - 1]@,
            forall|s: Seq<char>| has_text(r@, s) <==> has_text(v@.subrange(0, i as int), s),
        decreases v.len() - i,
    {
        let ghost old_r = r@;
        let keep = if r.len() == 0 {
            true
        } else {
            let last = r.len() - 1;
            !(r[last] == v[i])
        };
        if keep {
            let item = v[i].clone();
            r.push(item);
            proof {
                if i > 0 {
                    assert(lex_le(sbytes(v@[i - 1]), sbytes(v@[i as int])));
                    if sbytes(v@[i - 1]) == sbytes(v@[i as int]) {
                        lemma_bytes_injective(v@[i - 1]@, v@[i as int]@);
                    }
                    assert forall|a: int, b: int| 0 <= a < b < r@.len() implies lex_lt(
                        #[trigger] sbytes(r@[a]),
                        #[trigger] sbytes(r@[b]),
                    ) by {
                        if b == r@.len() - 1 {
                            if a < old_r.len() - 1 {
                                lemma_lt_trans(sbytes(r@[a]), sbytes(old_r.last()), sbytes(r@[b]));
                            }
                        }
                    }
                }
            }
        }
        proof {
            let vi = v@.subrange(0, i + 1);
            assert forall|s: Seq<char>| has_text(r@, s) <==> has_text(vi, s) by {
                assert(vi =~= v@.subrange(0, i as int).push(v@[i as int]));
                if has_text(r@, s) {
                    let k = choose|k: int| 0 <= k < r@.len() && (#[trigger] r@[k])@ == s;
                    if k < old_r.len() {
                        assert(has_text(old_r, s));
                        let m = choose|m: int| 0 <= m < i && (#[trigger] v@.subrange(0, i as int)[m])@ == s;
                        assert(vi[m]@ == s);
                    } else {
                        assert(vi[i as int]@ == s);
                    }
                }
                if has_text(vi, s) {
                    let m = choose|m: int| 0 <= m < vi.len() && (#[trigger] vi[m])@ == s;
                    if m < i {
                        assert(v@.subrange(0, i as int)[m]@ == s);
                        assert(has_text(old_r, s));
                        let k = choose|k: int| 0 <= k < old_r.len() && (#[trigger] old_r[k])@ == s;
                        assert(r@[k]@ == s);
                    } else if keep {
                        assert(r@.last()@ == s);
                    } else {
                        assert(old_r.last()@ == s);
                    }
                }
            }
        }
        i = i + 1;
    }
    proof {
        assert(v@.subrange(0, v@.len() as int) =~= v@);
    }
    r
}

} // verus!
