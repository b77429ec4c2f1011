use vstd::prelude::*;
use vstd::std_specs::iter::IteratorSpec;

verus! {

/// `char::is_whitespace`: the characters with Unicode's `White_Space` property.
pub open spec fn is_ws(c: char) -> bool {
    c == '\t' || c == '\n' || c == '\u{0B}' || c == '\u{0C}' || c == '\r' || c == ' ' || c == '\u{85}'
        || c == '\u{A0}' || c == '\u{1680}' || ('\u{2000}' <= c && c <= '\u{200A}') || c == '\u{2028}'
        || c == '\u{2029}' || c == '\u{202F}' || c == '\u{205F}' || c == '\u{3000}'
}

/// Whether a character is whitespace in the sense of `char::is_whitespace`.
pub fn is_whitespace(c: char) -> (r: bool)
    ensures
        r == is_ws(c),
{
    c == '\t' || c == '\n' || c == '\u{0B}' || c == '\u{0C}' || c == '\r' || c == ' ' || c == '\u{85}'
        || c == '\u{A0}' || c == '\u{1680}' || ('\u{2000}' <= c && c <= '\u{200A}') || c == '\u{2028}'
        || c == '\u{2029}' || c == '\u{202F}' || c == '\u{205F}' || c == '\u{3000}'
}

/// A line is blank when it trims to nothing: every character is whitespace.
pub open spec fn is_blank(s: Seq<char>) -> bool {
    forall|i: int| 0 <= i < s.len() ==> is_ws(#[trigger] s[i])
}

/// The position of the first `\n` of `s`, or its length when there is none.
pub open spec fn first_nl(s: Seq<char>) -> int
    decreases s.len(),
{
    if s.len() == 0 {
        0
    } else if s[0] == '\n' {
        0
    } else {
        1 + first_nl(s.drop_first())
    }
}

proof fn lemma_first_nl(s: Seq<char>, k: int)
    requires
        0 <= k <= s.len(),
        forall|j: int| 0 <= j < k ==> s[j] != '\n',
        k < s.len() ==> s[k] == '\n',
    ensures
        first_nl(s) == k,
    decreases s.len(),
{
    if s.len() > 0 && k > 0 {
        assert forall|j: int| 0 <= j < k - 1 implies s.drop_first()[j] != '\n' by {
            assert(s.drop_first()[j] == s[j + 1]);
        }
        lemma_first_nl(s.drop_first(), k - 1);
    }
}

pub proof fn lemma_first_nl_bound(s: Seq<char>)
    ensures
        0 <= first_nl(s) <= s.len(),
    decreases s.len(),
{
    if s.len() > 0 {
        lemma_first_nl_bound(s.drop_first());
    }
}

/// A line without its line feed loses one trailing carriage return too.
pub open spec fn strip_cr(s: Seq<char>) -> Seq<char> {
    if s.len() > 0 && s.last() == '\r' {
        s.drop_last()
    } else {
        s
    }
}

/// The lines of a text, as `str::lines` gives them: split at each `\n`,
/// a `\r` right before the `\n` dropped, and no empty line after a final `\n`.
pub open spec fn lines_spec(s: Seq<char>) -> Seq<Seq<char>>
    decreases s.len(),
{
    if s.len() == 0 {
        seq![]
    } else {
        let k = first_nl(s);
        proof {
            lemma_first_nl_bound(s);
        }
        if k < s.len() {
            seq![strip_cr(s.subrange(0, k))] + lines_spec(s.subrange(k + 1, s.len() as int))
        } else {
            seq![s]
        }
    }
}

/// `str::trim`: the text without its leading and trailing whitespace.
pub open spec fn trim_spec(s: Seq<char>) -> Seq<char>
    decreases s.len(),
{
    if s.len() > 0 && is_ws(s[0]) {
        trim_spec(s.drop_first())
    } else if s.len() > 0 && is_ws(s.last()) {
        trim_spec(s.drop_last())
    } else {
        s
    }
}

/// The trimmed non-blank lines, in order.
pub open spec fn kept_lines(ls: Seq<Seq<char>>) -> Seq<Seq<char>>
    decreases ls.len(),
{
    if ls.len() == 0 {
        seq![]
    } else if is_blank(ls.last()) {
        kept_lines(ls.drop_last())
    } else {
        kept_lines(ls.drop_last()).push(trim_spec(ls.last()))
    }
}

/// The last line that is not blank.
pub open spec fn last_nonblank(ls: Seq<Seq<char>>) -> Option<Seq<char>>
    decreases ls.len(),
{
    if ls.len() == 0 {
        None
    } else if !is_blank(ls.last()) {
        Some(ls.last())
    } else {
        last_nonblank(ls.drop_last())
    }
}

proof fn lemma_trim_shape(s: Seq<char>)
    ensures
        is_blank(s) ==> trim_spec(s).len() == 0,
        !is_blank(s) ==> trim_spec(s).len() > 0 && !is_ws(trim_spec(s)[0]) && !is_ws(trim_spec(s).last()),
    decreases s.len(),
{
    if s.len() > 0 && is_ws(s[0]) {
        let t = s.drop_first();
        lemma_trim_shape(t);
        assert(is_blank(s) <==> is_blank(t)) by {
            if is_blank(t) {
                assert forall|i: int| 0 <= i < s.len() implies is_ws(#[trigger] s[i]) by {
                    if i > 0 {
                        assert(s[i] == t[i - 1]);
                    }
                }
            }
            if is_blank(s) {
                assert forall|i: int| 0 <= i < t.len() implies is_ws(#[trigger] t[i]) by {
                    assert(t[i] == s[i + 1]);
                }
            }
        }
    } else if s.len() > 0 && is_ws(s.last()) {
        let t = s.drop_last();
        lemma_trim_shape(t);
        assert(is_blank(s) <==> is_blank(t)) by {
            if is_blank(t) {
                assert forall|i: int| 0 <= i < s.len() implies is_ws(#[trigger] s[i]) by {
                    if i < s.len() - 1 {
                        assert(s[i] == t[i]);
                    }
                }
            }
            if is_blank(s) {
                assert forall|i: int| 0 <= i < t.len() implies is_ws(#[trigger] t[i]) by {
                    assert(t[i] == s[i]);
                }
            }
        }
    } else if s.len() > 0 {
        assert(!is_blank(s));
    }
}

proof fn lemma_trim_fixed(s: Seq<char>)
    requires
        s.len() > 0,
        !is_ws(s[0]),
        !is_ws(s.last()),
    ensures
        trim_spec(s) == s,
{
}

/// No `\n` in the text.
pub open spec fn no_newline(s: Seq<char>) -> bool {
    forall|i: int| 0 <= i < s.len() ==> s[i] != '\n'
}

/// How a text splits into lines: no text has no lines; a non-empty text
/// without `\n` is one line; and a text that starts with a line ended by
/// `\n` gives that line (without a `\r` before the `\n`) followed by the
/// lines of the rest.
pub proof fn law_lines_split(t: Seq<char>, rest: Seq<char>)
    requires
        no_newline(t),
    ensures
        lines_spec(Seq::empty()) == Seq::<Seq<char>>::empty(),
        t.len() > 0 ==> lines_spec(t) == seq![t],
        lines_spec(t + seq!['\n'] + rest) == seq![strip_cr(t)] + lines_spec(rest),
{
    lemma_first_nl(t, t.len() as int);
    let s = t + seq!['\n'] + rest;
    assert forall|j: int| 0 <= j < t.len() implies s[j] != '\n' by {
        assert(s[j] == t[j]);
    }
    lemma_first_nl(s, t.len() as int);
    assert(s.subrange(0, t.len() as int) =~= t);
    assert(s.subrange(t.len() as int + 1, s.len() as int) =~= rest);
}

proof fn lemma_trim_witness(s: Seq<char>) -> (r: (int, int))
    ensures
        0 <= r.0 <= r.1 <= s.len(),
        s.subrange(r.0, r.1) == trim_spec(s),
        forall|i: int| 0 <= i < r.0 ==> is_ws(#[trigger] s[i]),
        forall|i: int| r.1 <= i < s.len() ==> is_ws(#[trigger] s[i]),
    decreases s.len(),
{
    if s.len() > 0 && is_ws(s[0]) {
        let t = s.drop_first();
        let (a, b) = lemma_trim_witness(t);
        assert(s.subrange(a + 1, b + 1) =~= t.subrange(a, b));
        assert forall|i: int| 0 <= i < a + 1 implies is_ws(#[trigger] s[i]) by {
            if i > 0 {
                assert(s[i] == t[i - 1]);
            }
        }
        assert forall|i: int| b + 1 <= i < s.len() implies is_ws(#[trigger] s[i]) by {
            assert(s[i] == t[i - 1]);
        }
        (a + 1, b + 1)
    } else if s.len() > 0 && is_ws(s.last()) {
        let t = s.drop_last();
        let (a, b) = lemma_trim_witness(t);
        assert(s.subrange(a, b) =~= t.subrange(a, b));
        assert forall|i: int| 0 <= i < a implies is_ws(#[trigger] s[i]) by {
            assert(s[i] == t[i]);
        }
        assert forall|i: int| b <= i < s.len() implies is_ws(#[trigger] s[i]) by {
            if i < t.len() {
                assert(s[i] == t[i]);
            }
        }
        (a, b)
    } else {
        assert(s.subrange(0, s.len() as int) =~= s);
        (0, s.len() as int)
    }
}

/// Trimming keeps a middle part of the text and drops only whitespace
/// around it; what it keeps is empty for a blank text, and otherwise starts
/// and ends with a character that is not whitespace.
pub proof fn law_trim_core(s: Seq<char>)
    ensures
        exists|a: int, b: int|
            0 <= a <= b <= s.len() && #[trigger] s.subrange(a, b) == trim_spec(s) && (forall|i: int|
                0 <= i < a ==> is_ws(s[i])) && (forall|i: int| b <= i < s.len() ==> is_ws(s[i])),
        is_blank(s) ==> trim_spec(s).len() == 0,
        !is_blank(s) ==> trim_spec(s).len() > 0 && !is_ws(trim_spec(s)[0]) && !is_ws(trim_spec(s).last()),
{
    lemma_trim_shape(s);
    let (a, b) = lemma_trim_witness(s);
    assert(s.subrange(a, b) == trim_spec(s));
}

/// The line taken as the latest version is a line of the text that is not
/// blank, and every line after it is blank; there is none only when every
/// line is blank.
pub proof fn law_last_nonblank(ls: Seq<Seq<char>>)
    ensures
        last_nonblank(ls) matches Some(x) ==> exists|k: int|
            0 <= k < ls.len() && #[trigger] ls[k] == x && !is_blank(x) && forall|j: int|
                k < j < ls.len() ==> is_blank(#[trigger] ls[j]),
        last_nonblank(ls) is None ==> forall|j: int| 0 <= j < ls.len() ==> is_blank(#[trigger] ls[j]),
    decreases ls.len(),
{
    if ls.len() > 0 {
        let t = ls.drop_last();
        law_last_nonblank(t);
        if !is_blank(ls.last()) {
            assert(ls[ls.len() - 1] == ls.last());
        } else if last_nonblank(t) is Some {
            let x = last_nonblank(t)->0;
            let k = choose|k: int|
                0 <= k < t.len() && #[trigger] t[k] == x && !is_blank(x) && forall|j: int|
                    k < j < t.len() ==> is_blank(#[trigger] t[j]);
            assert(ls[k] == t[k]);
            assert forall|j: int| k < j < ls.len() implies is_blank(#[trigger] ls[j]) by {
                if j < t.len() {
                    assert(ls[j] == t[j]);
                }
            }
        } else {
            assert forall|j: int| 0 <= j < ls.len() implies is_blank(#[trigger] ls[j]) by {
                if j < t.len() {
                    assert(ls[j] == t[j]);
                }
            }
        }
    }
}

/// The kept lines of two runs of lines, one after the other, are the kept
/// lines of the first run followed by those of the second; a single line is
/// kept, trimmed, exactly when it is not blank.
pub proof fn law_kept_lines_concat(a: Seq<Seq<char>>, b: Seq<Seq<char>>)
    ensures
        kept_lines(a + b) == kept_lines(a) + kept_lines(b),
        forall|l: Seq<char>| #[trigger] kept_lines(seq![l]) == if is_blank(l) {
            Seq::<Seq<char>>::empty()
        } else {
            seq![trim_spec(l)]
        },
    decreases b.len(),
{
    assert forall|l: Seq<char>| #[trigger] kept_lines(seq![l]) == if is_blank(l) {
        Seq::<Seq<char>>::empty()
    } else {
        seq![trim_spec(l)]
    } by {
        let e = Seq::<Seq<char>>::empty();
        assert(seq![l].drop_last() =~= e);
        assert(seq![l].last() == l);
        assert(kept_lines(e) == e);
        assert(kept_lines(seq![l]) == if is_blank(l) {
            kept_lines(e)
        } else {
            kept_lines(e).push(trim_spec(l))
        });
        if !is_blank(l) {
            assert(Seq::<Seq<char>>::empty().push(trim_spec(l)) =~= seq![trim_spec(l)]);
        }
    }
    if b.len() == 0 {
        assert(a + b =~= a);
        assert(kept_lines(a) + kept_lines(b) =~= kept_lines(a));
    } else {
        law_kept_lines_concat(a, b.drop_last());
        assert((a + b).drop_last() =~= a + b.drop_last());
        assert((a + b).last() == b.last());
        if is_blank(b.last()) {
        } else {
            assert(kept_lines(a) + kept_lines(b.drop_last()).push(trim_spec(b.last())) =~= (kept_lines(a)
                + kept_lines(b.drop_last())).push(trim_spec(b.last())));
        }
    }
}

/// Every line kept from an index file is non-empty and has no whitespace
/// at either end: trimming it again changes nothing.
pub proof fn law_kept_lines_trimmed(ls: Seq<Seq<char>>)
    ensures
        forall|k: int| 0 <= k < kept_lines(ls).len() ==> (#[trigger] kept_lines(ls)[k]).len() > 0 && trim_spec(
            kept_lines(ls)[k],
        ) == kept_lines(ls)[k],
    decreases ls.len(),
{
    if ls.len() > 0 {
        law_kept_lines_trimmed(ls.drop_last());
        if !is_blank(ls.last()) {
            lemma_trim_shape(ls.last());
            lemma_trim_fixed(trim_spec(ls.last()));
            let prev = kept_lines(ls.drop_last());
            assert forall|k: int| 0 <= k < kept_lines(ls).len() implies (#[trigger] kept_lines(ls)[k]).len() > 0
                && trim_spec(kept_lines(ls)[k]) == kept_lines(ls)[k] by {
                if k < prev.len() {
                    assert(kept_lines(ls)[k] == prev[k]);
                }
            }
        }
    }
}

/// `String::push` appends one character.
#[verifier::external_body]
pub(crate) fn push_char(s: &mut String, c: char)
    ensures
        final(s)@ == old(s)@.push(c),
{
    s.push(c);
}

/// The characters of a text, in order.
pub fn chars_of(s: &str) -> (r: Vec<char>)
    ensures
        r@ == s@,
{
    broadcast use vstd::string::group_string_axioms;

    let mut out: Vec<char> = Vec::new();
    let mut it = s.chars();
    loop
        invariant
            out@ + it.remaining() == s@,
            it.decrease() is Some,
        ensures
            out@ == s@,
        decreases it.decrease()->0,
    {
        let ghost before = it.remaining();
        match it.next() {
            Some(c) => {
                out.push(c);
                proof {
                    assert(out@ + it.remaining() =~= s@) by {
                        assert(before =~= seq![c] + before.drop_first());
                    }
                }
            },
            None => {
                proof {
                    assert(out@ =~= s@);
                }
                break;
            },
        }
    }
    out
}

/// The text made of the characters `cs[from..to]`.
pub fn string_of(cs: &Vec<char>, from: usize, to: usize) -> (r: String)
    requires
        from <= to <= cs@.len(),
    ensures
        r@ == cs@.subrange(from as int, to as int),
{
    let mut out = String::new();
    let mut i = from;
    while i < to
        invariant
            from <= i <= to <= cs@.len(),
            out@ == cs@.subrange(from as int, i as int),
        decreases to - i,
    {
        push_char(&mut out, cs[i]);
        proof {
            assert(out@ =~= cs@.subrange(from as int, i + 1));
        }
        i = i + 1;
    }
    out
}

proof fn lemma_trim_bounds(s: Seq<char>, a: int, b: int)
    requires
        0 <= a <= b <= s.len(),
        forall|j: int| 0 <= j < a ==> is_ws(#[trigger] s[j]),
        forall|j: int| b <= j < s.len() ==> is_ws(#[trigger] s[j]),
        a < b ==> !is_ws(s[a]) && !is_ws(s[b - 1]),
        a == b ==> b == s.len(),
    ensures
        trim_spec(s) == s.subrange(a, b),
    decreases s.len(),
{
    if s.len() > 0 && is_ws(s[0]) {
        let t = s.drop_first();
        assert forall|j: int| 0 <= j < a - 1 implies is_ws(#[trigger] t[j]) by {
            assert(t[j] == s[j + 1]);
        }
        assert forall|j: int| b - 1 <= j < t.len() implies is_ws(#[trigger] t[j]) by {
            assert(t[j] == s[j + 1]);
        }
        lemma_trim_bounds(t, a - 1, b - 1);
        assert(t.subrange(a - 1, b - 1) =~= s.subrange(a, b));
    } else if s.len() > 0 && is_ws(s.last()) {
        let t = s.drop_last();
        if a == b {
            assert(a == s.len());
            assert(is_ws(s[0]) || s.len() == 0) by {
                if s.len() > 0 {
                    assert(0 < a);
                }
            }
        }
        assert(b < s.len());
        assert forall|j: int| b <= j < t.len() implies is_ws(#[trigger] t[j]) by {
            assert(t[j] == s[j]);
        }
        lemma_trim_bounds(t, a, b);
        assert(t.subrange(a, b) =~= s.subrange(a, b));
    } else {
        if s.len() > 0 {
            assert(a == 0);
            assert(b == s.len());
        }
        assert(s.subrange(a, b) =~= s);
    }
}

/// Whether `cs[from..to]` is blank.
fn blank_range(cs: &Vec<char>, from: usize, to: usize) -> (r: bool)
    requires
        from <= to <= cs@.len(),
    ensures
        r == is_blank(cs@.subrange(from as int, to as int)),
{
    let ghost s = cs@.subrange(from as int, to as int);
    let mut i = from;
    while i < to
        invariant
            from <= i <= to <= cs@.len(),
            s == cs@.subrange(from as int, to as int),
            forall|j: int| from <= j < i ==> is_ws(#[trigger] cs@[j]),
        decreases to - i,
    {
        if !is_whitespace(cs[i]) {
            proof {
                assert(s[i - from] == cs@[i as int]);
            }
            return false;
        }
        i = i + 1;
    }
    proof {
        assert forall|k: int| 0 <= k < s.len() implies is_ws(#[trigger] s[k]) by {
            assert(s[k] == cs@[from + k]);
        }
    }
    true
}

/// The trimmed text of `cs[from..to]`, or `None` when it is blank.
fn trimmed_of(cs: &Vec<char>, from: usize, to: usize) -> (r: Option<String>)
    requires
        from <= to <= cs@.len(),
    ensures
        is_blank(cs@.subrange(from as int, to as int)) ==> r is None,
        !is_blank(cs@.subrange(from as int, to as int)) ==> r is Some && r->0@ == trim_spec(
            cs@.subrange(from as int, to as int),
        ),
{
    let ghost s = cs@.subrange(from as int, to as int);
    let mut a = from;
    while a < to && is_whitespace(cs[a])
        invariant
            from <= a <= to <= cs@.len(),
            s == cs@.subrange(from as int, to as int),
            forall|j: int| from <= j < a ==> is_ws(#[trigger] cs@[j]),
        decreases to - a,
    {
        a = a + 1;
    }
    if a == to {
        proof {
            assert forall|i: int| 0 <= i < s.len() implies is_ws(#[trigger] s[i]) by {
                assert(s[i] == cs@[from + i]);
            }
        }
        return None;
    }
    let mut b = to;
    while b > a && is_whitespace(cs[b - 1])
        invariant
            from <= a < to <= cs@.len(),
            a <= b <= to,
            !is_ws(cs@[a as int]),
            forall|j: int| b <= j < to ==> is_ws(#[trigger] cs@[j]),
        decreases b,
    {
        b = b - 1;
    }
    proof {
        assert(!is_ws(s[a - from]));
        assert forall|j: int| 0 <= j < a - from implies is_ws(#[trigger] s[j]) by {
            assert(s[j] == cs@[from + j]);
        }
        assert forall|j: int| b - from <= j < s.len() implies is_ws(#[trigger] s[j]) by {
            assert(s[j] == cs@[from + j]);
        }
        assert(s[b - 1 - from] == cs@[b - 1]);
        lemma_trim_bounds(s, a - from, b - from);
        assert(cs@.subrange(a as int, b as int) =~= s.subrange(a - from, b - from));
    }
    Some(string_of(cs, a, b))
}

/// The line of `cs` that starts at `start` and ends before `end`
/// (a `\n` or the end of the text), and where the next one starts.
proof fn lemma_lines_step(cs: Seq<char>, start: int, end: int)
    requires
        0 <= start <= end <= cs.len(),
        start < cs.len(),
        forall|j: int| start <= j < end ==> cs[j] != '\n',
        end < cs.len() ==> cs[end] == '\n',
    ensures
        end < cs.len() ==> lines_spec(cs.subrange(start, cs.len() as int)) == seq![
            strip_cr(cs.subrange(start, end))
        ] + lines_spec(cs.subrange(end + 1, cs.len() as int)),
        end == cs.len() ==> lines_spec(cs.subrange(start, cs.len() as int)) == seq![cs.subrange(start, end)],
{
    let t = cs.subrange(start, cs.len() as int);
    lemma_first_nl(t, end - start);
    if end < cs.len() {
        assert(t.subrange(0, end - start) =~= cs.subrange(start, end));
        assert(t.subrange(end - start + 1, t.len() as int) =~= cs.subrange(end + 1, cs.len() as int));
    } else {
        assert(t =~= cs.subrange(start, end));
    }
}

/// Each range of `r` delimits in `cs` the line of `lines` at its position.
pub open spec fn ranges_of_lines(cs: Seq<char>, r: Seq<(usize, usize)>, lines: Seq<Seq<char>>) -> bool {
    &&& r.len() == lines.len()
    &&& forall|k: int|
        #![trigger r[k]]
        #![trigger lines[k]]
        0 <= k < r.len() ==> {
            &&& r[k].0 <= r[k].1
            &&& r[k].1 <= cs.len()
            &&& cs.subrange(r[k].0 as int, r[k].1 as int) == lines[k]
        }
}

/// Where each line of a text lies, as `str::lines` splits it: the start of
/// the line and its end, before the `\n` and before a `\r` that precedes it.
fn line_ranges(cs: &Vec<char>) -> (r: Vec<(usize, usize)>)
    ensures
        ranges_of_lines(cs@, r@, lines_spec(cs@)),
{
    let n = cs.len();
    let mut out: Vec<(usize, usize)> = Vec::new();
    let mut start: usize = 0;
    let ghost mut done: Seq<Seq<char>> = seq![];
    proof {
        assert(cs@.subrange(0, n as int) =~= cs@);
        assert(done + lines_spec(cs@) =~= lines_spec(cs@));
    }
    while start < n
        invariant
            n == cs@.len(),
            start <= n,
            lines_spec(cs@) == done + lines_spec(cs@.subrange(start as int, n as int)),
            ranges_of_lines(cs@, out@, done),
        decreases n - start,
    {
        let mut end = start;
        while end < n && cs[end] != '\n'
            invariant
                start <= end <= n,
                n == cs@.len(),
                forall|j: int| start <= j < end ==> cs@[j] != '\n',
            decreases n - end,
        {
            end = end + 1;
        }
        proof {
            lemma_lines_step(cs@, start as int, end as int);
        }
        let line_end = if end < n && end > start && cs[end - 1] == '\r' {
            end - 1
        } else {
            end
        };
        let ghost line = cs@.subrange(start as int, line_end as int);
        proof {
            if end < n {
                if end > start && cs@[end - 1] == '\r' {
                    assert(cs@.subrange(start as int, end as int).drop_last() =~= line);
                } else {
                    assert(cs@.subrange(start as int, end as int) =~= line);
                }
                assert(strip_cr(cs@.subrange(start as int, end as int)) == line);
            }
        }
        let ghost old_out = out@;
        let ghost old_done = done;
        out.push((start, line_end));
        proof {
            done = done.push(line);
            assert forall|k: int| 0 <= k < out@.len() implies {
                &&& out@[k].0 <= out@[k].1
                &&& out@[k].1 <= cs@.len()
                &&& cs@.subrange(out@[k].0 as int, out@[k].1 as int) == done[k]
            } by {
                if k < old_out.len() {
                    assert(out@[k] == old_out[k]);
                    assert(done[k] == old_done[k]);
                } else {
                    assert(out@[k] == (start, line_end));
                    assert(done[k] == line);
                }
            }
            assert(ranges_of_lines(cs@, out@, done));
        }
        if end < n {
            start = end + 1;
            proof {
                assert(lines_spec(cs@) =~= done + lines_spec(cs@.subrange(start as int, n as int)));
            }
        } else {
            start = n;
            proof {
                assert(cs@.subrange(n as int, n as int) =~= Seq::<char>::empty());
                assert(lines_spec(cs@) =~= done + lines_spec(cs@.subrange(start as int, n as int)));
            }
        }
    }
    proof {
        assert(cs@.subrange(start as int, n as int) =~= Seq::<char>::empty());
        assert(done + Seq::<Seq<char>>::empty() =~= done);
        assert(lines_spec(cs@) == done);
    }
    out
}

/// Splits a text into its lines and keeps the trimmed non-blank ones, in
/// order: the lines of a registry index file that hold a version each.
pub fn index_lines(content: &str) -> (r: Vec<String>)
    ensures
        r@.map_values(|s: String| s@) == kept_lines(lines_spec(content@)),
{
    let cs = chars_of(content);
    let ranges = line_ranges(&cs);
    let ghost lines = lines_spec(cs@);
    let mut out: Vec<String> = Vec::new();
    let mut k: usize = 0;
    while k < ranges.len()
        invariant
            cs@ == content@,
            lines == lines_spec(cs@),
            ranges_of_lines(cs@, ranges@, lines),
            k <= ranges@.len(),
            out@.map_values(|s: String| s@) == kept_lines(lines.subrange(0, k as int)),
        decreases ranges@.len() - k,
    {
        let (a, e) = ranges[k];
        let ghost line = lines[k as int];
        assert(cs@.subrange(a as int, e as int) == line);
        let t = trimmed_of(&cs, a, e);
        let ghost old_out = out@;
        match t {
            Some(s) => {
                out.push(s);
            },
            None => {},
        }
        proof {
            let nd = lines.subrange(0, k + 1);
            assert(nd.drop_last() =~= lines.subrange(0, k as int));
            assert(nd.last() == line);
            if is_blank(line) {
                assert(out@ == old_out);
            } else {
                assert(out@.map_values(|s: String| s@) =~= old_out.map_values(|s: String| s@).push(trim_spec(line)));
            }
        }
        k = k + 1;
    }
    proof {
        assert(lines.subrange(0, lines.len() as int) =~= lines);
    }
    out
}

/// The last line of a text that is not blank, as `str::lines` gives it
/// (untrimmed): the latest version in a registry index file.
pub fn last_nonblank_line(content: &str) -> (r: Option<String>)
    ensures
        r matches Some(l) ==> last_nonblank(lines_spec(content@)) == Some(l@),
        r is None ==> last_nonblank(lines_spec(content@)) is None,
{
    let cs = chars_of(content);
    let ranges = line_ranges(&cs);
    let ghost lines = lines_spec(cs@);
    let mut k = ranges.len();
    proof {
        assert(lines.subrange(0, lines.len() as int) =~= lines);
    }
    while k > 0
        invariant
            cs@ == content@,
            lines == lines_spec(cs@),
            ranges_of_lines(cs@, ranges@, lines),
            k <= ranges@.len(),
            last_nonblank(lines) == last_nonblank(lines.subrange(0, k as int)),
        decreases k,
    {
        let (a, e) = ranges[k - 1];
        let ghost line = lines[k - 1];
        assert(cs@.subrange(a as int, e as int) == line);
        let ghost pre = lines.subrange(0, k as int);
        proof {
            assert(pre.drop_last() =~= lines.subrange(0, k - 1));
            assert(pre.last() == line);
        }
        if !blank_range(&cs, a, e) {
            return Some(string_of(&cs, a, e));
        }
        k = k - 1;
    }
    proof {
        assert(lines.subrange(0, lines.len() as int) =~= lines);
    }
    None
}

} // verus!
