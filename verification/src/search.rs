use vstd::prelude::*;
use vstd::utf8::encode_utf8;

use crate::order::{
    bytes_contains, bytes_lt, bytes_starts_with, has_prefix, has_substring, lemma_lt_asym,
    lemma_lt_irrefl, lemma_lt_trans, lemma_prefix_block, lemma_prefix_not_below, lex_le, lex_lt,
    occurs_at, sbytes, sorted_le, sorted_lt,
};
use crate::select::{lemma_select_members, lemma_select_none, lemma_select_prefix, lemma_select_step, select};
use crate::index::{depends_on_spec, has_feature_spec, has_key_lower, IndexEntry};
use crate::order::{dedup_sorted, has_text, lemma_same_multiset_same_texts, sort_strings};
use crate::prefix::lemma_ascii_lower_idempotent;
use crate::text::{ascii_lower, bytes_eq, str_eq, to_ascii_lowercase};

verus! {

/// How a crate name matched a query.
#[derive(Clone, Copy, Debug, PartialEq, Eq, Structural)]
pub enum MatchType {
    Exact,
    Prefix,
    Contains,
    Fuzzy,
}

impl MatchType {
    /// The lowercase word for the match kind, as shown to users.
    pub fn label(&self) -> (r: String)
        ensures
            r@ == match *self {
                MatchType::Exact => seq!['e', 'x', 'a', 'c', 't'],
                MatchType::Prefix => seq!['p', 'r', 'e', 'f', 'i', 'x'],
                MatchType::Contains => seq!['c', 'o', 'n', 't', 'a', 'i', 'n', 's'],
                MatchType::Fuzzy => seq!['f', 'u', 'z', 'z', 'y'],
            },
    {
        match self {
            MatchType::Exact => {
                let s = "exact";
                proof { reveal_strlit("exact"); }
                String::from_str(s)
            },
            MatchType::Prefix => {
                let s = "prefix";
                proof { reveal_strlit("prefix"); }
                String::from_str(s)
            },
            MatchType::Contains => {
                let s = "contains";
                proof { reveal_strlit("contains"); }
                String::from_str(s)
            },
            MatchType::Fuzzy => {
                let s = "fuzzy";
                proof { reveal_strlit("fuzzy"); }
                String::from_str(s)
            },
        }
    }
}

/// One match of a name search: the position of the name in the index, the
/// name, how it matched, and for fuzzy matches the ranking key of its
/// similarity score (a larger key is a better score).
pub struct NameHit {
    pub index: usize,
    pub name: String,
    pub match_type: MatchType,
    pub fuzzy_key: u64,
}

/// Name `i` is the query, and no name before it is: when the list holds
/// the query more than once, the first copy is the exact match and the
/// others count as names that begin with the query.
pub open spec fn first_equal(names: Seq<String>, q: Seq<u8>, i: int) -> bool {
    sbytes(names[i]) == q && forall|j: int| 0 <= j < i ==> sbytes(#[trigger] names[j]) != q
}

pub open spec fn exact_pred(names: Seq<String>, q: Seq<u8>) -> spec_fn(int) -> bool {
    |i: int| first_equal(names, q, i)
}

pub open spec fn prefix_pred(names: Seq<String>, q: Seq<u8>) -> spec_fn(int) -> bool {
    |i: int| has_prefix(sbytes(names[i]), q) && !first_equal(names, q, i)
}

pub open spec fn contains_pred(names: Seq<String>, q: Seq<u8>) -> spec_fn(int) -> bool {
    |i: int| has_substring(sbytes(names[i]), q) && !has_prefix(sbytes(names[i]), q)
}

pub open spec fn fuzzy_pred(names: Seq<String>, q: Seq<u8>, fuzzy: Seq<Option<u64>>) -> spec_fn(int) -> bool {
    |i: int| !has_substring(sbytes(names[i]), q) && 0 <= i < fuzzy.len() && fuzzy[i] is Some
}

/// The hit for the name at index `i` matched as `kind`.
pub open spec fn hit_of(names: Seq<String>, fuzzy: Seq<Option<u64>>, i: int, kind: MatchType) -> NameHit {
    NameHit {
        index: i as usize,
        name: names[i],
        match_type: kind,
        fuzzy_key: if kind == MatchType::Fuzzy {
            fuzzy[i].unwrap()
        } else {
            0
        },
    }
}

pub open spec fn hits_of(names: Seq<String>, fuzzy: Seq<Option<u64>>, idx: Seq<int>, kind: MatchType) -> Seq<NameHit> {
    idx.map_values(|i: int| hit_of(names, fuzzy, i, kind))
}

/// How many more hits a phase may add before the list holds twice the limit.
pub open spec fn room(limit: int, len: int) -> int {
    if 2 * limit > len {
        2 * limit - len
    } else {
        0
    }
}

pub open spec fn min_int(a: int, b: int) -> int {
    if a <= b {
        a
    } else {
        b
    }
}

/// The first `room` elements of `s` (all of them when there are fewer).
pub open spec fn take_room(s: Seq<int>, r: int) -> Seq<int> {
    s.subrange(0, min_int(s.len() as int, r))
}

/// Hits of the exact, prefix and contains phases, in the order found.
pub open spec fn phase_hits(names: Seq<String>, q: Seq<u8>, limit: int) -> Seq<NameHit> {
    let n = names.len() as int;
    let none = Seq::<Option<u64>>::empty();
    let e = hits_of(names, none, select(n, exact_pred(names, q)), MatchType::Exact);
    let p = hits_of(
        names,
        none,
        take_room(select(n, prefix_pred(names, q)), room(limit, e.len() as int)),
        MatchType::Prefix,
    );
    let h1 = e + p;
    if h1.len() < limit {
        h1 + hits_of(
            names,
            none,
            take_room(select(n, contains_pred(names, q)), room(limit, h1.len() as int)),
            MatchType::Contains,
        )
    } else {
        h1
    }
}

/// All hits before ranking: the three phases, then the fuzzy phase when
/// they found fewer than `limit`.
pub open spec fn raw_hits(names: Seq<String>, q: Seq<u8>, limit: int, fuzzy: Seq<Option<u64>>) -> Seq<NameHit> {
    let h2 = phase_hits(names, q, limit);
    if h2.len() < limit {
        h2 + hits_of(
            names,
            fuzzy,
            take_room(select(names.len() as int, fuzzy_pred(names, q, fuzzy)), room(limit, h2.len() as int)),
            MatchType::Fuzzy,
        )
    } else {
        h2
    }
}

/// The rank of a match kind: exact scores above prefix, above contains,
/// above every fuzzy score.
pub open spec fn kind_rank(k: MatchType) -> int {
    match k {
        MatchType::Exact => 0,
        MatchType::Prefix => 1,
        MatchType::Contains => 2,
        MatchType::Fuzzy => 3,
    }
}

/// `a` has a strictly higher score than `b`.
pub open spec fn outranks(a: NameHit, b: NameHit) -> bool {
    kind_rank(a.match_type) < kind_rank(b.match_type) || (a.match_type == MatchType::Fuzzy
        && b.match_type == MatchType::Fuzzy && a.fuzzy_key > b.fuzzy_key)
}

/// Where a stable descending insertion puts `x` into `s`: after every
/// element that `x` does not outrank.
pub open spec fn ins_pos(s: Seq<NameHit>, x: NameHit) -> int
    decreases s.len(),
{
    if s.len() == 0 {
        0
    } else if outranks(x, s.last()) {
        ins_pos(s.drop_last(), x)
    } else {
        s.len() as int
    }
}

pub open spec fn insert_hit(s: Seq<NameHit>, x: NameHit) -> Seq<NameHit> {
    s.subrange(0, ins_pos(s, x)) + seq![x] + s.subrange(ins_pos(s, x), s.len() as int)
}

/// The stable sort of hits by descending score.
pub open spec fn sort_hits(s: Seq<NameHit>) -> Seq<NameHit>
    decreases s.len(),
{
    if s.len() == 0 {
        s
    } else {
        insert_hit(sort_hits(s.drop_last()), s.last())
    }
}

/// The result of a name search: the hits ranked by score, at most `limit`.
pub open spec fn search_spec(names: Seq<String>, q: Seq<u8>, limit: int, fuzzy: Seq<Option<u64>>) -> Seq<NameHit> {
    if limit <= 0 {
        seq![]
    } else {
        let s = sort_hits(raw_hits(names, q, limit, fuzzy));
        s.subrange(0, min_int(s.len() as int, limit))
    }
}

proof fn lemma_ins_pos_range(s: Seq<NameHit>, x: NameHit)
    ensures
        0 <= ins_pos(s, x) <= s.len(),
    decreases s.len(),
{
    if s.len() > 0 && outranks(x, s.last()) {
        lemma_ins_pos_range(s.drop_last(), x);
    }
}

proof fn lemma_sort_len(s: Seq<NameHit>)
    ensures
        sort_hits(s).len() == s.len(),
    decreases s.len(),
{
    if s.len() > 0 {
        lemma_sort_len(s.drop_last());
        lemma_ins_pos_range(sort_hits(s.drop_last()), s.last());
    }
}

proof fn lemma_hits_push(names: Seq<String>, fuzzy: Seq<Option<u64>>, idx: Seq<int>, i: int, kind: MatchType)
    ensures
        hits_of(names, fuzzy, idx.push(i), kind) == hits_of(names, fuzzy, idx, kind).push(hit_of(names, fuzzy, i, kind)),
{
    assert(hits_of(names, fuzzy, idx.push(i), kind) =~= hits_of(names, fuzzy, idx, kind).push(
        hit_of(names, fuzzy, i, kind),
    ));
}

/// The result list of a name search that is under way: the exact, prefix
/// and contains phases are done, the fuzzy phase and the ranking are not.
pub struct NameSearch {
    query: String,
    limit: usize,
    hits: Vec<NameHit>,
    names: Ghost<Seq<String>>,
}

impl NameSearch {
    pub closed spec fn wf(&self) -> bool {
        &&& sorted_le(self.names@)
        &&& self.limit > 0 ==> self.hits@ == phase_hits(self.names@, sbytes(self.query), self.limit as int)
        &&& self.limit == 0 ==> self.hits@.len() == 0
    }

    /// The UTF-8 bytes of the lowercased query.
    pub closed spec fn query_bytes(&self) -> Seq<u8> {
        sbytes(self.query)
    }

    pub closed spec fn spec_limit(&self) -> int {
        self.limit as int
    }

    /// The name index that the search runs over.
    pub closed spec fn spec_names(&self) -> Seq<String> {
        self.names@
    }

    /// Whether the fuzzy phase will run: only when the first three phases
    /// found fewer than `limit` names.
    pub fn needs_fuzzy(&self) -> (r: bool)
        requires
            self.wf(),
        ensures
            r == (self.spec_limit() > 0 && phase_hits(self.spec_names(), self.query_bytes(), self.spec_limit()).len()
                < self.spec_limit()),
    {
        self.limit > 0 && self.hits.len() < self.limit
    }

    /// The lowercased query.
    pub fn query(&self) -> (r: &str)
        ensures
            encode_utf8(r@) == self.query_bytes(),
    {
        self.query.as_str()
    }

    /// Whether the name at index `i` is still open to a fuzzy match: it does
    /// not contain the query.
    pub fn is_fuzzy_candidate(&self, names: &[String], i: usize) -> (r: bool)
        requires
            i < names@.len(),
        ensures
            r == !has_substring(sbytes(names@[i as int]), self.query_bytes()),
    {
        !bytes_contains(names[i].as_str().as_bytes(), self.query.as_str().as_bytes())
    }

    /// Runs the fuzzy phase with the given verdicts (`fuzzy[i]` is the
    /// ranking key of name `i` when it is similar enough to the query, and
    /// `None` otherwise; names beyond the end count as `None`), ranks all
    /// hits by descending score, stable, and keeps the first `limit`.
    pub fn finish(self, names: &[String], fuzzy: &[Option<u64>]) -> (r: Vec<NameHit>)
        requires
            self.wf(),
            names@ == self.spec_names(),
        ensures
            r@ == search_spec(names@, self.query_bytes(), self.spec_limit(), fuzzy@),
    {
        let ghost q = sbytes(self.query);
        let ghost lim = self.limit as int;
        let limit = self.limit;
        if limit == 0 {
            return Vec::new();
        }
        let mut hits = self.hits;
        let ghost h2 = hits@;
        let n = names.len();
        if hits.len() < limit {
            let ghost fp = fuzzy_pred(names@, q, fuzzy@);
            let qb = self.query.as_str().as_bytes();
            let mut i: usize = 0;
            let mut stop = false;
            while i < n && !stop
                invariant
                    n == names@.len(),
                    i <= n,
                    qb@ == q,
                    1 <= limit,
                    lim == limit,
                    h2.len() < limit,
                    fp == fuzzy_pred(names@, q, fuzzy@),
                    hits@ == h2 + hits_of(names@, fuzzy@, select(i as int, fp), MatchType::Fuzzy),
                    hits@.len() <= 2 * limit,
                    !stop ==> hits@.len() < 2 * limit,
                    stop ==> hits@.len() == 2 * limit,
                decreases n - i,
            {
                let cand = !bytes_contains(names[i].as_str().as_bytes(), qb);
                proof {
                    lemma_select_step(i as int, fp);
                }
                if cand && i < fuzzy.len() {
                    match fuzzy[i] {
                        Some(key) => {
                            let hit = NameHit {
                                index: i,
                                name: names[i].clone(),
                                match_type: MatchType::Fuzzy,
                                fuzzy_key: key,
                            };
                            proof {
                                lemma_hits_push(names@, fuzzy@, select(i as int, fp), i as int, MatchType::Fuzzy);
                                assert(hit == hit_of(names@, fuzzy@, i as int, MatchType::Fuzzy));
                            }
                            hits.push(hit);
                            if hits.len() / 2 >= limit {
                                stop = true;
                            }
                        },
                        None => {},
                    }
                }
                i = i + 1;
            }
            proof {
                let fs = select(n as int, fp);
                let fi = select(i as int, fp);
                lemma_select_prefix(i as int, n as int, fp);
                let r = room(lim, h2.len() as int);
                if stop {
                    assert(fi.len() == r);
                } else {
                    assert(fi == fs);
                }
                assert(take_room(fs, r) =~= fi);
            }
        }
        let ghost raw = hits@;
        assert(raw == raw_hits(names@, q, lim, fuzzy@));
        let sorted = sort_hit_vec(hits);
        let mut out = sorted;
        proof {
            lemma_sort_len(raw);
        }
        if out.len() > limit {
            out.truncate(limit);
        }
        proof {
            assert(out@ =~= sort_hits(raw).subrange(0, min_int(raw.len() as int, lim)));
        }
        out
    }
}

/// Whether `a` has a strictly higher score than `b`.
fn outranks_exec(a: &NameHit, b: &NameHit) -> (r: bool)
    ensures
        r == outranks(*a, *b),
{
    let ra: u8 = match a.match_type {
        MatchType::Exact => 0,
        MatchType::Prefix => 1,
        MatchType::Contains => 2,
        MatchType::Fuzzy => 3,
    };
    let rb: u8 = match b.match_type {
        MatchType::Exact => 0,
        MatchType::Prefix => 1,
        MatchType::Contains => 2,
        MatchType::Fuzzy => 3,
    };
    ra < rb || (ra == 3 && rb == 3 && a.fuzzy_key > b.fuzzy_key)
}

/// Stable insertion sort of hits by descending score.
fn sort_hit_vec(hits: Vec<NameHit>) -> (r: Vec<NameHit>)
    ensures
        r@ == sort_hits(hits@),
{
    let ghost all = hits@;
    let mut rest = hits;
    let mut out: Vec<NameHit> = Vec::new();
    let n = rest.len();
    let mut k: usize = 0;
    while k < n
        invariant
            n == all.len(),
            k <= n,
            rest@ == all.subrange(k as int, n as int),
            out@ == sort_hits(all.subrange(0, k as int)),
        decreases n - k,
    {
        let x = rest.remove(0);
        proof {
            assert(x == all[k as int]);
            assert(rest@ =~= all.subrange(k + 1, n as int));
            lemma_sort_len(all.subrange(0, k as int));
        }
        let mut j = out.len();
        proof {
            assert(out@.subrange(0, j as int) =~= out@);
        }
        while j > 0 && outranks_exec(&x, &out[j - 1])
            invariant
                j <= out@.len(),
                ins_pos(out@, x) == ins_pos(out@.subrange(0, j as int), x),
            decreases j,
        {
            proof {
                assert(out@.subrange(0, j as int).drop_last() =~= out@.subrange(0, j - 1));
            }
            j = j - 1;
        }
        proof {
            assert(out@.subrange(0, j as int).len() == j);
            if j > 0 {
                assert(out@.subrange(0, j as int).last() == out@[j - 1]);
            }
            assert(ins_pos(out@, x) == j);
            let pre = all.subrange(0, k + 1);
            assert(pre.drop_last() =~= all.subrange(0, k as int));
            assert(pre.last() == x);
        }
        let ghost before = out@;
        out.insert(j, x);
        proof {
            assert(out@ =~= insert_hit(before, x));
        }
        k = k + 1;
    }
    proof {
        assert(all.subrange(0, n as int) =~= all);
    }
    out
}

/// Search for crate names matching the query: the exact, prefix and
/// contains phases. The caller then scores fuzzy candidates (see
/// [`NameSearch::finish`]).
///
/// `names` must be sorted in byte order, as the name index is; a name the
/// list holds more than once is an exact match at its first copy and a
/// prefix match at the others.
pub fn search_names(names: &[String], query: &str, limit: usize) -> (st: NameSearch)
    requires
        sorted_le(names@),
    ensures
        st.wf(),
        st.spec_names() == names@,
        st.query_bytes() == encode_utf8(ascii_lower(query@)),
        st.spec_limit() == limit,
{
    let lower = to_ascii_lowercase(query);
    let ghost q = sbytes(lower);
    let mut hits: Vec<NameHit> = Vec::new();
    if limit == 0 {
        return NameSearch { query: lower, limit, hits, names: Ghost(names@) };
    }
    let qb = lower.as_str().as_bytes();
    let n = names.len();
    let ghost ns = names@;
    let ghost none = Seq::<Option<u64>>::empty();
    // 1. The first name not below the query (binary search).
    let mut lo: usize = 0;
    let mut hi: usize = n;
    while lo < hi
        invariant
            n == ns.len(),
            ns == names@,
            qb@ == q,
            sorted_le(ns),
            lo <= hi <= n,
            forall|j: int| 0 <= j < lo ==> lex_lt(#[trigger] sbytes(ns[j]), q),
            forall|j: int| hi <= j < n ==> !lex_lt(#[trigger] sbytes(ns[j]), q),
        decreases hi - lo,
    {
        let mid = lo + (hi - lo) / 2;
        if bytes_lt(names[mid].as_str().as_bytes(), qb) {
            proof {
                assert forall|j: int| 0 <= j <= mid implies lex_lt(#[trigger] sbytes(ns[j]), q) by {
                    if j < mid && sbytes(ns[j]) != sbytes(ns[mid as int]) {
                        lemma_lt_trans(sbytes(ns[j]), sbytes(ns[mid as int]), q);
                    }
                }
            }
            lo = mid + 1;
        } else {
            proof {
                assert forall|j: int| mid <= j < n implies !lex_lt(#[trigger] sbytes(ns[j]), q) by {
                    if j > mid && lex_lt(sbytes(ns[j]), q) && sbytes(ns[mid as int]) != sbytes(ns[j]) {
                        lemma_lt_trans(sbytes(ns[mid as int]), sbytes(ns[j]), q);
                    }
                }
            }
            hi = mid;
        }
    }
    let start = lo;
    let exact = start < n && bytes_eq(names[start].as_str().as_bytes(), qb);
    let ghost ep = exact_pred(ns, q);
    let ghost pp = prefix_pred(ns, q);
    proof {
        // The first copy of the query, if any, is at `start`.
        assert forall|j: int| 0 <= j < n implies (first_equal(ns, q, j) <==> (exact && j == start)) by {
            if j < start {
                lemma_lt_irrefl(q);
                assert(lex_lt(sbytes(ns[j]), q));
            } else if j == start {
                assert forall|m: int| 0 <= m < j implies sbytes(#[trigger] ns[m]) != q by {
                    lemma_lt_irrefl(q);
                    assert(lex_lt(sbytes(ns[m]), q));
                }
            } else if exact {
                assert(sbytes(ns[start as int]) == q);
            } else if sbytes(ns[j]) == q {
                assert(!lex_lt(sbytes(ns[start as int]), q));
                assert(lex_le(sbytes(ns[start as int]), sbytes(ns[j])));
            }
        }
        // No name below `start` begins with the query.
        assert forall|j: int| 0 <= j < start implies !has_prefix(#[trigger] sbytes(ns[j]), q) by {
            if has_prefix(sbytes(ns[j]), q) {
                lemma_prefix_not_below(sbytes(ns[j]), q);
            }
        }
        lemma_select_none(0, start as int, ep);
        lemma_select_none(0, start as int, pp);
        if exact {
            lemma_select_step(start as int, ep);
            lemma_select_none(start + 1, n as int, ep);
        } else {
            if start < n {
                lemma_select_step(start as int, ep);
            }
            lemma_select_none(start as int, n as int, ep);
        }
    }
    if exact {
        let hit = NameHit { index: start, name: names[start].clone(), match_type: MatchType::Exact, fuzzy_key: 0 };
        hits.push(hit);
        proof {
            assert(hits@ =~= hits_of(ns, none, select(n as int, ep), MatchType::Exact));
        }
    } else {
        proof {
            assert(hits@ =~= hits_of(ns, none, select(n as int, ep), MatchType::Exact));
        }
    }
    let ghost e = hits@;
    // 2. The names that begin with the query: a block from `start` on.
    let mut i = start;
    let mut stop = false;
    while i < n && !stop
        invariant
            n == ns.len(),
            ns == names@,
            qb@ == q,
            sorted_le(ns),
            1 <= limit,
            start <= i <= n,
            e.len() <= 1,
            exact ==> start < n && sbytes(ns[start as int]) == q,
            forall|j: int| 0 <= j < n ==> (first_equal(ns, q, j) <==> (exact && j == start)),
            forall|j: int| hi <= j < n ==> !lex_lt(#[trigger] sbytes(ns[j]), q),
            hi == start,
            pp == prefix_pred(ns, q),
            select(start as int, pp) == Seq::<int>::empty(),
            forall|j: int| start <= j < i ==> has_prefix(#[trigger] sbytes(ns[j]), q),
            hits@ == e + hits_of(ns, none, select(i as int, pp), MatchType::Prefix),
            hits@.len() <= 2 * limit,
            !stop ==> hits@.len() < 2 * limit,
            stop ==> hits@.len() == 2 * limit || (i < n && !has_prefix(sbytes(ns[i as int]), q)),
        decreases (n - i) * 2 + if stop { 0int } else { 1int },
    {
        if !bytes_starts_with(names[i].as_str().as_bytes(), qb) {
            stop = true;
        } else {
            proof {
                lemma_select_step(i as int, pp);
            }
            if !(exact && i == start) {
                let hit = NameHit { index: i, name: names[i].clone(), match_type: MatchType::Prefix, fuzzy_key: 0 };
                proof {
                    lemma_hits_push(ns, none, select(i as int, pp), i as int, MatchType::Prefix);
                }
                hits.push(hit);
            }
            i = i + 1;
            if hits.len() / 2 >= limit {
                stop = true;
            }
        }
    }
    proof {
        let ps = select(n as int, pp);
        let pi = select(i as int, pp);
        lemma_select_prefix(i as int, n as int, pp);
        if hits@.len() == 2 * limit {
            assert(pi.len() == room(limit as int, e.len() as int));
        } else {
            if i < n {
                assert forall|j: int| i <= j < n implies !(#[trigger] pp(j)) by {
                    if j > i && has_prefix(sbytes(ns[j]), q) {
                        lemma_prefix_block(q, sbytes(ns[j]), sbytes(ns[i as int]));
                        lemma_lt_irrefl(sbytes(ns[j]));
                        if sbytes(ns[i as int]) != sbytes(ns[j]) {
                            lemma_lt_asym(sbytes(ns[i as int]), sbytes(ns[j]));
                        }
                    }
                }
                lemma_select_none(i as int, n as int, pp);
            }
            assert(pi == ps);
        }
        assert(take_room(ps, room(limit as int, e.len() as int)) =~= pi);
    }
    let ghost h1 = hits@;
    // 3. The names that contain the query without beginning with it.
    if hits.len() < limit {
        let ghost cp = contains_pred(ns, q);
        let mut k: usize = 0;
        let mut stop2 = false;
        while k < n && !stop2
            invariant
                n == ns.len(),
                ns == names@,
                qb@ == q,
                1 <= limit,
                k <= n,
                h1.len() < limit,
                cp == contains_pred(ns, q),
                hits@ == h1 + hits_of(ns, none, select(k as int, cp), MatchType::Contains),
                hits@.len() <= 2 * limit,
                !stop2 ==> hits@.len() < 2 * limit,
                stop2 ==> hits@.len() == 2 * limit,
            decreases n - k,
        {
            let nb = names[k].as_str().as_bytes();
            let c = bytes_contains(nb, qb) && !bytes_starts_with(nb, qb);
            proof {
                lemma_select_step(k as int, cp);
            }
            if c {
                let hit = NameHit { index: k, name: names[k].clone(), match_type: MatchType::Contains, fuzzy_key: 0 };
                proof {
                    lemma_hits_push(ns, none, select(k as int, cp), k as int, MatchType::Contains);
                }
                hits.push(hit);
                if hits.len() / 2 >= limit {
                    stop2 = true;
                }
            }
            k = k + 1;
        }
        proof {
            let cs = select(n as int, cp);
            let ci = select(k as int, cp);
            lemma_select_prefix(k as int, n as int, cp);
            if stop2 {
                assert(ci.len() == room(limit as int, h1.len() as int));
            } else {
                assert(ci == cs);
            }
            assert(take_room(cs, room(limit as int, h1.len() as int)) =~= ci);
        }
    }
    NameSearch { query: lower, limit, hits, names: Ghost(names@) }
}


/// `config.json`
pub open spec fn config_json() -> Seq<char> {
    seq!['c', 'o', 'n', 'f', 'i', 'g', '.', 'j', 's', 'o', 'n']
}

/// A file of the index directory names a crate unless it is hidden
/// (begins with `.`) or is the index's `config.json`.
pub open spec fn is_crate_file_name(s: Seq<char>) -> bool {
    !(s.len() > 0 && s[0] == '.') && s != config_json()
}

/// Whether a file name of the index directory names a crate.
pub fn crate_file_name_ok(name: &str) -> (r: bool)
    ensures
        r == is_crate_file_name(name@),
{
    let cfg = "config.json";
    proof {
        reveal_strlit("config.json");
        assert(cfg@ =~= config_json());
    }
    if name.unicode_len() > 0 && name.get_char(0) == '.' {
        return false;
    }
    !str_eq(name, cfg)
}

/// Whether the walk of the index directory enters or keeps an entry:
/// not `.git`, `.github` or `config.json`.
pub fn walk_keeps(name: &str) -> (r: bool)
    ensures
        r == (name@ != seq!['.', 'g', 'i', 't'] && name@ != seq!['.', 'g', 'i', 't', 'h', 'u', 'b']
            && name@ != config_json()),
{
    let git = ".git";
    let github = ".github";
    let cfg = "config.json";
    proof {
        reveal_strlit(".git");
        reveal_strlit(".github");
        reveal_strlit("config.json");
        assert(git@ =~= seq!['.', 'g', 'i', 't']);
        assert(github@ =~= seq!['.', 'g', 'i', 't', 'h', 'u', 'b']);
        assert(cfg@ =~= config_json());
    }
    !str_eq(name, git) && !str_eq(name, github) && !str_eq(name, cfg)
}

/// The sorted name index from the file names found in the index directory
/// (the caller walks the directory): crate file names only, sorted, each once.
pub fn build_name_index(file_names: Vec<String>) -> (r: Vec<String>)
    ensures
        sorted_lt(r@),
        forall|s: Seq<char>|
            #![trigger has_text(r@, s)]
            has_text(r@, s) <==> (has_text(file_names@, s) && is_crate_file_name(s)),
{
    let mut names: Vec<String> = Vec::new();
    let mut i: usize = 0;
    while i < file_names.len()
        invariant
            i <= file_names@.len(),
            forall|s: Seq<char>|
                #![trigger has_text(names@, s)]
                has_text(names@, s) <==> (has_text(file_names@.subrange(0, i as int), s) && is_crate_file_name(s)),
        decreases file_names@.len() - i,
    {
        let ghost before = names@;
        let ghost fo = file_names@.subrange(0, i as int);
        let keep = crate_file_name_ok(file_names[i].as_str());
        if keep {
            names.push(file_names[i].clone());
        }
        proof {
            let fi = file_names@.subrange(0, i + 1);
            assert(fi =~= fo.push(file_names@[i as int]));
            assert forall|s: Seq<char>|
                #![trigger has_text(names@, s)]
                has_text(names@, s) <==> (has_text(fi, s) && is_crate_file_name(s)) by {
                assert(has_text(before, s) <==> (has_text(fo, s) && is_crate_file_name(s)));
                if has_text(names@, s) {
                    let k = choose|k: int| 0 <= k < names@.len() && (#[trigger] names@[k])@ == s;
                    if k < before.len() {
                        assert(before[k] == names@[k]);
                        assert(has_text(before, s));
                        let m = choose|m: int| 0 <= m < fo.len() && (#[trigger] fo[m])@ == s;
                        assert(fi[m] == fo[m]);
                    } else {
                        assert(fi[i as int]@ == s);
                    }
                }
                if has_text(fi, s) && is_crate_file_name(s) {
                    let m = choose|m: int| 0 <= m < fi.len() && (#[trigger] fi[m])@ == s;
                    if m < i {
                        assert(fo[m] == fi[m]);
                        assert(has_text(fo, s));
                        let k = choose|k: int| 0 <= k < before.len() && (#[trigger] before[k])@ == s;
                        assert(names@[k] == before[k]);
                    } else {
                        assert(names@.last()@ == s);
                    }
                }
            }
        }
        i = i + 1;
    }
    proof {
        assert(file_names@.subrange(0, file_names@.len() as int) =~= file_names@);
    }
    let ghost unsorted = names@;
    sort_strings(&mut names);
    let r = dedup_sorted(&names);
    proof {
        assert forall|s: Seq<char>|
            #![trigger has_text(r@, s)]
            has_text(r@, s) <==> (has_text(file_names@, s) && is_crate_file_name(s)) by {
            lemma_same_multiset_same_texts(names@, unsorted, s);
            assert(has_text(unsorted, s) <==> (has_text(file_names@.subrange(0, file_names@.len() as int), s)
                && is_crate_file_name(s)));
        }
    }
    r
}

/// Collects, in order, the crate names whose latest index entry passes a
/// test, until `limit` have been found: at most `limit` names.
pub struct MatchCollector {
    target: String,
    limit: usize,
    results: Vec<String>,
}

impl MatchCollector {
    /// The lowercased name that entries are tested against.
    pub closed spec fn spec_target(&self) -> Seq<char> {
        self.target@
    }

    pub closed spec fn spec_limit(&self) -> int {
        self.limit as int
    }

    /// The names collected so far.
    pub closed spec fn spec_results(&self) -> Seq<String> {
        self.results@
    }

    /// Whether the scan stops: the limit has been reached.
    pub open spec fn spec_done(&self) -> bool {
        self.spec_results().len() >= self.spec_limit()
    }

    /// A collector for the lowercased `target`, keeping `limit` names.
    pub fn new(target: &str, limit: usize) -> (r: MatchCollector)
        ensures
            r.spec_target() == ascii_lower(target@),
            r.spec_limit() == limit,
            r.spec_results().len() == 0,
    {
        MatchCollector { target: to_ascii_lowercase(target), limit, results: Vec::new() }
    }

    /// Whether the scan is over.
    pub fn is_done(&self) -> (r: bool)
        ensures
            r == self.spec_done(),
    {
        self.results.len() >= self.limit
    }

    /// Offers the latest entry of crate `name` (`None` when its index file
    /// could not be read or its last line parsed): kept when that version
    /// is not yanked and depends on the target.
    pub fn offer_dep(&mut self, name: &String, entry: Option<&IndexEntry>)
        requires
            !old(self).spec_done(),
        ensures
            final(self).spec_results().len() <= final(self).spec_limit(),
            final(self).spec_target() == old(self).spec_target(),
            final(self).spec_limit() == old(self).spec_limit(),
            final(self).spec_results() == if dep_kept(entry, old(self).spec_target()) {
                old(self).spec_results().push(*name)
            } else {
                old(self).spec_results()
            },
    {
        match entry {
            Some(e) => {
                if !e.yanked && e.depends_on(self.target.as_str()) {
                    self.results.push(name.clone());
                }
            },
            None => {},
        }
    }

    /// Offers the latest entry of crate `name`: kept when that version is
    /// not yanked and has a feature named as the target.
    pub fn offer_feature(&mut self, name: &String, entry: Option<&IndexEntry>)
        requires
            !old(self).spec_done(),
            entry matches Some(e) ==> e.wf(),
        ensures
            final(self).spec_results().len() <= final(self).spec_limit(),
            final(self).spec_target() == old(self).spec_target(),
            final(self).spec_limit() == old(self).spec_limit(),
            final(self).spec_results() == if feature_kept(entry, old(self).spec_target()) {
                old(self).spec_results().push(*name)
            } else {
                old(self).spec_results()
            },
    {
        match entry {
            Some(e) => {
                if !e.yanked && e.has_feature(self.target.as_str()) {
                    self.results.push(name.clone());
                }
            },
            None => {},
        }
    }

    /// The names collected.
    pub fn into_results(self) -> (r: Vec<String>)
        ensures
            r@ == self.spec_results(),
    {
        self.results
    }
}


/// Whether a dependency search for `target` keeps a crate whose latest
/// entry is `entry` (`None` when it could not be read).
pub open spec fn dep_kept(entry: Option<&IndexEntry>, target: Seq<char>) -> bool {
    entry matches Some(e) && !e.yanked && depends_on_spec(*e, target)
}

/// Whether a feature search for `target` keeps a crate whose latest entry
/// is `entry`.
pub open spec fn feature_kept(entry: Option<&IndexEntry>, target: Seq<char>) -> bool {
    entry matches Some(e) && !e.yanked && has_feature_spec(*e, target)
}

/// A dependency search keeps a crate exactly when its latest entry was read,
/// is not yanked, and has a dependency named the whole target once
/// lowercased; a feature search, when it has a feature key that is the
/// whole target once lowercased.
pub proof fn law_kept_whole_name(entry: Option<&IndexEntry>, target: Seq<char>)
    ensures
        dep_kept(entry, target) <==> (entry matches Some(e) && !e.yanked && exists|i: int|
            0 <= i < e.deps@.len() && #[trigger] ascii_lower(e.deps@[i].name@).len() == target.len() && forall|
                c: int,
            | 0 <= c < target.len() ==> ascii_lower(e.deps@[i].name@)[c] == target[c]),
        feature_kept(entry, target) <==> (entry matches Some(e) && !e.yanked && (has_key_lower(e.features@, target)
            || has_key_lower(e.features2@, target))),
{
    match entry {
        Some(e) => {
            crate::index::law_depends_on_whole_name(*e, target);
            crate::index::law_has_feature_whole_name(*e, target);
        },
        None => {},
    }
}

/// The names a collector holds once the first `k` names have been taken
/// in order, each offered while the collector is not done, as
/// `MatchCollector::offer_dep` and `offer_feature` do one step:
/// `kept(i)` says whether the entry of name `i` is kept.
pub open spec fn scan_results(names: Seq<String>, kept: spec_fn(int) -> bool, limit: int, k: int) -> Seq<String>
    decreases k,
{
    if k <= 0 {
        seq![]
    } else {
        let r = scan_results(names, kept, limit, k - 1);
        if r.len() >= limit || !kept(k - 1) {
            r
        } else {
            r.push(names[k - 1])
        }
    }
}

/// The names at the positions `idx`.
pub open spec fn names_at(names: Seq<String>, idx: Seq<int>) -> Seq<String> {
    idx.map_values(|i: int| names[i])
}

/// A dependency or feature search gives the names whose entries pass, in
/// order, cut at `limit`: scanning the names and offering each while the
/// collector is not done keeps exactly the first `limit` names that pass.
pub proof fn law_scan_keeps_first_matches(names: Seq<String>, kept: spec_fn(int) -> bool, limit: int, k: int)
    requires
        0 <= k <= names.len(),
        0 <= limit,
    ensures
        scan_results(names, kept, limit, k) == take_names(names_at(names, select(k, kept)), limit),
    decreases k,
{
    if k > 0 {
        law_scan_keeps_first_matches(names, kept, limit, k - 1);
        lemma_select_step(k - 1, kept);
        let s = names_at(names, select(k - 1, kept));
        let t = names_at(names, select(k, kept));
        if kept(k - 1) {
            assert(t =~= s.push(names[k - 1]));
        } else {
            assert(t =~= s);
        }
        let r = scan_results(names, kept, limit, k - 1);
        if r.len() >= limit {
            assert(take_names(t, limit) =~= take_names(s, limit));
        } else if kept(k - 1) {
            assert(take_names(t, limit) =~= take_names(s, limit).push(names[k - 1]));
        }
    } else {
        assert(take_names(names_at(names, select(0, kept)), limit) =~= Seq::<String>::empty());
    }
}

/// Once the collector is done, further names change nothing: stopping the
/// scan there gives the same names as scanning to the end.
pub proof fn law_scan_stops_when_done(names: Seq<String>, kept: spec_fn(int) -> bool, limit: int, k: int, m: int)
    requires
        0 <= k <= m,
        scan_results(names, kept, limit, k).len() >= limit,
    ensures
        scan_results(names, kept, limit, m) == scan_results(names, kept, limit, k),
    decreases m - k,
{
    if m > k {
        law_scan_stops_when_done(names, kept, limit, k, m - 1);
    }
}

/// The first `limit` names (all of them when there are fewer).
pub open spec fn take_names(s: Seq<String>, limit: int) -> Seq<String> {
    s.subrange(0, min_int(s.len() as int, limit))
}

/// No hit of `s` outranks one before it.
pub open spec fn ranked(s: Seq<NameHit>) -> bool {
    forall|i: int, j: int| 0 <= i < j < s.len() ==> !outranks(#[trigger] s[j], #[trigger] s[i])
}

proof fn lemma_ins_pos_props(s: Seq<NameHit>, x: NameHit)
    ensures
        0 <= ins_pos(s, x) <= s.len(),
        forall|k: int| ins_pos(s, x) <= k < s.len() ==> outranks(x, #[trigger] s[k]),
        ins_pos(s, x) > 0 ==> !outranks(x, s[ins_pos(s, x) - 1]),
    decreases s.len(),
{
    if s.len() > 0 && outranks(x, s.last()) {
        let t = s.drop_last();
        lemma_ins_pos_props(t, x);
        assert forall|k: int| ins_pos(s, x) <= k < s.len() implies outranks(x, #[trigger] s[k]) by {
            if k < s.len() - 1 {
                assert(s[k] == t[k]);
            }
        }
        if ins_pos(s, x) > 0 {
            assert(s[ins_pos(s, x) - 1] == t[ins_pos(t, x) - 1]);
        }
    }
}

proof fn lemma_insert_ranked(s: Seq<NameHit>, x: NameHit)
    requires
        ranked(s),
    ensures
        ranked(insert_hit(s, x)),
        insert_hit(s, x).len() == s.len() + 1,
{
    lemma_ins_pos_props(s, x);
    let p = ins_pos(s, x);
    let t = insert_hit(s, x);
    assert(t.len() == s.len() + 1);
    assert forall|i: int, j: int| 0 <= i < j < t.len() implies !outranks(#[trigger] t[j], #[trigger] t[i]) by {
        if j < p {
            assert(t[i] == s[i] && t[j] == s[j]);
        } else if j == p {
            assert(t[j] == x);
            assert(t[i] == s[i]);
            assert(!outranks(x, s[p - 1]));
            if i < p - 1 {
                assert(!outranks(s[p - 1], s[i]));
            }
        } else if i == p {
            assert(t[i] == x);
            assert(t[j] == s[j - 1]);
            assert(outranks(x, s[j - 1]));
        } else if i < p {
            assert(t[i] == s[i]);
            assert(t[j] == s[j - 1]);
        } else {
            assert(t[i] == s[i - 1]);
            assert(t[j] == s[j - 1]);
        }
    }
}

proof fn lemma_sort_ranked(s: Seq<NameHit>)
    ensures
        ranked(sort_hits(s)),
        sort_hits(s).len() == s.len(),
    decreases s.len(),
{
    if s.len() > 0 {
        lemma_sort_ranked(s.drop_last());
        lemma_insert_ranked(sort_hits(s.drop_last()), s.last());
    }
}

proof fn lemma_sort_members(s: Seq<NameHit>)
    ensures
        forall|k: int| 0 <= k < sort_hits(s).len() ==> s.contains(#[trigger] sort_hits(s)[k]),
    decreases s.len(),
{
    if s.len() > 0 {
        let t = s.drop_last();
        lemma_sort_members(t);
        lemma_sort_ranked(t);
        lemma_ins_pos_props(sort_hits(t), s.last());
        let p = ins_pos(sort_hits(t), s.last());
        assert forall|k: int| 0 <= k < sort_hits(s).len() implies s.contains(#[trigger] sort_hits(s)[k]) by {
            let u = sort_hits(t);
            if k < p {
                assert(sort_hits(s)[k] == u[k]);
                let m = choose|m: int| 0 <= m < t.len() && t[m] == u[k];
                assert(s[m] == t[m]);
            } else if k == p {
                assert(sort_hits(s)[k] == s.last());
                assert(s[s.len() - 1] == s.last());
            } else {
                assert(sort_hits(s)[k] == u[k - 1]);
                let m = choose|m: int| 0 <= m < t.len() && t[m] == u[k - 1];
                assert(s[m] == t[m]);
            }
        }
    }
}

/// A search's results are ranked: no result has a higher score than one
/// listed before it (exact, then prefix, then contains, then fuzzy by
/// descending similarity), and there are at most `limit` of them.
pub proof fn law_results_ranked(names: Seq<String>, q: Seq<u8>, limit: int, fuzzy: Seq<Option<u64>>)
    ensures
        ranked(search_spec(names, q, limit, fuzzy)),
        search_spec(names, q, limit, fuzzy).len() <= if limit < 0 { 0 } else { limit },
{
    if limit > 0 {
        let raw = raw_hits(names, q, limit, fuzzy);
        lemma_sort_ranked(raw);
        let s = sort_hits(raw);
        let r = s.subrange(0, min_int(s.len() as int, limit));
        assert forall|i: int, j: int| 0 <= i < j < r.len() implies !outranks(#[trigger] r[j], #[trigger] r[i]) by {
            assert(r[i] == s[i] && r[j] == s[j]);
        }
    }
}

/// A hit reports its match truthfully.
pub open spec fn hit_truthful(names: Seq<String>, q: Seq<u8>, fuzzy: Seq<Option<u64>>, h: NameHit) -> bool {
    let i = h.index as int;
    &&& 0 <= i < names.len()
    &&& h.name == names[i]
    &&& match h.match_type {
        MatchType::Exact => first_equal(names, q, i),
        MatchType::Prefix => has_prefix(sbytes(names[i]), q) && !first_equal(names, q, i),
        MatchType::Contains => has_substring(sbytes(names[i]), q) && !has_prefix(sbytes(names[i]), q),
        MatchType::Fuzzy => !has_substring(sbytes(names[i]), q) && i < fuzzy.len() && fuzzy[i] == Some(h.fuzzy_key),
    }
}

proof fn lemma_hits_truthful(names: Seq<String>, q: Seq<u8>, fuzzy: Seq<Option<u64>>, idx: Seq<int>, kind: MatchType)
    requires
        names.len() <= usize::MAX,
        forall|k: int| 0 <= k < idx.len() ==> 0 <= #[trigger] idx[k] < names.len(),
        kind == MatchType::Exact ==> forall|k: int| 0 <= k < idx.len() ==> exact_pred(names, q)(#[trigger] idx[k]),
        kind == MatchType::Prefix ==> forall|k: int| 0 <= k < idx.len() ==> prefix_pred(names, q)(#[trigger] idx[k]),
        kind == MatchType::Contains ==> forall|k: int| 0 <= k < idx.len() ==> contains_pred(names, q)(#[trigger] idx[k]),
        kind == MatchType::Fuzzy ==> forall|k: int| 0 <= k < idx.len() ==> fuzzy_pred(names, q, fuzzy)(#[trigger] idx[k]),
    ensures
        forall|k: int| 0 <= k < idx.len() ==> hit_truthful(names, q, fuzzy, #[trigger] hits_of(names, fuzzy, idx, kind)[k]),
{
    assert forall|k: int| 0 <= k < idx.len() implies hit_truthful(names, q, fuzzy, #[trigger] hits_of(names, fuzzy, idx, kind)[k]) by {
        let i = idx[k];
        assert(hits_of(names, fuzzy, idx, kind)[k] == hit_of(names, fuzzy, i, kind));
        assert((i as usize) as int == i);
        if kind == MatchType::Fuzzy {
            assert(fuzzy[i] is Some);
        }
    }
}

proof fn lemma_take_room_members(n: int, p: spec_fn(int) -> bool, r: int)
    requires
        r >= 0,
    ensures
        forall|k: int| 0 <= k < take_room(select(n, p), r).len() ==> 0 <= #[trigger] take_room(select(n, p), r)[k] < n
            && p(take_room(select(n, p), r)[k]),
{
    lemma_select_members(n, p);
    let s = select(n, p);
    assert forall|k: int| 0 <= k < take_room(s, r).len() implies 0 <= #[trigger] take_room(s, r)[k] < n && p(take_room(s, r)[k]) by {
        assert(take_room(s, r)[k] == s[k]);
    }
}

/// Every result names an indexed crate and matches the query the way its
/// match type says: exact is the query, prefix begins with it, contains
/// holds it without beginning with it, fuzzy holds it nowhere and was
/// judged similar with the reported key.
pub proof fn law_results_truthful(names: Seq<String>, q: Seq<u8>, limit: int, fuzzy: Seq<Option<u64>>)
    requires
        names.len() <= usize::MAX,
    ensures
        forall|k: int| 0 <= k < search_spec(names, q, limit, fuzzy).len() ==> hit_truthful(
            names,
            q,
            fuzzy,
            #[trigger] search_spec(names, q, limit, fuzzy)[k],
        ),
{
    if limit > 0 {
        let n = names.len() as int;
        let none = Seq::<Option<u64>>::empty();
        let es = select(n, exact_pred(names, q));
        lemma_select_members(n, exact_pred(names, q));
        let e = hits_of(names, none, es, MatchType::Exact);
        let pr = room(limit, e.len() as int);
        lemma_take_room_members(n, prefix_pred(names, q), pr);
        let pt = take_room(select(n, prefix_pred(names, q)), pr);
        let ph = hits_of(names, none, pt, MatchType::Prefix);
        let h1 = e + ph;
        let cr = room(limit, h1.len() as int);
        lemma_take_room_members(n, contains_pred(names, q), cr);
        let ct = take_room(select(n, contains_pred(names, q)), cr);
        let ch = hits_of(names, none, ct, MatchType::Contains);
        lemma_hits_truthful(names, q, none, es, MatchType::Exact);
        lemma_hits_truthful(names, q, none, pt, MatchType::Prefix);
        lemma_hits_truthful(names, q, none, ct, MatchType::Contains);
        let h2 = phase_hits(names, q, limit);
        let fr = room(limit, h2.len() as int);
        lemma_take_room_members(n, fuzzy_pred(names, q, fuzzy), fr);
        let ft = take_room(select(n, fuzzy_pred(names, q, fuzzy)), fr);
        let fh = hits_of(names, fuzzy, ft, MatchType::Fuzzy);
        lemma_hits_truthful(names, q, fuzzy, ft, MatchType::Fuzzy);
        let raw = raw_hits(names, q, limit, fuzzy);
        assert forall|k: int| 0 <= k < raw.len() implies hit_truthful(names, q, fuzzy, #[trigger] raw[k]) by {
            let hk = raw[k];
            if k < e.len() {
                assert(hk == e[k]);
                assert(hit_truthful(names, q, none, e[k]));
            } else if k < h1.len() {
                assert(hk == ph[k - e.len()]);
                assert(hit_truthful(names, q, none, ph[k - e.len()]));
            } else if k < h2.len() {
                assert(h2 == h1 + ch);
                assert(hk == ch[k - h1.len()]);
                assert(hit_truthful(names, q, none, ch[k - h1.len()]));
            } else {
                assert(raw == h2 + fh);
                assert(hk == fh[k - h2.len()]);
            }
        }
        lemma_sort_members(raw);
        let s = sort_hits(raw);
        let r = s.subrange(0, min_int(s.len() as int, limit));
        assert forall|k: int| 0 <= k < r.len() implies hit_truthful(names, q, fuzzy, #[trigger] r[k]) by {
            assert(r[k] == s[k]);
            assert(raw.contains(s[k]));
            let m = choose|m: int| 0 <= m < raw.len() && raw[m] == s[k];
        }
    }
}


/// The search ignores ASCII case in the query: searching for a query and
/// for its lowercase gives the same results.
pub proof fn law_query_case_insensitive(
    names: Seq<String>,
    query: Seq<char>,
    limit: int,
    fuzzy: Seq<Option<u64>>,
)
    ensures
        search_spec(names, encode_utf8(ascii_lower(query)), limit, fuzzy) == search_spec(
            names,
            encode_utf8(ascii_lower(ascii_lower(query))),
            limit,
            fuzzy,
        ),
{
    lemma_ascii_lower_idempotent(query);
}

/// When the exact, prefix and contains phases already found `limit` names,
/// the fuzzy verdicts do not change the result.
pub proof fn law_fuzzy_only_when_short(
    names: Seq<String>,
    q: Seq<u8>,
    limit: int,
    f1: Seq<Option<u64>>,
    f2: Seq<Option<u64>>,
)
    requires
        phase_hits(names, q, limit).len() >= limit,
    ensures
        search_spec(names, q, limit, f1) == search_spec(names, q, limit, f2),
{
}

pub(crate) proof fn lemma_select_contains(n: int, p: spec_fn(int) -> bool, i: int)
    requires
        0 <= i < n,
        p(i),
    ensures
        select(n, p).len() > 0,
        select(n, p).contains(i),
    decreases n,
{
    lemma_select_step(n - 1, p);
    if i < n - 1 {
        lemma_select_contains(n - 1, p, i);
        let k = choose|k: int| 0 <= k < select(n - 1, p).len() && #[trigger] select(n - 1, p)[k] == i;
        assert(select(n, p)[k] == i);
    } else {
        assert(select(n, p).last() == i);
    }
}

proof fn lemma_sort_keeps_exact_front(s: Seq<NameHit>)
    requires
        s.len() > 0,
        s[0].match_type == MatchType::Exact,
    ensures
        sort_hits(s).len() > 0,
        sort_hits(s)[0] == s[0],
    decreases s.len(),
{
    lemma_sort_ranked(s);
    if s.len() == 1 {
        assert(s.drop_last().len() == 0);
        let u = sort_hits(s.drop_last());
        lemma_ins_pos_props(u, s.last());
        assert(s.last() == s[0]);
    } else {
        let t = s.drop_last();
        assert(t[0] == s[0]);
        lemma_sort_keeps_exact_front(t);
        let u = sort_hits(t);
        lemma_ins_pos_props(u, s.last());
        if ins_pos(u, s.last()) == 0 {
            assert(outranks(s.last(), u[0]));
        }
        assert(insert_hit(u, s.last())[0] == u[0]);
    }
}

/// The first copy of a name that occurs at `i`.
proof fn lemma_first_equal_exists(names: Seq<String>, q: Seq<u8>, i: int) -> (k: int)
    requires
        0 <= i < names.len(),
        sbytes(names[i]) == q,
    ensures
        0 <= k <= i,
        first_equal(names, q, k),
    decreases i,
{
    if exists|j: int| 0 <= j < i && sbytes(#[trigger] names[j]) == q {
        let j = choose|j: int| 0 <= j < i && sbytes(#[trigger] names[j]) == q;
        lemma_first_equal_exists(names, q, j)
    } else {
        i
    }
}

/// When the lowercased query is itself a listed name and the limit is at
/// least one, that name comes first, as an exact match.
pub proof fn law_exact_first(names: Seq<String>, q: Seq<u8>, limit: int, fuzzy: Seq<Option<u64>>, i: int)
    requires
        limit >= 1,
        0 <= i < names.len(),
        sbytes(names[i]) == q,
    ensures
        search_spec(names, q, limit, fuzzy).len() >= 1,
        search_spec(names, q, limit, fuzzy)[0].match_type == MatchType::Exact,
        sbytes(search_spec(names, q, limit, fuzzy)[0].name) == q,
{
    let n = names.len() as int;
    let ep = exact_pred(names, q);
    let k = lemma_first_equal_exists(names, q, i);
    lemma_select_contains(n, ep, k);
    lemma_select_members(n, ep);
    let es = select(n, ep);
    let raw = raw_hits(names, q, limit, fuzzy);
    let none = Seq::<Option<u64>>::empty();
    let e = hits_of(names, none, es, MatchType::Exact);
    assert(e[0] == hit_of(names, none, es[0], MatchType::Exact));
    assert(raw[0] == e[0]);
    lemma_sort_keeps_exact_front(raw);
    lemma_sort_ranked(raw);
}


proof fn lemma_insert_multiset(t: Seq<NameHit>, x: NameHit)
    ensures
        insert_hit(t, x).to_multiset() == t.to_multiset().insert(x),
{
    broadcast use vstd::multiset::group_multiset_axioms;

    lemma_ins_pos_range(t, x);
    let p = ins_pos(t, x);
    let a = t.subrange(0, p);
    let b = t.subrange(p, t.len() as int);
    assert(t =~= a + b);
    vstd::seq_lib::lemma_multiset_commutative(a, b);
    vstd::seq_lib::lemma_multiset_commutative(a + seq![x], b);
    vstd::seq_lib::lemma_multiset_commutative(a, seq![x]);
    assert(seq![x].to_multiset() =~= vstd::multiset::Multiset::singleton(x)) by {
        assert(seq![x] =~= Seq::<NameHit>::empty().push(x));
        Seq::<NameHit>::empty().to_multiset_ensures();
    }
    assert(insert_hit(t, x).to_multiset() =~= t.to_multiset().insert(x));
}

proof fn lemma_sort_multiset(s: Seq<NameHit>)
    ensures
        sort_hits(s).to_multiset() == s.to_multiset(),
    decreases s.len(),
{
    if s.len() > 0 {
        let t = s.drop_last();
        lemma_sort_multiset(t);
        lemma_insert_multiset(sort_hits(t), s.last());
        assert(s =~= t.push(s.last()));
        t.to_multiset_ensures();
    }
}

/// No two hits name the same index.
pub open spec fn distinct_indices(s: Seq<NameHit>) -> bool {
    forall|i: int, j: int| 0 <= i < j < s.len() ==> (#[trigger] s[i]).index != (#[trigger] s[j]).index
}

pub(crate) proof fn lemma_select_increasing(n: int, p: spec_fn(int) -> bool)
    ensures
        forall|i: int, j: int| 0 <= i < j < select(n, p).len() ==> #[trigger] select(n, p)[i] < #[trigger] select(n, p)[j],
    decreases n,
{
    if n > 0 {
        lemma_select_increasing(n - 1, p);
        lemma_select_step(n - 1, p);
        lemma_select_members(n - 1, p);
    }
}

proof fn lemma_hits_distinct(names: Seq<String>, fuzzy: Seq<Option<u64>>, idx: Seq<int>, kind: MatchType)
    requires
        names.len() <= usize::MAX,
        forall|k: int| 0 <= k < idx.len() ==> 0 <= #[trigger] idx[k] < names.len(),
        forall|i: int, j: int| 0 <= i < j < idx.len() ==> #[trigger] idx[i] < #[trigger] idx[j],
    ensures
        distinct_indices(hits_of(names, fuzzy, idx, kind)),
        forall|k: int| 0 <= k < idx.len() ==> (#[trigger] hits_of(names, fuzzy, idx, kind)[k]).index as int == idx[k],
{
    let h = hits_of(names, fuzzy, idx, kind);
    assert forall|k: int| 0 <= k < idx.len() implies (#[trigger] h[k]).index as int == idx[k] by {
        assert(h[k] == hit_of(names, fuzzy, idx[k], kind));
    }
    assert forall|i: int, j: int| 0 <= i < j < h.len() implies (#[trigger] h[i]).index != (#[trigger] h[j]).index by {
        assert(h[i].index as int == idx[i]);
        assert(h[j].index as int == idx[j]);
    }
}

/// No position of the name list is reported twice among a search's
/// results; over the name index, which holds each name once, no crate
/// appears twice.
pub proof fn law_results_distinct(names: Seq<String>, q: Seq<u8>, limit: int, fuzzy: Seq<Option<u64>>)
    requires
        names.len() <= usize::MAX,
    ensures
        distinct_indices(search_spec(names, q, limit, fuzzy)),
{
    if limit > 0 {
        law_results_truthful(names, q, limit, fuzzy);
        let n = names.len() as int;
        let none = Seq::<Option<u64>>::empty();
        let ep = exact_pred(names, q);
        let pp = prefix_pred(names, q);
        let cp = contains_pred(names, q);
        let fp = fuzzy_pred(names, q, fuzzy);
        lemma_select_members(n, ep);
        lemma_select_increasing(n, ep);
        let es = select(n, ep);
        let e = hits_of(names, none, es, MatchType::Exact);
        let pr = room(limit, e.len() as int);
        lemma_take_room_members(n, pp, pr);
        lemma_select_increasing(n, pp);
        let pt = take_room(select(n, pp), pr);
        assert forall|i: int, j: int| 0 <= i < j < pt.len() implies #[trigger] pt[i] < #[trigger] pt[j] by {
            assert(pt[i] == select(n, pp)[i] && pt[j] == select(n, pp)[j]);
        }
        let ph = hits_of(names, none, pt, MatchType::Prefix);
        let h1 = e + ph;
        let cr = room(limit, h1.len() as int);
        lemma_take_room_members(n, cp, cr);
        lemma_select_increasing(n, cp);
        let ct = take_room(select(n, cp), cr);
        assert forall|i: int, j: int| 0 <= i < j < ct.len() implies #[trigger] ct[i] < #[trigger] ct[j] by {
            assert(ct[i] == select(n, cp)[i] && ct[j] == select(n, cp)[j]);
        }
        let ch = hits_of(names, none, ct, MatchType::Contains);
        let h2 = phase_hits(names, q, limit);
        let fr = room(limit, h2.len() as int);
        lemma_take_room_members(n, fp, fr);
        lemma_select_increasing(n, fp);
        let ft = take_room(select(n, fp), fr);
        assert forall|i: int, j: int| 0 <= i < j < ft.len() implies #[trigger] ft[i] < #[trigger] ft[j] by {
            assert(ft[i] == select(n, fp)[i] && ft[j] == select(n, fp)[j]);
        }
        let fh = hits_of(names, fuzzy, ft, MatchType::Fuzzy);
        lemma_hits_distinct(names, none, es, MatchType::Exact);
        lemma_hits_distinct(names, none, pt, MatchType::Prefix);
        lemma_hits_distinct(names, none, ct, MatchType::Contains);
        lemma_hits_distinct(names, fuzzy, ft, MatchType::Fuzzy);
        lemma_hits_truthful(names, q, none, es, MatchType::Exact);
        lemma_hits_truthful(names, q, none, pt, MatchType::Prefix);
        lemma_hits_truthful(names, q, none, ct, MatchType::Contains);
        lemma_hits_truthful(names, q, fuzzy, ft, MatchType::Fuzzy);
        let raw = raw_hits(names, q, limit, fuzzy);
        // The segment a raw position falls in, and the kind of its hit.
        assert forall|k: int| 0 <= k < raw.len() implies hit_truthful(names, q, fuzzy, #[trigger] raw[k])
            && (k < e.len() ==> raw[k] == e[k]) && (e.len() <= k < h1.len() ==> raw[k] == ph[k - e.len()]) && (
        h1.len() <= k < h2.len() ==> raw[k] == ch[k - h1.len()]) && (h2.len() <= k ==> raw[k] == fh[k
            - h2.len()]) by {
            if k < e.len() {
                assert(raw[k] == e[k]);
            } else if k < h1.len() {
                assert(raw[k] == ph[k - e.len()]);
            } else if k < h2.len() {
                assert(h2 == h1 + ch);
                assert(raw[k] == ch[k - h1.len()]);
            } else {
                assert(raw == h2 + fh);
                assert(raw[k] == fh[k - h2.len()]);
            }
        }
        assert forall|i: int, j: int| 0 <= i < j < raw.len() implies (#[trigger] raw[i]).index != (
        #[trigger] raw[j]).index by {
            let a = raw[i];
            let b = raw[j];
            if a.index == b.index {
                let x = a.index as int;
                let nb = sbytes(names[x]);
                // Both hits describe the same name, so they have the same kind ...
                assert(has_prefix(nb, q) ==> has_substring(nb, q)) by {
                    if has_prefix(nb, q) {
                        assert(occurs_at(nb, q, 0));
                    }
                }
                assert(nb == q ==> has_prefix(nb, q)) by {
                    if nb == q {
                        assert(nb.subrange(0, q.len() as int) =~= q);
                    }
                }
                assert(a.match_type == b.match_type);
                // ... and so lie in the same segment, where indices increase.
                if i < e.len() {
                    assert(j < e.len());
                } else if i < h1.len() {
                    assert(e.len() <= j < h1.len());
                } else if i < h2.len() {
                    assert(h1.len() <= j < h2.len());
                } else {
                }
            }
        }
        lemma_sort_multiset(raw);
        let s = sort_hits(raw);
        lemma_sort_ranked(raw);
        lemma_sort_members(raw);
        // `raw` has no repeated hit, so neither has its sort.
        assert(raw.no_duplicates()) by {
            assert forall|i: int, j: int| 0 <= i < raw.len() && 0 <= j < raw.len() && i != j implies raw[i]
                != raw[j] by {
                if i < j {
                    assert(raw[i].index != raw[j].index);
                } else {
                    assert(raw[j].index != raw[i].index);
                }
            }
        }
        raw.lemma_multiset_has_no_duplicates();
        s.lemma_multiset_has_no_duplicates_conv();
        let r = s.subrange(0, min_int(s.len() as int, limit));
        assert forall|i: int, j: int| 0 <= i < j < r.len() implies (#[trigger] r[i]).index != (#[trigger] r[j]).index by {
            assert(r[i] == s[i] && r[j] == s[j]);
            if s[i].index == s[j].index {
                assert(raw.contains(s[i]));
                assert(raw.contains(s[j]));
                let a = choose|a: int| 0 <= a < raw.len() && raw[a] == s[i];
                let b = choose|b: int| 0 <= b < raw.len() && raw[b] == s[j];
                if a < b {
                    assert(raw[a].index != raw[b].index);
                } else if b < a {
                    assert(raw[b].index != raw[a].index);
                }
                assert(s[i] == s[j]);
            }
        }
    }
}

proof fn lemma_hits_has(names: Seq<String>, fuzzy: Seq<Option<u64>>, idx: Seq<int>, i: int, kind: MatchType)
    requires
        idx.contains(i),
    ensures
        hits_of(names, fuzzy, idx, kind).contains(hit_of(names, fuzzy, i, kind)),
{
    let m = choose|m: int| 0 <= m < idx.len() && idx[m] == i;
    assert(hits_of(names, fuzzy, idx, kind)[m] == hit_of(names, fuzzy, i, kind));
}

/// A search that returns fewer than `limit` names misses none that holds
/// the query: every listed name that contains the lowercased query, wherever
/// it sorts, is among the results, as an exact, prefix or contains match.
pub proof fn law_search_complete(names: Seq<String>, q: Seq<u8>, limit: int, fuzzy: Seq<Option<u64>>, i: int)
    requires
        names.len() <= usize::MAX,
        0 <= i < names.len(),
        has_substring(sbytes(names[i]), q),
        search_spec(names, q, limit, fuzzy).len() < limit,
    ensures
        exists|k: int|
            0 <= k < search_spec(names, q, limit, fuzzy).len() && (#[trigger] search_spec(names, q, limit, fuzzy)[k]).index
                == i && search_spec(names, q, limit, fuzzy)[k].name == names[i] && search_spec(
                names,
                q,
                limit,
                fuzzy,
            )[k].match_type != MatchType::Fuzzy,
{
    broadcast use vstd::multiset::group_multiset_axioms;

    let n = names.len() as int;
    let none = Seq::<Option<u64>>::empty();
    let ep = exact_pred(names, q);
    let pp = prefix_pred(names, q);
    let cp = contains_pred(names, q);
    let raw = raw_hits(names, q, limit, fuzzy);
    lemma_sort_len(raw);
    let s = sort_hits(raw);
    let r = search_spec(names, q, limit, fuzzy);
    assert(r == s);
    let es = select(n, ep);
    let e = hits_of(names, none, es, MatchType::Exact);
    let ps = select(n, pp);
    let p = hits_of(names, none, take_room(ps, room(limit, e.len() as int)), MatchType::Prefix);
    let h1 = e + p;
    let h2 = phase_hits(names, q, limit);
    assert(h2.len() <= raw.len());
    if h1.len() >= limit {
        assert(h2 == h1);
        assert(false);
    }
    let cs = select(n, cp);
    let c = hits_of(names, none, take_room(cs, room(limit, h1.len() as int)), MatchType::Contains);
    assert(h2 == h1 + c);
    assert(take_room(ps, room(limit, e.len() as int)) == ps);
    assert(take_room(cs, room(limit, h1.len() as int)) == cs);
    let kind = if first_equal(names, q, i) {
        MatchType::Exact
    } else if has_prefix(sbytes(names[i]), q) {
        MatchType::Prefix
    } else {
        MatchType::Contains
    };
    let hit = hit_of(names, none, i, kind);
    if kind == MatchType::Exact {
        lemma_select_contains(n, ep, i);
        lemma_hits_has(names, none, es, i, kind);
        let m = choose|m: int| 0 <= m < e.len() && e[m] == hit;
        assert(raw[m] == hit);
    } else if kind == MatchType::Prefix {
        lemma_select_contains(n, pp, i);
        lemma_hits_has(names, none, ps, i, kind);
        let m = choose|m: int| 0 <= m < p.len() && p[m] == hit;
        assert(raw[e.len() + m] == hit);
    } else {
        lemma_select_contains(n, cp, i);
        lemma_hits_has(names, none, cs, i, kind);
        let m = choose|m: int| 0 <= m < c.len() && c[m] == hit;
        assert(raw[h1.len() + m] == hit);
    }
    assert(raw.contains(hit));
    lemma_sort_multiset(raw);
    raw.to_multiset_ensures();
    s.to_multiset_ensures();
    assert(raw.to_multiset().count(hit) > 0);
    assert(s.to_multiset().count(hit) > 0);
    assert(s.contains(hit));
    let k = choose|k: int| 0 <= k < s.len() && s[k] == hit;
    assert((i as usize) as int == i);
    assert(r[k].index == i);
}

} // verus!
