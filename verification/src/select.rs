use vstd::prelude::*;

verus! {

/// The indices below `n` at which `p` holds, in increasing order.
pub open spec fn select(n: int, p: spec_fn(int) -> bool) -> Seq<int>
    decreases n,
{
    if n <= 0 {
        seq![]
    } else {
        select(n - 1, p) + if p(n - 1) {
            seq![n - 1]
        } else {
            seq![]
        }
    }
}

/// Indices in `[m, n)` where `p` fails add nothing.
pub proof fn lemma_select_none(m: int, n: int, p: spec_fn(int) -> bool)
    requires
        0 <= m <= n,
        forall|j: int| m <= j < n ==> !#[trigger] p(j),
    ensures
        select(n, p) == select(m, p),
    decreases n - m,
{
    if n > m {
        lemma_select_none(m, n - 1, p);
        assert(select(n, p) =~= select(n - 1, p));
    }
}

/// One more index: appended when `p` holds there.
pub proof fn lemma_select_step(n: int, p: spec_fn(int) -> bool)
    requires
        0 <= n,
    ensures
        select(n + 1, p) == if p(n) {
            select(n, p).push(n)
        } else {
            select(n, p)
        },
{
    assert(select(n + 1, p) == select(n, p) + if p(n) {
        seq![n]
    } else {
        seq![]
    });
    if p(n) {
        assert(select(n, p) + seq![n] =~= select(n, p).push(n));
    } else {
        assert(select(n, p) + seq![] =~= select(n, p));
    }
}

/// The selection below `m` is a prefix of the selection below `n`.
pub proof fn lemma_select_prefix(m: int, n: int, p: spec_fn(int) -> bool)
    requires
        0 <= m <= n,
    ensures
        select(m, p).len() <= select(n, p).len(),
        select(n, p).subrange(0, select(m, p).len() as int) == select(m, p),
    decreases n - m,
{
    if n > m {
        lemma_select_prefix(m, n - 1, p);
        lemma_select_step(n - 1, p);
        let a = select(m, p);
        let b = select(n - 1, p);
        let c = select(n, p);
        assert(c.subrange(0, a.len() as int) =~= b.subrange(0, a.len() as int));
    } else {
        assert(select(n, p).subrange(0, select(n, p).len() as int) =~= select(n, p));
    }
}

/// Every selected index is in range and satisfies `p`.
pub proof fn lemma_select_members(n: int, p: spec_fn(int) -> bool)
    ensures
        forall|k: int| 0 <= k < select(n, p).len() ==> 0 <= #[trigger] select(n, p)[k] < n && p(select(n, p)[k]),
    decreases n,
{
    if n > 0 {
        lemma_select_members(n - 1, p);
        lemma_select_step(n - 1, p);
    }
}

} // verus!
