//! Sequence facts and slice helpers shared by every tree.

use vstd::prelude::*;
use vstd::slice::slice_subrange;

verus! {

/// Length of the longest common prefix of `a` and `b`.
pub open spec fn lcp(a: Seq<i64>, b: Seq<i64>) -> nat
    decreases a.len(),
{
    if a.len() == 0 || b.len() == 0 || a[0] != b[0] {
        0
    } else {
        1 + lcp(a.drop_first(), b.drop_first())
    }
}

/// `lcp` is the one length up to which the sequences agree and past which they do not.
pub proof fn lemma_lcp_is(a: Seq<i64>, b: Seq<i64>, n: nat)
    requires
        n <= a.len(),
        n <= b.len(),
        forall|i: int| 0 <= i < n ==> a[i] == b[i],
        n == a.len() || n == b.len() || a[n as int] != b[n as int],
    ensures
        lcp(a, b) == n,
    decreases n,
{
    if n > 0 {
        assert(a[0] == b[0]);
        assert forall|i: int| 0 <= i < n - 1 implies a.drop_first()[i] == b.drop_first()[i] by {
            assert(a[i + 1] == b[i + 1]);
        }
        lemma_lcp_is(a.drop_first(), b.drop_first(), (n - 1) as nat);
    }
}

/// What `lcp` says of the two sequences.
pub proof fn lemma_lcp(a: Seq<i64>, b: Seq<i64>)
    ensures
        lcp(a, b) <= a.len(),
        lcp(a, b) <= b.len(),
        forall|i: int| 0 <= i < lcp(a, b) ==> a[i] == b[i],
        a.take(lcp(a, b) as int) == b.take(lcp(a, b) as int),
        lcp(a, b) == a.len() || lcp(a, b) == b.len() || a[lcp(a, b) as int] != b[lcp(a, b) as int],
    decreases a.len(),
{
    if a.len() > 0 && b.len() > 0 && a[0] == b[0] {
        lemma_lcp(a.drop_first(), b.drop_first());
        let n = lcp(a.drop_first(), b.drop_first());
        assert forall|i: int| 0 <= i < n + 1 implies a[i] == b[i] by {
            if i > 0 {
                assert(a.drop_first()[i - 1] == b.drop_first()[i - 1]);
            }
        }
    }
    assert(a.take(lcp(a, b) as int) =~= b.take(lcp(a, b) as int));
}

/// A common prefix is never longer than `lcp`.
pub proof fn lemma_lcp_at_least(a: Seq<i64>, b: Seq<i64>, n: nat)
    requires
        n <= a.len(),
        n <= b.len(),
        a.take(n as int) == b.take(n as int),
    ensures
        n <= lcp(a, b),
{
    lemma_lcp(a, b);
    let m = lcp(a, b);
    if m < n {
        assert(a[m as int] == a.take(n as int)[m as int]);
        assert(b[m as int] == b.take(n as int)[m as int]);
    }
}

/// Whether `a` and `b` hold the same elements.
pub fn same_run(a: &[i64], b: &[i64]) -> (r: bool)
    ensures
        r == (a@ == b@),
{
    if a.len() != b.len() {
        return false;
    }
    let mut i: usize = 0;
    while i < a.len()
        invariant
            i <= a.len(),
            a.len() == b.len(),
            forall|j: int| 0 <= j < i ==> a[j] == b[j],
        decreases a.len() - i,
    {
        if a[i] != b[i] {
            assert(a@[i as int] != b@[i as int]);
            return false;
        }
        i += 1;
    }
    assert(a@ =~= b@);
    true
}

/// A fresh copy of `a[lo..hi]`.
pub fn copy_range(a: &[i64], lo: usize, hi: usize) -> (r: Vec<i64>)
    requires
        lo <= hi <= a.len(),
    ensures
        r@ == a@.subrange(lo as int, hi as int),
{
    vstd::slice::slice_to_vec(slice_subrange(a, lo, hi))
}

/// The contents of an optional run.
pub open spec fn opt_run(v: Option<Vec<i64>>) -> Option<Seq<i64>> {
    match v {
        Some(v) => Some(v@),
        None => None,
    }
}

/// A fresh copy of an optional run.
pub fn copy_opt(v: &Option<Vec<i64>>) -> (r: Option<Vec<i64>>)
    ensures
        opt_run(r) == opt_run(*v),
{
    match v {
        Some(v) => {
            let c = copy_range(v.as_slice(), 0, v.len());
            assert(c@ =~= v@);
            Some(c)
        },
        None => None,
    }
}

/// Appends `b` to `a`.
pub fn append_run(a: &mut Vec<i64>, b: &[i64])
    ensures
        final(a)@ == old(a)@ + b@,
{
    let ghost before = a@;
    a.extend_from_slice(b);
    assert(a@ =~= before + b@);
}

/// Sum of `f` over `0..n`.
pub open spec fn total(f: spec_fn(int) -> int, n: nat) -> int
    decreases n,
{
    if n == 0 {
        0
    } else {
        total(f, (n - 1) as nat) + f(n - 1)
    }
}

/// Nothing adds up to nothing.
pub proof fn lemma_total_none(f: spec_fn(int) -> int, n: nat)
    requires
        forall|i: int| 0 <= i < n ==> #[trigger] f(i) == 0,
    ensures
        total(f, n) == 0,
    decreases n,
{
    if n > 0 {
        lemma_total_none(f, (n - 1) as nat);
    }
}

/// Two functions that agree on `0..n` have the same sum.
pub proof fn lemma_total_same(f: spec_fn(int) -> int, g: spec_fn(int) -> int, n: nat)
    requires
        forall|i: int| 0 <= i < n ==> #[trigger] f(i) == g(i),
    ensures
        total(f, n) == total(g, n),
    decreases n,
{
    if n > 0 {
        lemma_total_same(f, g, (n - 1) as nat);
    }
}

/// Changing one summand changes the sum by as much.
pub proof fn lemma_total_update(f: spec_fn(int) -> int, g: spec_fn(int) -> int, n: nat, k: int)
    requires
        0 <= k < n,
        forall|i: int| 0 <= i < n && i != k ==> #[trigger] f(i) == g(i),
    ensures
        total(g, n) == total(f, n) - f(k) + g(k),
    decreases n,
{
    if k == n - 1 {
        lemma_total_same(f, g, (n - 1) as nat);
    } else {
        lemma_total_update(f, g, (n - 1) as nat, k);
    }
}

/// A sum of summands that are at least zero bounds each of them.
pub proof fn lemma_total_bounds(f: spec_fn(int) -> int, n: nat)
    requires
        forall|i: int| 0 <= i < n ==> #[trigger] f(i) >= 0,
    ensures
        total(f, n) >= 0,
        forall|i: int| 0 <= i < n ==> #[trigger] f(i) <= total(f, n),
    decreases n,
{
    if n > 0 {
        lemma_total_bounds(f, (n - 1) as nat);
    }
}

/// A sum of summands that are at least zero grows with its length.
pub proof fn lemma_total_prefix(f: spec_fn(int) -> int, k: nat, n: nat)
    requires
        k <= n,
        forall|i: int| 0 <= i < n ==> #[trigger] f(i) >= 0,
    ensures
        total(f, k) <= total(f, n),
    decreases n,
{
    if k < n {
        lemma_total_prefix(f, k, (n - 1) as nat);
    }
}

/// A pointwise larger function has a larger sum.
pub proof fn lemma_total_le(f: spec_fn(int) -> int, g: spec_fn(int) -> int, n: nat)
    requires
        forall|i: int| 0 <= i < n ==> #[trigger] f(i) <= g(i),
    ensures
        total(f, n) <= total(g, n),
    decreases n,
{
    if n > 0 {
        lemma_total_le(f, g, (n - 1) as nat);
    }
}

/// The sum of a pointwise sum.
pub proof fn lemma_total_add(
    f: spec_fn(int) -> int,
    g: spec_fn(int) -> int,
    h: spec_fn(int) -> int,
    n: nat,
)
    requires
        forall|i: int| 0 <= i < n ==> #[trigger] h(i) == f(i) + g(i),
    ensures
        total(h, n) == total(f, n) + total(g, n),
    decreases n,
{
    if n > 0 {
        lemma_total_add(f, g, h, (n - 1) as nat);
    }
}

} // verus!
