//! Query-side radix key: a view over raw token ids plus the namespace
//! (`extra_key` / `cache_salt`) and the bigram flag.
//!
//! The trees store keys *flattened* into logical units (one element per
//! token, or two elements per bigram), so all comparisons happen on
//! contiguous `i64` slices.

use crate::ns;
use crate::ns::Names;
use crate::seqs;
use crate::seqs::same_run;
use vstd::prelude::*;
use vstd::slice::slice_subrange;

verus! {

/// A query key for one tree operation.
///
/// `tokens` holds raw token ids. In bigram mode the key represents
/// `raw_len - 1` logical units (pairs `(t[i], t[i+1])`); in plain mode the
/// number of logical units equals the raw length. `limit` caps the raw
/// token count without a copy.
#[derive(Debug, Clone, Copy)]
pub struct RadixKey<'a> {
    /// Raw token ids (in bigram mode: N+1 raw tokens for N logical bigrams).
    pub tokens: &'a [i64],
    /// Caller-defined namespace; different `extra_key`s never share nodes.
    pub extra_key: Option<&'a str>,
    /// Distinct namespace salt; namespaced so it cannot collide with
    /// `extra_key`.
    pub cache_salt: Option<&'a str>,
    /// Bigram view flag. A tree built for bigrams forces this on.
    pub is_bigram: bool,
    /// Optional cap on raw tokens (behaves as if sliced to `tokens[..limit]`).
    pub limit: Option<usize>,
}

/// Flattened logical units: borrowed from the key where they stand there as
/// they are, owned where the pairs had to be written out.
#[derive(Debug, Clone)]
pub enum FlatKey<'a> {
    Borrowed(&'a [i64]),
    Owned(Vec<i64>),
}

impl<'a> FlatKey<'a> {
    /// The flattened units.
    pub open spec fn view(&self) -> Seq<i64> {
        match self {
            FlatKey::Borrowed(s) => s@,
            FlatKey::Owned(v) => v@,
        }
    }

    /// The flattened units as a slice.
    pub fn as_ref(&self) -> (r: &[i64])
        ensures
            r@ == self.view(),
    {
        match self {
            FlatKey::Borrowed(s) => s,
            FlatKey::Owned(v) => v.as_slice(),
        }
    }

    /// Number of flattened elements.
    pub fn len(&self) -> (r: usize)
        ensures
            r == self.view().len(),
    {
        self.as_ref().len()
    }

    /// Whether there are no units.
    pub fn is_empty(&self) -> (r: bool)
        ensures
            r == (self.view().len() == 0),
    {
        self.as_ref().len() == 0
    }
}

/// `n` rounded down to a multiple of `page`.
pub open spec fn page_floor(n: nat, page: nat) -> nat {
    n / page * page
}

/// The first `units` bigrams of `raw`, two elements each.
pub open spec fn pairs(raw: Seq<i64>, units: nat) -> Seq<i64> {
    Seq::new(2 * units, |i: int| raw[i / 2 + i % 2])
}

/// The flattened form of the first `n` raw tokens of `tokens`, cut to whole pages.
pub open spec fn flatten(tokens: Seq<i64>, n: nat, bigram: bool, page: nat) -> Seq<i64> {
    let raw = tokens.take(n as int);
    if bigram {
        pairs(raw, page_floor((if n == 0 { 0 } else { n - 1 }) as nat, page))
    } else {
        raw.take(page_floor(n, page) as int)
    }
}

impl<'a> RadixKey<'a> {
    /// Raw token count honoring `limit`.
    pub open spec fn raw_count(&self) -> nat {
        match self.limit {
            Some(l) if l < self.tokens@.len() => l as nat,
            _ => self.tokens@.len(),
        }
    }

    /// Logical unit count when the bigram flag is `bigram`.
    pub open spec fn units(&self, bigram: bool) -> nat {
        if bigram && self.raw_count() > 0 {
            (self.raw_count() - 1) as nat
        } else {
            self.raw_count()
        }
    }

    /// Flattened units in whole pages when the bigram flag is `bigram`.
    pub open spec fn flat(&self, bigram: bool, page: nat) -> Seq<i64> {
        flatten(self.tokens@, self.raw_count(), bigram, page)
    }

    /// The namespace the key names: absent parts are empty.
    pub open spec fn namespace(&self) -> Names {
        ns::names_of(self.extra_key, self.cache_salt)
    }

    /// A plain key over `tokens` in the default namespace, without a cap.
    pub fn new(tokens: &'a [i64]) -> (r: Self)
        ensures
            r.tokens@ == tokens@,
            r.extra_key is None,
            r.cache_salt is None,
            !r.is_bigram,
            r.limit is None,
    {
        Self { tokens, extra_key: None, cache_salt: None, is_bigram: false, limit: None }
    }

    /// The same key with the bigram flag set to `is_bigram`.
    pub(crate) fn with_bigram(&self, is_bigram: bool) -> (r: RadixKey<'a>)
        ensures
            r == (RadixKey { is_bigram, ..*self }),
    {
        RadixKey {
            tokens: self.tokens,
            extra_key: self.extra_key,
            cache_salt: self.cache_salt,
            is_bigram,
            limit: self.limit,
        }
    }

    /// Raw token count honoring `limit`.
    pub fn raw_len(&self) -> (r: usize)
        ensures
            r == self.raw_count(),
    {
        let n = self.tokens.len();
        match self.limit {
            Some(l) if l < n => l,
            _ => n,
        }
    }

    /// Logical unit count (bigrams: `max(0, raw - 1)`).
    pub fn logical_len(&self) -> (r: usize)
        ensures
            r == self.units(self.is_bigram),
    {
        let n = self.raw_len();
        if self.is_bigram && n > 0 {
            n - 1
        } else {
            n
        }
    }

    /// Flattened logical units, truncated to a multiple of `page_size`.
    ///
    /// Plain keys are borrowed; bigram keys materialize the
    /// `(t[i], t[i+1])` pairs. This is the representation the trees store
    /// and compare.
    pub fn flatten_page_aligned(&self, page_size: usize) -> (r: FlatKey<'a>)
        requires
            page_size >= 1,
        ensures
            r.view() == self.flat(self.is_bigram, page_size as nat),
            r is Owned <==> self.is_bigram && r.view().len() > 0,
    {
        let logical = self.logical_len();
        proof {
            lemma_page_floor(logical as nat, page_size as nat);
        }
        let aligned = logical / page_size * page_size;
        if aligned == 0 {
            let none = slice_subrange(self.tokens, 0, 0);
            assert(none@ =~= self.flat(self.is_bigram, page_size as nat));
            return FlatKey::Borrowed(none);
        }
        if !self.is_bigram {
            let r = slice_subrange(self.tokens, 0, aligned);
            assert(r@ =~= self.flat(false, page_size as nat));
            FlatKey::Borrowed(r)
        } else {
            let ghost raw = self.tokens@.take(self.raw_count() as int);
            let mut v: Vec<i64> = Vec::new();
            let mut j: usize = 0;
            while j < aligned
                invariant
                    j <= aligned < self.raw_count() <= self.tokens@.len(),
                    raw == self.tokens@.take(self.raw_count() as int),
                    v@.len() == 2 * j,
                    forall|i: int| 0 <= i < v@.len() ==> v@[i] == raw[i / 2 + i % 2],
                decreases aligned - j,
            {
                v.push(self.tokens[j]);
                v.push(self.tokens[j + 1]);
                j += 1;
            }
            assert(v@ =~= self.flat(true, page_size as nat));
            FlatKey::Owned(v)
        }
    }
}

/// Rounding down to pages stays below the length and on a page boundary.
pub proof fn lemma_page_floor(n: nat, page: nat)
    requires
        page >= 1,
    ensures
        page_floor(n, page) <= n,
        n < page_floor(n, page) + page,
        page_floor(n, page) % page == 0,
        n < page ==> page_floor(n, page) == 0,
        page == 1 ==> page_floor(n, page) == n,
{
    vstd::arithmetic::div_mod::lemma_fundamental_div_mod(n as int, page as int);
    vstd::arithmetic::div_mod::lemma_mod_multiples_basic(n as int / page as int, page as int);
    vstd::arithmetic::div_mod::lemma_mod_bound(n as int, page as int);
    assert(page_floor(n, page) == (n as int / page as int) * page as int);
    assert((n as int / page as int) * page as int == page as int * (n as int / page as int))
        by (nonlinear_arith);
    if n < page {
        vstd::arithmetic::div_mod::lemma_basic_div(n as int, page as int);
        assert(0 * page as int == 0);
    }
    if page == 1 {
        vstd::arithmetic::div_mod::lemma_div_basics(n as int);
    }
}

/// What a key names, unit by unit: the raw tokens within the limit, or the
/// overlapping pairs of them, each pair a token and its successor. As many
/// units stay as fill whole pages, and no whole page is dropped.
pub proof fn law_flat_units(key: RadixKey, bigram: bool, page: nat)
    requires
        page >= 1,
    ensures
        ({
            let flat = key.flat(bigram, page);
            let width: int = if bigram {
                2
            } else {
                1
            };
            let raw: int = match key.limit {
                Some(l) if l <= key.tokens@.len() => l as int,
                _ => key.tokens@.len() as int,
            };
            let all: int = if !bigram {
                raw
            } else if raw == 0 {
                0
            } else {
                raw - 1
            };
            let kept: int = flat.len() as int / width;
            &&& flat.len() == width * kept
            &&& kept % page as int == 0
            &&& kept <= all < kept + page
            &&& forall|i: int| 0 <= i < kept ==> flat[#[trigger] (width * i)] == key.tokens@[i]
            &&& bigram ==> forall|i: int| 0 <= i < kept ==> flat[#[trigger] (2 * i + 1)] == key.tokens@[i + 1]
        }),
{
    let flat = key.flat(bigram, page);
    let n = key.raw_count();
    let all = key.units(bigram);
    let kept = page_floor(all, page);
    lemma_page_floor(all, page);
    let raw = key.tokens@.take(n as int);
    assert(raw.len() == n);
    if bigram {
        assert(flat == pairs(raw, kept));
        assert(flat.len() as int / 2 == kept);
        assert forall|i: int| 0 <= i < kept implies flat[#[trigger] (2 * i)] == key.tokens@[i] by {
            assert((2 * i) / 2 == i && (2 * i) % 2 == 0);
            assert(flat[2 * i] == raw[i]);
        }
        assert forall|i: int| 0 <= i < kept implies flat[#[trigger] (2 * i + 1)] == key.tokens@[i + 1] by {
            assert((2 * i + 1) / 2 == i && (2 * i + 1) % 2 == 1);
            assert(flat[2 * i + 1] == raw[i + 1]);
        }
    } else {
        assert(flat == raw.take(kept as int));
        assert(flat.len() as int / 1 == kept);
        assert forall|i: int| 0 <= i < kept implies flat[#[trigger] (1 * i)] == key.tokens@[i] by {
            assert(flat[i] == raw[i]);
        }
    }
}

/// Number of shared leading elements of two flattened unit sequences, using
/// exponential (gallop) window compares followed by a binary refinement:
/// no per-element work on long shared prefixes beyond the window compares.
pub fn common_prefix_len(a: &[i64], b: &[i64]) -> (r: usize)
    ensures
        r == seqs::lcp(a@, b@),
{
    let n: usize = if a.len() < b.len() {
        a.len()
    } else {
        b.len()
    };
    let mut lo: usize = 0;
    let mut step: usize = 1;
    while lo < n
        invariant
            lo <= n <= a.len(),
            n <= b.len(),
            n == a.len() || n == b.len(),
            step >= 1,
            forall|i: int| 0 <= i < lo ==> a@[i] == b@[i],
        decreases n - lo,
    {
        let mut hi: usize = if step < n - lo {
            lo + step
        } else {
            n
        };
        let window_a = slice_subrange(a, lo, hi);
        let window_b = slice_subrange(b, lo, hi);
        if !same_run(window_a, window_b) {
            proof {
                lemma_window_differs(a@, b@, lo as int, hi as int);
            }
            while hi - lo > 1
                invariant
                    lo < hi <= n <= a.len(),
                    n <= b.len(),
                    forall|i: int| 0 <= i < lo ==> a@[i] == b@[i],
                    exists|i: int| lo <= i < hi && a@[i] != b@[i],
                decreases hi - lo,
            {
                let mid = lo + (hi - lo) / 2;
                if same_run(slice_subrange(a, lo, mid), slice_subrange(b, lo, mid)) {
                    proof {
                        lemma_window_agrees(a@, b@, lo as int, mid as int);
                    }
                    lo = mid;
                } else {
                    proof {
                        lemma_window_differs(a@, b@, lo as int, mid as int);
                    }
                    hi = mid;
                }
            }
            proof {
                seqs::lemma_lcp_is(a@, b@, lo as nat);
            }
            return lo;
        }
        proof {
            lemma_window_agrees(a@, b@, lo as int, hi as int);
        }
        lo = hi;
        step = if step <= usize::MAX / 2 {
            step * 2
        } else {
            usize::MAX
        };
    }
    proof {
        seqs::lemma_lcp_is(a@, b@, n as nat);
    }
    n
}

proof fn lemma_window_agrees(a: Seq<i64>, b: Seq<i64>, lo: int, hi: int)
    requires
        0 <= lo <= hi <= a.len(),
        hi <= b.len(),
        a.subrange(lo, hi) == b.subrange(lo, hi),
    ensures
        forall|i: int| lo <= i < hi ==> a[i] == b[i],
{
    assert forall|i: int| lo <= i < hi implies a[i] == b[i] by {
        assert(a[i] == a.subrange(lo, hi)[i - lo]);
        assert(b[i] == b.subrange(lo, hi)[i - lo]);
    }
}

proof fn lemma_window_differs(a: Seq<i64>, b: Seq<i64>, lo: int, hi: int)
    requires
        0 <= lo <= hi <= a.len(),
        hi <= b.len(),
        a.subrange(lo, hi) != b.subrange(lo, hi),
    ensures
        exists|i: int| lo <= i < hi && a[i] != b[i],
{
    if forall|i: int| lo <= i < hi ==> a[i] == b[i] {
        assert(a.subrange(lo, hi) =~= b.subrange(lo, hi));
    }
}

} // verus!
