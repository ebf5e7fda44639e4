//! Putting the indices of a collection in order: a merge sort over `0..n`
//! under a strict total order on the indices, so that equal items can still be
//! told apart by where they stood.

use vstd::prelude::*;

verus! {

/// `prec` is a strict total order on the indices below `n`.
pub open spec fn strict_order(prec: spec_fn(int, int) -> bool, n: int) -> bool {
    &&& forall|i: int| 0 <= i < n ==> !#[trigger] prec(i, i)
    &&& forall|i: int, j: int|
        0 <= i < n && 0 <= j < n && i != j ==> #[trigger] prec(i, j) || prec(j, i)
    &&& forall|i: int, j: int, k: int|
        0 <= i < n && 0 <= j < n && 0 <= k < n && #[trigger] prec(i, j) && #[trigger] prec(j, k)
            ==> prec(i, k)
}

/// `earlier` answers `prec` on every pair of indices below `n`.
pub open spec fn decides<F: Fn(usize, usize) -> bool>(
    earlier: F,
    prec: spec_fn(int, int) -> bool,
    n: int,
) -> bool {
    &&& forall|i: usize, j: usize| i < n && j < n ==> #[trigger] earlier.requires((i, j))
    &&& forall|i: usize, j: usize, r: bool|
        i < n && j < n && #[trigger] earlier.ensures((i, j), r) ==> r == prec(i as int, j as int)
}

/// The indices in `s` run in the order `prec`, each before every later one.
pub open spec fn ascending(s: Seq<usize>, prec: spec_fn(int, int) -> bool) -> bool {
    forall|a: int, b: int|
        0 <= a < b < s.len() ==> prec(#[trigger] s[a] as int, #[trigger] s[b] as int)
}

/// Every index in `s` is below `n`.
pub open spec fn below(s: Seq<usize>, n: int) -> bool {
    forall|k: int| 0 <= k < s.len() ==> #[trigger] s[k] < n
}

proof fn lemma_extend(
    out: Seq<usize>,
    x: usize,
    prec: spec_fn(int, int) -> bool,
    n: int,
)
    requires
        strict_order(prec, n),
        ascending(out, prec),
        below(out, n),
        x < n,
        out.len() > 0 ==> prec(out.last() as int, x as int),
    ensures
        ascending(out.push(x), prec),
        below(out.push(x), n),
{
    let s = out.push(x);
    assert forall|a: int, b: int| 0 <= a < b < s.len() implies prec(
        #[trigger] s[a] as int,
        #[trigger] s[b] as int,
    ) by {
        if b == out.len() {
            if a < out.len() - 1 {
                let l = out.len() - 1;
                assert(prec(out[a] as int, out[l] as int));
                assert(prec(out[l] as int, x as int));
            }
        } else {
            assert(s[a] == out[a] && s[b] == out[b]);
        }
    }
}

proof fn lemma_contains_push(s: Seq<usize>, x: usize, y: usize)
    ensures
        s.push(x).contains(y) <==> s.contains(y) || y == x,
{
    let t = s.push(x);
    if s.contains(y) {
        let k = choose|k: int| 0 <= k < s.len() && s[k] == y;
        assert(t[k] == y);
    }
    if y == x {
        assert(t[s.len() as int] == y);
    }
    if t.contains(y) {
        let k = choose|k: int| 0 <= k < t.len() && t[k] == y;
        if k < s.len() {
            assert(s[k] == y);
        }
    }
}

/// The two ascending runs `a` and `b`, which share no index, merged into one.
fn merge<F: Fn(usize, usize) -> bool>(
    a: &Vec<usize>,
    b: &Vec<usize>,
    earlier: &F,
    Ghost(prec): Ghost<spec_fn(int, int) -> bool>,
    Ghost(n): Ghost<int>,
) -> (r: Vec<usize>)
    requires
        strict_order(prec, n),
        decides(*earlier, prec, n),
        ascending(a@, prec),
        ascending(b@, prec),
        below(a@, n),
        below(b@, n),
        forall|p: int, q: int| 0 <= p < a.len() && 0 <= q < b.len() ==> a@[p] != b@[q],
    ensures
        r.len() == a.len() + b.len(),
        ascending(r@, prec),
        below(r@, n),
        forall|x: usize| #[trigger] r@.contains(x) <==> a@.contains(x) || b@.contains(x),
{
    let mut out: Vec<usize> = Vec::new();
    let mut i: usize = 0;
    let mut j: usize = 0;
    while i < a.len() || j < b.len()
        invariant
            i <= a.len(),
            j <= b.len(),
            out.len() == i + j,
            strict_order(prec, n),
            decides(*earlier, prec, n),
            ascending(a@, prec),
            ascending(b@, prec),
            below(a@, n),
            below(b@, n),
            forall|p: int, q: int| 0 <= p < a.len() && 0 <= q < b.len() ==> a@[p] != b@[q],
            ascending(out@, prec),
            below(out@, n),
            forall|x: usize| #[trigger]
                out@.contains(x) <==> a@.take(i as int).contains(x) || b@.take(j as int).contains(
                    x,
                ),
            out.len() > 0 && i < a.len() ==> prec(out@.last() as int, a@[i as int] as int),
            out.len() > 0 && j < b.len() ==> prec(out@.last() as int, b@[j as int] as int),
        decreases a.len() + b.len() - i - j,
    {
        let from_a = if i == a.len() {
            false
        } else if j == b.len() {
            true
        } else {
            !earlier(b[j], a[i])
        };
        let ghost before = out@;
        let ghost ta = a@.take(i as int);
        let ghost tb = b@.take(j as int);
        if from_a {
            let x = a[i];
            proof {
                lemma_extend(before, x, prec, n);
                if j < b.len() {
                    assert(a@[i as int] != b@[j as int]);
                    assert(prec(x as int, b@[j as int] as int));
                }
                if i + 1 < a.len() {
                    assert(prec(a@[i as int] as int, a@[i + 1] as int));
                }
                assert(a@.take(i + 1) =~= ta.push(x));
            }
            out.push(x);
            i += 1;
            proof {
                assert forall|y: usize| #[trigger] out@.contains(y) <==> a@.take(i as int).contains(y)
                    || b@.take(j as int).contains(y) by {
                    lemma_contains_push(before, x, y);
                    lemma_contains_push(ta, x, y);
                }
            }
        } else {
            let x = b[j];
            proof {
                lemma_extend(before, x, prec, n);
                if i < a.len() {
                    assert(prec(x as int, a@[i as int] as int));
                }
                if j + 1 < b.len() {
                    assert(prec(b@[j as int] as int, b@[j + 1] as int));
                }
                assert(b@.take(j + 1) =~= tb.push(x));
            }
            out.push(x);
            j += 1;
            proof {
                assert forall|y: usize| #[trigger] out@.contains(y) <==> a@.take(i as int).contains(y)
                    || b@.take(j as int).contains(y) by {
                    lemma_contains_push(before, x, y);
                    lemma_contains_push(tb, x, y);
                }
            }
        }
    }
    assert(a@.take(a.len() as int) =~= a@);
    assert(b@.take(b.len() as int) =~= b@);
    out
}

/// The indices `lo..hi` in the order `prec`.
fn sort_range<F: Fn(usize, usize) -> bool>(
    lo: usize,
    hi: usize,
    earlier: &F,
    Ghost(prec): Ghost<spec_fn(int, int) -> bool>,
    Ghost(n): Ghost<int>,
) -> (r: Vec<usize>)
    requires
        lo <= hi <= n,
        strict_order(prec, n),
        decides(*earlier, prec, n),
    ensures
        r.len() == hi - lo,
        ascending(r@, prec),
        forall|k: int| 0 <= k < r.len() ==> lo <= #[trigger] r@[k] < hi,
        forall|x: usize| lo <= x < hi ==> #[trigger] r@.contains(x),
    decreases hi - lo,
{
    if hi - lo == 0 {
        Vec::new()
    } else if hi - lo == 1 {
        let mut r: Vec<usize> = Vec::new();
        r.push(lo);
        assert(r@[0] == lo);
        r
    } else {
        let mid = lo + (hi - lo) / 2;
        let a = sort_range(lo, mid, earlier, Ghost(prec), Ghost(n));
        let b = sort_range(mid, hi, earlier, Ghost(prec), Ghost(n));
        assert forall|p: int, q: int| 0 <= p < a.len() && 0 <= q < b.len() implies a@[p] != b@[q] by {
            assert(a@[p] < mid);
            assert(mid <= b@[q]);
        }
        assert(below(a@, n));
        assert(below(b@, n));
        let r = merge(&a, &b, earlier, Ghost(prec), Ghost(n));
        assert forall|k: int| 0 <= k < r.len() implies lo <= #[trigger] r@[k] < hi by {
            assert(r@.contains(r@[k]));
            if a@.contains(r@[k]) {
                let p = choose|p: int| 0 <= p < a.len() && a@[p] == r@[k];
                assert(lo <= a@[p] < mid);
            } else {
                let q = choose|q: int| 0 <= q < b.len() && b@[q] == r@[k];
                assert(mid <= b@[q] < hi);
            }
        }
        assert forall|x: usize| lo <= x < hi implies #[trigger] r@.contains(x) by {
            if x < mid {
                assert(a@.contains(x));
            } else {
                assert(b@.contains(x));
            }
        }
        r
    }
}

/// The indices `0..n` in the order `prec`: every index once, each before every
/// index that follows it.
pub fn sort_indices<F: Fn(usize, usize) -> bool>(
    n: usize,
    earlier: &F,
    Ghost(prec): Ghost<spec_fn(int, int) -> bool>,
) -> (r: Vec<usize>)
    requires
        strict_order(prec, n as int),
        decides(*earlier, prec, n as int),
    ensures
        r.len() == n,
        ascending(r@, prec),
        below(r@, n as int),
        forall|x: usize| x < n ==> #[trigger] r@.contains(x),
{
    sort_range(0, n, earlier, Ghost(prec), Ghost(n as int))
}

} // verus!
