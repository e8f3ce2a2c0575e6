//! Counting the positions below a bound that satisfy a predicate, and
//! collecting one value for each of them in increasing order.

use vstd::prelude::*;

verus! {

/// How many positions `k` with `0 <= k < n` satisfy `p`.
pub open spec fn count_below(n: int, p: spec_fn(int) -> bool) -> nat
    decreases n,
{
    if n <= 0 {
        0
    } else {
        count_below(n - 1, p) + if p(n - 1) {
            1nat
        } else {
            0nat
        }
    }
}

/// The values `f(k)` for the positions `0 <= k < n` that satisfy `p`, in
/// increasing order of `k`.
pub open spec fn collect_below<T>(n: int, p: spec_fn(int) -> bool, f: spec_fn(int) -> T) -> Seq<T>
    decreases n,
{
    if n <= 0 {
        Seq::empty()
    } else if p(n - 1) {
        collect_below(n - 1, p, f).push(f(n - 1))
    } else {
        collect_below(n - 1, p, f)
    }
}

/// No more positions are counted than lie below the bound.
pub proof fn lemma_count_bounded(n: int, p: spec_fn(int) -> bool)
    ensures
        count_below(n, p) <= if n <= 0 { 0 } else { n },
    decreases n,
{
    if n > 0 {
        lemma_count_bounded(n - 1, p);
    }
}

/// A predicate that holds nowhere below `n` counts nothing.
pub proof fn lemma_count_none(n: int, p: spec_fn(int) -> bool)
    requires
        forall|k: int| 0 <= k < n ==> !#[trigger] p(k),
    ensures
        count_below(n, p) == 0,
    decreases n,
{
    if n > 0 {
        lemma_count_none(n - 1, p);
    }
}

/// Predicates that agree below `n` have the same count.
pub proof fn lemma_count_agree(n: int, p: spec_fn(int) -> bool, q: spec_fn(int) -> bool)
    requires
        forall|k: int| 0 <= k < n ==> #[trigger] p(k) == q(k),
    ensures
        count_below(n, p) == count_below(n, q),
    decreases n,
{
    if n > 0 {
        lemma_count_agree(n - 1, p, q);
    }
}

/// A predicate that implies another has at most its count.
pub proof fn lemma_count_monotone(n: int, p: spec_fn(int) -> bool, q: spec_fn(int) -> bool)
    requires
        forall|k: int| 0 <= k < n && #[trigger] p(k) ==> q(k),
    ensures
        count_below(n, p) <= count_below(n, q),
    decreases n,
{
    if n > 0 {
        lemma_count_monotone(n - 1, p, q);
    }
}

/// A predicate that implies another and misses one of its positions has a
/// strictly smaller count.
pub proof fn lemma_count_strict(
    n: int,
    p: spec_fn(int) -> bool,
    q: spec_fn(int) -> bool,
    w: int,
)
    requires
        forall|k: int| 0 <= k < n && #[trigger] p(k) ==> q(k),
        0 <= w < n,
        q(w),
        !p(w),
    ensures
        count_below(n, p) < count_below(n, q),
    decreases n,
{
    if w == n - 1 {
        lemma_count_monotone(n - 1, p, q);
    } else {
        lemma_count_strict(n - 1, p, q, w);
    }
}

/// Switching a predicate on at one position raises its count by one.
pub proof fn lemma_count_switch_on(
    n: int,
    p: spec_fn(int) -> bool,
    q: spec_fn(int) -> bool,
    w: int,
)
    requires
        forall|k: int| 0 <= k < n && k != w ==> #[trigger] p(k) == q(k),
        0 <= w < n,
        q(w),
        !p(w),
    ensures
        count_below(n, q) == count_below(n, p) + 1,
    decreases n,
{
    if w == n - 1 {
        lemma_count_agree(n - 1, p, q);
    } else {
        lemma_count_switch_on(n - 1, p, q, w);
    }
}

/// A position that satisfies the predicate makes the count positive.
pub proof fn lemma_count_positive(n: int, p: spec_fn(int) -> bool, w: int)
    requires
        0 <= w < n,
        p(w),
    ensures
        count_below(n, p) > 0,
    decreases n,
{
    if w < n - 1 {
        lemma_count_positive(n - 1, p, w);
    }
}

/// A positive count has a witness.
pub proof fn lemma_count_witness(n: int, p: spec_fn(int) -> bool) -> (w: int)
    requires
        count_below(n, p) > 0,
    ensures
        0 <= w < n,
        p(w),
    decreases n,
{
    if p(n - 1) {
        n - 1
    } else {
        lemma_count_witness(n - 1, p)
    }
}

/// The count is the bound exactly when every position satisfies the
/// predicate.
pub proof fn lemma_count_full(n: int, p: spec_fn(int) -> bool)
    requires
        0 <= n,
    ensures
        count_below(n, p) == n <==> forall|k: int| 0 <= k < n ==> #[trigger] p(k),
    decreases n,
{
    if n > 0 {
        lemma_count_full(n - 1, p);
        lemma_count_bounded(n - 1, p);
    }
}

/// Positions on which the predicate fails add nothing to the count.
pub proof fn lemma_count_tail(m: int, n: int, p: spec_fn(int) -> bool)
    requires
        m <= n,
        forall|k: int| m <= k < n && 0 <= k ==> !#[trigger] p(k),
    ensures
        count_below(n, p) == count_below(m, p),
    decreases n - m,
{
    if m < n {
        lemma_count_tail(m, n - 1, p);
    }
}

/// A second predicate splits the count of the first in two.
pub proof fn lemma_count_split(n: int, p: spec_fn(int) -> bool, q: spec_fn(int) -> bool)
    ensures
        count_below(n, p) == count_below(n, |k: int| p(k) && q(k)) + count_below(
            n,
            |k: int| p(k) && !q(k),
        ),
    decreases n,
{
    if n > 0 {
        lemma_count_split(n - 1, p, q);
    }
}

/// As many values are collected as positions counted.
pub proof fn lemma_collect_len<T>(n: int, p: spec_fn(int) -> bool, f: spec_fn(int) -> T)
    ensures
        collect_below(n, p, f).len() == count_below(n, p),
    decreases n,
{
    if n > 0 {
        lemma_collect_len(n - 1, p, f);
    }
}

/// Every collected value comes from a position that satisfies the predicate.
pub proof fn lemma_collect_source<T>(
    n: int,
    p: spec_fn(int) -> bool,
    f: spec_fn(int) -> T,
    j: int,
) -> (k: int)
    requires
        0 <= j < collect_below(n, p, f).len(),
    ensures
        0 <= k < n,
        p(k),
        collect_below(n, p, f)[j] == f(k),
    decreases n,
{
    if p(n - 1) && j == collect_below(n - 1, p, f).len() {
        n - 1
    } else {
        lemma_collect_source(n - 1, p, f, j)
    }
}

/// Every position that satisfies the predicate has its value collected.
pub proof fn lemma_collect_holds<T>(
    n: int,
    p: spec_fn(int) -> bool,
    f: spec_fn(int) -> T,
    k: int,
) -> (j: int)
    requires
        0 <= k < n,
        p(k),
    ensures
        0 <= j < collect_below(n, p, f).len(),
        collect_below(n, p, f)[j] == f(k),
    decreases n,
{
    if k == n - 1 {
        collect_below(n - 1, p, f).len() as int
    } else {
        lemma_collect_holds(n - 1, p, f, k)
    }
}

/// Three predicates of which exactly one holds at every position share the
/// positions among them.
pub proof fn lemma_count_partition(
    n: int,
    p: spec_fn(int) -> bool,
    q: spec_fn(int) -> bool,
    r: spec_fn(int) -> bool,
)
    requires
        0 <= n,
        forall|k: int|
            0 <= k < n ==> (#[trigger] p(k) || q(k) || r(k)) && !(p(k) && q(k)) && !(p(k) && r(k))
                && !(q(k) && r(k)),
    ensures
        count_below(n, p) + count_below(n, q) + count_below(n, r) == n,
    decreases n,
{
    if n > 0 {
        lemma_count_partition(n - 1, p, q, r);
    }
}

/// How many elements of a sequence satisfy a predicate.
pub open spec fn count_in<T>(s: Seq<T>, r: spec_fn(T) -> bool) -> nat {
    count_below(s.len() as int, |k: int| r(s[k]))
}

/// Counting in a concatenation adds the counts of its parts.
pub proof fn lemma_count_in_concat<T>(a: Seq<T>, b: Seq<T>, r: spec_fn(T) -> bool)
    ensures
        count_in(a + b, r) == count_in(a, r) + count_in(b, r),
    decreases b.len(),
{
    let ab = a + b;
    if b.len() > 0 {
        let front = b.drop_last();
        lemma_count_in_concat(a, front, r);
        assert(a + front =~= ab.drop_last());
        lemma_count_in_push(ab.drop_last(), ab.last(), r);
        lemma_count_in_push(front, b.last(), r);
        assert(front.push(b.last()) =~= b);
    }
}

/// Counting after a push adds the pushed element if it satisfies the
/// predicate.
pub proof fn lemma_count_in_push<T>(s: Seq<T>, x: T, r: spec_fn(T) -> bool)
    ensures
        count_in(s.push(x), r) == count_in(s, r) + if r(x) {
            1nat
        } else {
            0nat
        },
{
    let t = s.push(x);
    lemma_count_agree(s.len() as int, |k: int| r(s[k]), |k: int| r(t[k]));
}

/// Counting among collected values is counting the positions whose value
/// satisfies the predicate.
pub proof fn lemma_count_in_collect<T>(
    n: int,
    p: spec_fn(int) -> bool,
    f: spec_fn(int) -> T,
    r: spec_fn(T) -> bool,
)
    ensures
        count_in(collect_below(n, p, f), r) == count_below(n, |k: int| p(k) && r(f(k))),
    decreases n,
{
    if n > 0 {
        lemma_count_in_collect(n - 1, p, f, r);
        if p(n - 1) {
            lemma_count_in_push(collect_below(n - 1, p, f), f(n - 1), r);
        }
    }
}

} // verus!
