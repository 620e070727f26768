//! What the generated combinations are, and how many of them there are.

use crate::setidx::{
    combinations, combinations_from, depths, generated, increasing_within, lex_less,
    lists_combinations,
};
use vstd::arithmetic::power2::{lemma2_to64, lemma_pow2_unfold, pow2};
use vstd::prelude::*;

verus! {

/// The number of ways to pick `k` out of `n`, by Pascal's rule.
pub open spec fn binomial(n: nat, k: nat) -> nat
    decreases n,
{
    if k == 0 {
        1
    } else if n == 0 {
        0
    } else {
        binomial((n - 1) as nat, (k - 1) as nat) + binomial((n - 1) as nat, k)
    }
}

/// The sum of `binomial(n, d)` over the depths `d` from `lo` up to and
/// including `hi`.
pub open spec fn binomial_sum(n: nat, lo: nat, hi: nat) -> nat
    decreases hi + 1 - lo,
{
    if lo > hi {
        0
    } else {
        binomial(n, lo) + binomial_sum(n, lo + 1, hi)
    }
}

/// There are `binomial(n - lo, k)` combinations of `k` indices from `lo..n`.
pub proof fn lemma_count_from(lo: nat, n: nat, k: nat)
    requires
        lo <= n,
    ensures
        combinations_from(lo, n, k).len() == binomial((n - lo) as nat, k),
    decreases n - lo,
{
    if k > 0 && lo < n {
        lemma_count_from(lo + 1, n, (k - 1) as nat);
        lemma_count_from(lo + 1, n, k);
    }
}

/// There is no way to pick more indices than `lo..n` holds.
pub proof fn lemma_too_deep(lo: nat, n: nat, k: nat)
    requires
        lo <= n,
        k > n - lo,
    ensures
        combinations_from(lo, n, k).len() == 0,
    decreases n - lo,
{
    if lo < n {
        lemma_too_deep(lo + 1, n, (k - 1) as nat);
        lemma_too_deep(lo + 1, n, k);
    }
}

/// There are `binomial(n, k)` combinations of `k` out of `n` sources.
pub proof fn lemma_count(n: nat, k: nat)
    ensures
        combinations(n, k).len() == binomial(n, k),
{
    lemma_count_from(0, n, k);
}

/// Every combination of `k` indices from `lo..n` has `k` indices, strictly
/// increasing, all taken from `lo..n`.
pub proof fn lemma_shape_from(lo: nat, n: nat, k: nat, i: int)
    requires
        lo <= n <= usize::MAX,
        0 <= i < combinations_from(lo, n, k).len(),
    ensures
        combinations_from(lo, n, k)[i].len() == k,
        increasing_within(combinations_from(lo, n, k)[i], lo, n),
    decreases n - lo,
{
    if k > 0 && lo < n {
        let with = combinations_from(lo + 1, n, (k - 1) as nat);
        let without = combinations_from(lo + 1, n, k);
        if i < with.len() {
            lemma_shape_from(lo + 1, n, (k - 1) as nat, i);
            let c = seq![lo as usize] + with[i];
            assert(combinations_from(lo, n, k)[i] == c);
            assert forall|a: int, b: int| 0 <= a < b < c.len() implies c[a] < c[b] by {
                if a > 0 {
                    assert(c[a] == with[i][a - 1]);
                }
                assert(c[b] == with[i][b - 1]);
            }
            assert forall|a: int| 0 <= a < c.len() implies lo <= #[trigger] c[a] < n by {
                if a > 0 {
                    assert(c[a] == with[i][a - 1]);
                }
            }
        } else {
            lemma_shape_from(lo + 1, n, k, i - with.len());
            assert(combinations_from(lo, n, k)[i] == without[i - with.len()]);
        }
    }
}

/// Every strictly increasing sequence of `k` indices from `lo..n` is among
/// the combinations of `k` indices from `lo..n`.
pub proof fn lemma_complete_from(lo: nat, n: nat, k: nat, c: Seq<usize>)
    requires
        lo <= n <= usize::MAX,
        c.len() == k,
        increasing_within(c, lo, n),
    ensures
        combinations_from(lo, n, k).contains(c),
    decreases n - lo,
{
    if k == 0 {
        assert(c =~= Seq::<usize>::empty());
        assert(combinations_from(lo, n, k)[0] == c);
    } else {
        assert(lo <= c[0] < n);
        let with = combinations_from(lo + 1, n, (k - 1) as nat);
        let without = combinations_from(lo + 1, n, k);
        if c[0] == lo {
            let rest = c.drop_first();
            assert forall|a: int| 0 <= a < rest.len() implies lo + 1 <= #[trigger] rest[a]
                < n by {
                assert(rest[a] == c[a + 1]);
                assert(c[0] < c[a + 1]);
            }
            assert forall|a: int, b: int| 0 <= a < b < rest.len() implies rest[a] < rest[b] by {
                assert(rest[a] == c[a + 1]);
                assert(rest[b] == c[b + 1]);
            }
            lemma_complete_from(lo + 1, n, (k - 1) as nat, rest);
            let j = choose|j: int| 0 <= j < with.len() && with[j] == rest;
            assert(seq![lo as usize] + rest =~= c);
            assert(combinations_from(lo, n, k)[j] == c);
        } else {
            assert forall|a: int| 0 <= a < c.len() implies lo + 1 <= #[trigger] c[a] < n by {
                if a > 0 {
                    assert(c[0] < c[a]);
                }
            }
            lemma_complete_from(lo + 1, n, k, c);
            let j = choose|j: int| 0 <= j < without.len() && without[j] == c;
            assert(combinations_from(lo, n, k)[with.len() + j] == c);
        }
    }
}

/// The combinations of `k` indices from `lo..n` come in strictly increasing
/// lexicographic order.
pub proof fn lemma_sorted_from(lo: nat, n: nat, k: nat, i: int, j: int)
    requires
        lo <= n <= usize::MAX,
        0 <= i < j < combinations_from(lo, n, k).len(),
    ensures
        lex_less(combinations_from(lo, n, k)[i], combinations_from(lo, n, k)[j]),
    decreases n - lo,
{
    if k > 0 && lo < n {
        let with = combinations_from(lo + 1, n, (k - 1) as nat);
        let without = combinations_from(lo + 1, n, k);
        let all = combinations_from(lo, n, k);
        let head = seq![lo as usize];
        if j < with.len() {
            lemma_sorted_from(lo + 1, n, (k - 1) as nat, i, j);
            let a = with[i];
            let b = with[j];
            let p = choose|p: int|
                0 <= p <= a.len() && p <= b.len() && #[trigger] a.take(p) == b.take(p) && (if p
                    < a.len() {
                    p < b.len() && a[p] < b[p]
                } else {
                    p < b.len()
                });
            assert(all[i] == head + a);
            assert(all[j] == head + b);
            assert((head + a).take(p + 1) =~= head + a.take(p));
            assert((head + b).take(p + 1) =~= head + b.take(p));
            if p < a.len() {
                assert((head + a)[p + 1] == a[p]);
            }
            assert((head + b)[p + 1] == b[p]);
        } else if i >= with.len() {
            lemma_sorted_from(lo + 1, n, k, i - with.len(), j - with.len());
            assert(all[i] == without[i - with.len()]);
            assert(all[j] == without[j - with.len()]);
        } else {
            lemma_shape_from(lo + 1, n, (k - 1) as nat, i);
            lemma_shape_from(lo + 1, n, k, j - with.len());
            let a = all[i];
            let b = all[j];
            assert(a == head + with[i]);
            assert(b == without[j - with.len()]);
            assert(a[0] == lo);
            assert(lo + 1 <= b[0]);
            assert(a.take(0) =~= b.take(0));
        }
    }
}


/// `a` is produced before `b`: it is shallower, or as deep and earlier in
/// lexicographic order.
pub open spec fn comes_before(a: Seq<usize>, b: Seq<usize>) -> bool {
    a.len() < b.len() || (a.len() == b.len() && lex_less(a, b))
}

/// There is no way to pick more than there is.
pub proof fn lemma_binomial_beyond(n: nat, k: nat)
    requires
        k > n,
    ensures
        binomial(n, k) == 0,
    decreases n,
{
    if n > 0 {
        lemma_binomial_beyond((n - 1) as nat, (k - 1) as nat);
        lemma_binomial_beyond((n - 1) as nat, k);
    }
}

/// A sum over depths, with its last term taken out.
pub proof fn lemma_sum_last(n: nat, lo: nat, hi: nat)
    requires
        lo <= hi + 1,
    ensures
        binomial_sum(n, lo, hi + 1) == binomial_sum(n, lo, hi) + binomial(n, hi + 1),
    decreases hi + 1 - lo,
{
    if lo <= hi {
        lemma_sum_last(n, lo + 1, hi);
    } else {
        assert(binomial_sum(n, lo + 1, hi + 1) == 0);
    }
}

/// Pascal's rule, summed over a range of depths.
pub proof fn lemma_sum_pascal(n: nat, lo: nat, hi: nat)
    requires
        n >= 1,
        lo >= 1,
        hi >= 1,
    ensures
        binomial_sum(n, lo, hi) == binomial_sum((n - 1) as nat, (lo - 1) as nat, (hi - 1) as nat)
            + binomial_sum((n - 1) as nat, lo, hi),
    decreases hi + 1 - lo,
{
    if lo <= hi {
        lemma_sum_pascal(n, lo + 1, hi);
    }
}

/// The binomial coefficients of `n` add up to `2^n`.
pub proof fn lemma_row_sum(n: nat)
    ensures
        binomial_sum(n, 0, n) == pow2(n),
    decreases n,
{
    if n == 0 {
        lemma2_to64();
        assert(binomial_sum(0, 1, 0) == 0);
    } else {
        let m = (n - 1) as nat;
        lemma_row_sum(m);
        lemma_sum_pascal(n, 1, n);
        lemma_sum_last(m, 1, m);
        lemma_binomial_beyond(m, n);
        lemma_pow2_unfold(n);
        assert(binomial_sum(m, 0, m) == binomial(m, 0) + binomial_sum(m, 1, m));
        assert(binomial_sum(n, 0, n) == binomial(n, 0) + binomial_sum(n, 1, n));
    }
}

/// The number of combinations whose depth lies between `lo` and `hi` is the
/// sum of `binomial(n, d)` over those depths.
pub proof fn lemma_depths_len(n: nat, lo: nat, hi: nat)
    ensures
        depths(n, lo, hi).len() == binomial_sum(n, lo, hi),
    decreases hi + 1 - lo,
{
    if lo <= hi {
        lemma_count(n, lo);
        lemma_depths_len(n, lo + 1, hi);
    }
}

/// Each combination whose depth lies between `lo` and `hi` has at least `lo`
/// and at most `hi` indices, strictly increasing and all below `n`.
pub proof fn lemma_depths_shape(n: nat, lo: nat, hi: nat, i: int)
    requires
        n <= usize::MAX,
        0 <= i < depths(n, lo, hi).len(),
    ensures
        lo <= depths(n, lo, hi)[i].len() <= hi,
        increasing_within(depths(n, lo, hi)[i], 0, n),
    decreases hi + 1 - lo,
{
    if lo <= hi {
        let first = combinations(n, lo);
        if i < first.len() {
            lemma_shape_from(0, n, lo, i);
        } else {
            lemma_depths_shape(n, lo + 1, hi, i - first.len());
            assert(depths(n, lo, hi)[i] == depths(n, lo + 1, hi)[i - first.len()]);
        }
    }
}

/// Combinations are produced depth by depth, and within one depth in
/// lexicographic order.
pub proof fn lemma_depths_ordered(n: nat, lo: nat, hi: nat, i: int, j: int)
    requires
        n <= usize::MAX,
        0 <= i < j < depths(n, lo, hi).len(),
    ensures
        comes_before(depths(n, lo, hi)[i], depths(n, lo, hi)[j]),
    decreases hi + 1 - lo,
{
    if lo <= hi {
        let first = combinations(n, lo);
        let rest = depths(n, lo + 1, hi);
        if j < first.len() {
            lemma_shape_from(0, n, lo, i);
            lemma_shape_from(0, n, lo, j);
            lemma_sorted_from(0, n, lo, i, j);
        } else if i >= first.len() {
            lemma_depths_ordered(n, lo + 1, hi, i - first.len(), j - first.len());
            assert(depths(n, lo, hi)[i] == rest[i - first.len()]);
            assert(depths(n, lo, hi)[j] == rest[j - first.len()]);
        } else {
            lemma_shape_from(0, n, lo, i);
            lemma_depths_shape(n, lo + 1, hi, j - first.len());
            assert(depths(n, lo, hi)[j] == rest[j - first.len()]);
        }
    }
}

/// Nothing comes before itself.
pub proof fn lemma_comes_before_irreflexive(a: Seq<usize>)
    ensures
        !comes_before(a, a),
{
}

/// No combination is produced twice.
pub proof fn lemma_depths_distinct(n: nat, lo: nat, hi: nat)
    requires
        n <= usize::MAX,
    ensures
        depths(n, lo, hi).no_duplicates(),
{
    let s = depths(n, lo, hi);
    assert forall|i: int, j: int| 0 <= i < s.len() && 0 <= j < s.len() && i != j implies s[i]
        != s[j] by {
        if i < j {
            lemma_depths_ordered(n, lo, hi, i, j);
        } else {
            lemma_depths_ordered(n, lo, hi, j, i);
        }
        lemma_comes_before_irreflexive(s[i]);
    }
}

/// The number of combinations generated is the sum of `binomial(size, d)`
/// over the depths `d` of the effective range.
pub proof fn lemma_generated_len(size: usize, depth_begin: Option<usize>, depth_end: Option<usize>)
    ensures
        generated(size, depth_begin, depth_end).len() == binomial_sum(
            size as nat,
            crate::setidx::first_depth(depth_begin),
            crate::setidx::last_depth(size, depth_end),
        ),
{
    lemma_depths_len(
        size as nat,
        crate::setidx::first_depth(depth_begin),
        crate::setidx::last_depth(size, depth_end),
    );
}

/// Generating every depth from 1 to `n`, which is also what the defaults
/// stand for, yields `2^n - 1` combinations. Each of them is a non-empty,
/// strictly increasing sequence of indices below `n`, and no two are equal.
pub proof fn lemma_full_range(n: usize)
    ensures
        generated(n, None, None) == generated(n, Some(1), Some(n)),
        generated(n, Some(1), Some(n)).len() == pow2(n as nat) - 1,
        generated(n, Some(1), Some(n)).no_duplicates(),
        forall|i: int|
            0 <= i < generated(n, Some(1), Some(n)).len() ==> {
                let c = #[trigger] generated(n, Some(1), Some(n))[i];
                c.len() > 0 && increasing_within(c, 0, n as nat)
            },
{
    let all = generated(n, Some(1), Some(n));
    lemma_depths_len(n as nat, 1, n as nat);
    lemma_row_sum(n as nat);
    assert(binomial_sum(n as nat, 0, n as nat) == binomial(n as nat, 0) + binomial_sum(
        n as nat,
        1,
        n as nat,
    ));
    lemma_depths_distinct(n as nat, 1, n as nat);
    assert forall|i: int| 0 <= i < all.len() implies {
        let c = #[trigger] all[i];
        c.len() > 0 && increasing_within(c, 0, n as nat)
    } by {
        lemma_depths_shape(n as nat, 1, n as nat, i);
    }
}


/// The combinations of `k` out of `n` sources are the strictly increasing
/// sequences of `k` indices below `n`, each of them once, in lexicographic
/// order.
pub proof fn lemma_combinations_listed(n: nat, k: nat)
    requires
        n <= usize::MAX,
    ensures
        lists_combinations(combinations(n, k), n, k),
{
    let all = combinations(n, k);
    assert forall|i: int| 0 <= i < all.len() implies (#[trigger] all[i]).len() == k
        && increasing_within(all[i], 0, n) by {
        lemma_shape_from(0, n, k, i);
    }
    assert forall|c: Seq<usize>| c.len() == k && increasing_within(c, 0, n) implies all.contains(
        c,
    ) by {
        lemma_complete_from(0, n, k, c);
    }
    assert forall|i: int, j: int| 0 <= i < j < all.len() implies lex_less(all[i], all[j]) by {
        lemma_sorted_from(0, n, k, i, j);
    }
}

/// Of two sequences, at most one comes before the other.
pub proof fn lemma_lex_less_asymmetric(a: Seq<usize>, b: Seq<usize>)
    requires
        lex_less(a, b),
    ensures
        !lex_less(b, a),
{
    if lex_less(b, a) {
        let p = choose|p: int|
            0 <= p <= a.len() && p <= b.len() && #[trigger] a.take(p) == b.take(p) && (if p
                < a.len() {
                p < b.len() && a[p] < b[p]
            } else {
                p < b.len()
            });
        let q = choose|q: int|
            0 <= q <= b.len() && q <= a.len() && #[trigger] b.take(q) == a.take(q) && (if q
                < b.len() {
                q < a.len() && b[q] < a[q]
            } else {
                q < a.len()
            });
        if p < q {
            assert(b.take(q)[p] == a.take(q)[p]);
        } else if q < p {
            assert(a.take(p)[q] == b.take(p)[q]);
        }
    }
}

/// Two lists in strictly increasing lexicographic order that hold the same
/// sequences are the same list.
pub proof fn lemma_sorted_lists_equal(s: Seq<Seq<usize>>, t: Seq<Seq<usize>>)
    requires
        forall|i: int, j: int| 0 <= i < j < s.len() ==> lex_less(s[i], s[j]),
        forall|i: int, j: int| 0 <= i < j < t.len() ==> lex_less(t[i], t[j]),
        forall|c: Seq<usize>| s.contains(c) <==> t.contains(c),
    ensures
        s == t,
    decreases s.len(),
{
    if s.len() == 0 {
        if t.len() > 0 {
            assert(t.contains(t[0]));
        }
        assert(s =~= t);
    } else if t.len() == 0 {
        assert(s.contains(s[0]));
    } else {
        assert(s.contains(s[0]));
        assert(t.contains(t[0]));
        if s[0] != t[0] {
            let j = choose|j: int| 0 <= j < t.len() && t[j] == s[0];
            let i = choose|i: int| 0 <= i < s.len() && s[i] == t[0];
            assert(lex_less(t[0], t[j]));
            assert(lex_less(s[0], s[i]));
            lemma_lex_less_asymmetric(t[0], s[0]);
        }
        let s1 = s.drop_first();
        let t1 = t.drop_first();
        assert forall|c: Seq<usize>| s1.contains(c) <==> t1.contains(c) by {
            if s1.contains(c) {
                let i = choose|i: int| 0 <= i < s1.len() && s1[i] == c;
                assert(s[i + 1] == c);
                assert(s.contains(c));
                let j = choose|j: int| 0 <= j < t.len() && t[j] == c;
                assert(lex_less(s[0], s[i + 1]));
                assert(j != 0);
                assert(t1[j - 1] == c);
            }
            if t1.contains(c) {
                let j = choose|j: int| 0 <= j < t1.len() && t1[j] == c;
                assert(t[j + 1] == c);
                assert(t.contains(c));
                let i = choose|i: int| 0 <= i < s.len() && s[i] == c;
                assert(lex_less(t[0], t[j + 1]));
                assert(i != 0);
                assert(s1[i - 1] == c);
            }
        }
        assert forall|i: int, j: int| 0 <= i < j < s1.len() implies lex_less(s1[i], s1[j]) by {
            assert(lex_less(s[i + 1], s[j + 1]));
        }
        assert forall|i: int, j: int| 0 <= i < j < t1.len() implies lex_less(t1[i], t1[j]) by {
            assert(lex_less(t[i + 1], t[j + 1]));
        }
        lemma_sorted_lists_equal(s1, t1);
        assert(s =~= seq![s[0]] + s1);
        assert(t =~= seq![t[0]] + t1);
    }
}

/// There is one list of the combinations of `k` out of `n` sources.
pub proof fn lemma_combinations_unique(s: Seq<Seq<usize>>, n: nat, k: nat)
    requires
        n <= usize::MAX,
        lists_combinations(s, n, k),
    ensures
        s == combinations(n, k),
{
    let all = combinations(n, k);
    lemma_combinations_listed(n, k);
    assert forall|c: Seq<usize>| s.contains(c) <==> all.contains(c) by {
        if s.contains(c) {
            let i = choose|i: int| 0 <= i < s.len() && s[i] == c;
            assert(s[i].len() == k && increasing_within(s[i], 0, n));
        }
        if all.contains(c) {
            let i = choose|i: int| 0 <= i < all.len() && all[i] == c;
            assert(all[i].len() == k && increasing_within(all[i], 0, n));
        }
    }
    lemma_sorted_lists_equal(s, all);
}

} // verus!
