//! Facts about sums of sequences that the proofs about squares rest on.

use crate::square::sum_of;
use vstd::arithmetic::mul::{lemma_mul_basics, lemma_mul_is_distributive_add};
use vstd::prelude::*;

verus! {

/// The sum of a prefix that is one longer adds the next item.
pub proof fn lemma_sum_of_take_next(s: Seq<int>, k: int)
    requires
        0 <= k < s.len(),
    ensures
        sum_of(s.take(k + 1)) == sum_of(s.take(k)) + s[k],
{
    assert(s.take(k + 1).drop_last() =~= s.take(k));
}

/// Taking an item out lowers the sum by that item.
pub proof fn lemma_sum_of_remove(s: Seq<int>, p: int)
    requires
        0 <= p < s.len(),
    ensures
        sum_of(s) == sum_of(s.remove(p)) + s[p],
    decreases s.len(),
{
    if p == s.len() - 1 {
        assert(s.remove(p) =~= s.drop_last());
    } else {
        lemma_sum_of_remove(s.drop_last(), p);
        assert(s.remove(p).drop_last() =~= s.drop_last().remove(p));
        assert(s.remove(p).last() == s.last());
    }
}

/// The sum of a concatenation is the sum of the sums.
pub proof fn lemma_sum_of_concat(s: Seq<int>, t: Seq<int>)
    ensures
        sum_of(s + t) == sum_of(s) + sum_of(t),
    decreases t.len(),
{
    if t.len() == 0 {
        assert(s + t =~= s);
    } else {
        lemma_sum_of_concat(s, t.drop_last());
        assert((s + t).drop_last() =~= s + t.drop_last());
    }
}

/// Where every item of `u` is `a` times the item of `s` plus `b` times the
/// item of `t` plus `c`, the sum of `u` is built from the sums of `s` and `t`
/// in the same way, with `c` counted once for each item.
pub proof fn lemma_sum_of_combination(u: Seq<int>, a: int, s: Seq<int>, b: int, t: Seq<int>, c: int)
    requires
        s.len() == u.len(),
        t.len() == u.len(),
        forall|i: int| 0 <= i < u.len() ==> #[trigger] u[i] == a * s[i] + b * t[i] + c,
    ensures
        sum_of(u) == a * sum_of(s) + b * sum_of(t) + c * u.len(),
    decreases u.len(),
{
    if u.len() > 0 {
        let k: int = u.len() - 1;
        lemma_sum_of_combination(u.drop_last(), a, s.drop_last(), b, t.drop_last(), c);
        assert(u[k] == a * s[k] + b * t[k] + c);
        let s0 = sum_of(s.drop_last());
        let t0 = sum_of(t.drop_last());
        assert(sum_of(s) == s0 + s[k]);
        assert(sum_of(t) == t0 + t[k]);
        assert(sum_of(u) == a * s0 + b * t0 + c * k + u[k]);
        lemma_mul_is_distributive_add(a, s0, s[k]);
        lemma_mul_is_distributive_add(b, t0, t[k]);
        lemma_mul_is_distributive_add(c, k, 1);
        assert(c * (k + 1) == c * k + c);
    } else {
        assert(sum_of(s) == 0);
        assert(sum_of(t) == 0);
        lemma_mul_basics(a);
        lemma_mul_basics(b);
        lemma_mul_basics(c);
    }
}

/// Where every item of `u` is `a` times the item of `s` plus `c`, the sum of
/// `u` is `a` times the sum of `s` plus `c` for each item.
pub proof fn lemma_sum_of_scaled(u: Seq<int>, a: int, s: Seq<int>, c: int)
    requires
        s.len() == u.len(),
        forall|i: int| 0 <= i < u.len() ==> #[trigger] u[i] == a * s[i] + c,
    ensures
        sum_of(u) == a * sum_of(s) + c * u.len(),
{
    lemma_sum_of_combination(u, a, s, 0, s, c);
}

/// The sum of a sequence whose items all equal `c`.
pub proof fn lemma_sum_of_constant(u: Seq<int>, c: int)
    requires
        forall|i: int| 0 <= i < u.len() ==> #[trigger] u[i] == c,
    ensures
        sum_of(u) == c * u.len(),
{
    lemma_sum_of_combination(u, 0, u, 0, u, c);
}

/// Twice the sum of `0, 1, .., n - 1` is `n * (n - 1)`.
pub proof fn lemma_sum_of_indices(u: Seq<int>)
    requires
        forall|i: int| 0 <= i < u.len() ==> #[trigger] u[i] == i,
    ensures
        2 * sum_of(u) == u.len() * (u.len() - 1),
    decreases u.len(),
{
    if u.len() > 0 {
        let k: int = u.len() - 1;
        lemma_sum_of_indices(u.drop_last());
        assert(u[k] == k);
        assert(k * (k - 1) + 2 * k == (k + 1) * k) by (nonlinear_arith);
    }
}

/// Where `s` lists the positions of `t` in some order, each once, reading
/// `t` through `s` gives the same sum as reading it in order.
pub proof fn lemma_sum_of_rearranged(u: Seq<int>, s: Seq<int>, t: Seq<int>)
    requires
        s.len() == t.len(),
        u.len() == t.len(),
        forall|i: int| 0 <= i < s.len() ==> 0 <= #[trigger] s[i] < t.len(),
        forall|i: int, j: int| 0 <= i < j < s.len() ==> s[i] != s[j],
        forall|i: int| 0 <= i < u.len() ==> #[trigger] u[i] == t[s[i]],
    ensures
        sum_of(u) == sum_of(t),
    decreases u.len(),
{
    if u.len() > 0 {
        let k: int = u.len() - 1;
        let v: int = s[k];
        // Without the last position of `s` and the item of `t` it points at,
        // the positions after `v` move down by one.
        let s1: Seq<int> = Seq::new(k as nat, |i: int| if s[i] > v { s[i] - 1 } else { s[i] });
        let t1: Seq<int> = t.remove(v);
        let u1: Seq<int> = u.drop_last();
        assert forall|i: int| 0 <= i < s1.len() implies 0 <= #[trigger] s1[i] < t1.len() by {
            assert(s[i] != s[k]);
        }
        assert forall|i: int, j: int| 0 <= i < j < s1.len() implies s1[i] != s1[j] by {
            assert(s[i] != s[j]);
            assert(s[i] != s[k]);
            assert(s[j] != s[k]);
        }
        assert forall|i: int| 0 <= i < u1.len() implies #[trigger] u1[i] == t1[s1[i]] by {
            assert(s[i] != s[k]);
            assert(u[i] == t[s[i]]);
        }
        lemma_sum_of_rearranged(u1, s1, t1);
        lemma_sum_of_remove(t, v);
        assert(u[k] == t[s[k]]);
    }
}

/// Where `s` holds each of `0, 1, .., n - 1` once, twice its sum is `n * (n - 1)`.
pub proof fn lemma_sum_of_arrangement(s: Seq<int>)
    requires
        forall|i: int| 0 <= i < s.len() ==> 0 <= #[trigger] s[i] < s.len(),
        forall|i: int, j: int| 0 <= i < j < s.len() ==> s[i] != s[j],
    ensures
        2 * sum_of(s) == s.len() * (s.len() - 1),
{
    let t: Seq<int> = Seq::new(s.len(), |i: int| i);
    lemma_sum_of_rearranged(s, s, t);
    lemma_sum_of_indices(t);
}

/// The sum of a sequence is the sum of the sums of its pairs of neighbours.
pub proof fn lemma_sum_of_pairs(s: Seq<int>, u: Seq<int>)
    requires
        s.len() == 2 * u.len(),
        forall|i: int| 0 <= i < u.len() ==> #[trigger] u[i] == s[2 * i] + s[2 * i + 1],
    ensures
        sum_of(s) == sum_of(u),
    decreases u.len(),
{
    if u.len() > 0 {
        let k: int = u.len() - 1;
        let s1: Seq<int> = s.drop_last().drop_last();
        assert forall|i: int| 0 <= i < k implies #[trigger] u.drop_last()[i] == s1[2 * i] + s1[2
            * i + 1] by {
            assert(u[i] == s[2 * i] + s[2 * i + 1]);
        }
        lemma_sum_of_pairs(s1, u.drop_last());
        assert(u[k] == s[2 * k] + s[2 * k + 1]);
        assert(sum_of(s) == sum_of(s.drop_last()) + s[2 * k + 1]);
        assert(sum_of(s.drop_last()) == sum_of(s1) + s[2 * k]);
    }
}

/// The sum of a sequence is the sum of the sums of its groups of four neighbours.
pub proof fn lemma_sum_of_fours(s: Seq<int>, u: Seq<int>)
    requires
        s.len() == 4 * u.len(),
        forall|i: int|
            0 <= i < u.len() ==> #[trigger] u[i] == s[4 * i] + s[4 * i + 1] + s[4 * i + 2] + s[4
                * i + 3],
    ensures
        sum_of(s) == sum_of(u),
{
    let pairs: Seq<int> = Seq::new(2 * u.len(), |i: int| s[2 * i] + s[2 * i + 1]);
    lemma_sum_of_pairs(s, pairs);
    assert forall|i: int| 0 <= i < u.len() implies #[trigger] u[i] == pairs[2 * i] + pairs[2 * i
        + 1] by {
        assert(u[i] == s[4 * i] + s[4 * i + 1] + s[4 * i + 2] + s[4 * i + 3]);
    }
    lemma_sum_of_pairs(pairs, u);
}

} // verus!
