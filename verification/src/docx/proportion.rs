//! What is shared out by weight is shared out in proportion.

use crate::docx::allocate::{
    allocated, excess, nearest, quotient, rank_in, ranking, rounded, share, shares, shift, topped_up,
    total_of, two, whole_parts,
};
use vstd::prelude::*;

verus! {

proof fn lemma_two_positive(k: nat)
    ensures
        two(k) >= 1,
    decreases k,
{
    if k > 0 {
        lemma_two_positive((k - 1) as nat);
    }
}

proof fn lemma_nearest(a: nat, b: nat)
    requires
        b > 0,
    ensures
        2 * (nearest(a, b) * b) <= 2 * a + b,
        2 * (nearest(a, b) * b) + b >= 2 * a,
{
    let q = a / b;
    let r = a % b;
    assert(q * b + r == a && 0 <= r < b) by (nonlinear_arith)
        requires
            q == a / b,
            r == a % b,
            b > 0,
    ;
    assert((q + 1) * b == q * b + b) by (nonlinear_arith);
}

/// A share, as far as it is whole, is no more than half a part above what its weight says, and less
/// than one part below it.
proof fn lemma_share(total: nat, weight: nat, sum: nat)
    requires
        total * weight < 0x20_0000_0000_0000,
        sum > 0,
    ensures
        2 * (share(total, weight, sum).0 * sum) <= 2 * (total * weight) + sum,
        share(total, weight, sum).0 * sum + sum > total * weight,
{
    let p = total * weight;
    assert(excess(p) == 0);
    assert(two(0) == 1);
    assert(nearest(p, 1) == p);
    assert(rounded(p) == p) by {
        assert(p * 1 == p);
    }
    let u = two(shift(p, sum));
    lemma_two_positive(shift(p, sum));
    let q = quotient(p, sum);
    lemma_nearest(p * u, sum);
    let f = q / u;
    let r = q % u;
    assert(f * u + r == q && 0 <= r < u) by (nonlinear_arith)
        requires
            f == q / u,
            r == q % u,
            u > 0,
    ;
    let whole = f * sum;
    assert(2 * (q * sum) <= 2 * (p * u) + sum);
    assert(2 * (q * sum) + sum >= 2 * (p * u));
    assert(q * sum == whole * u + r * sum) by (nonlinear_arith)
        requires
            f * u + r == q,
            whole == f * sum,
    ;
    assert(0 <= r * sum && r * sum + sum <= u * sum) by (nonlinear_arith)
        requires
            0 <= r < u,
            sum > 0,
    ;
    assert(2 * whole <= 2 * p + sum) by (nonlinear_arith)
        requires
            2 * (whole * u) <= 2 * (p * u) + sum,
            u >= 1,
            sum > 0,
    ;
    assert(whole + sum > p) by (nonlinear_arith)
        requires
            2 * (whole * u) + 2 * (u * sum) - 2 * sum + sum >= 2 * (p * u),
            u >= 1,
            sum > 0,
    ;
}

proof fn lemma_rank_in(s: Seq<(nat, nat)>, order: Seq<int>, i: int)
    requires
        order.no_duplicates(),
        !order.contains(i),
    ensures
        rank_in(s, order, i).no_duplicates(),
        rank_in(s, order, i).len() == order.len() + 1,
        forall|x: int| #[trigger]
            rank_in(s, order, i).contains(x) <==> x == i || order.contains(x),
    decreases order.len(),
{
    let r = rank_in(s, order, i);
    if order.len() == 0 || s[order.last()].1 >= s[i].1 {
        assert(r == order.push(i));
        assert forall|x: int| #[trigger] r.contains(x) <==> x == i || order.contains(x) by {
            if x == i {
                assert(r[order.len() as int] == i);
            }
            if order.contains(x) {
                let k = order.index_of(x);
                assert(r[k] == x);
            }
        }
    } else {
        let front = order.drop_last();
        let z = order.last();
        assert(forall|k: int| 0 <= k < front.len() ==> #[trigger] front[k] == order[k]);
        assert(!front.contains(i)) by {
            if front.contains(i) {
                let k = front.index_of(i);
                assert(order[k] == i);
            }
        }
        assert(!front.contains(z)) by {
            if front.contains(z) {
                let k = front.index_of(z);
                assert(order[k] == order[order.len() - 1]);
            }
        }
        assert(order[order.len() - 1] == z);
        lemma_rank_in(s, front, i);
        let t = rank_in(s, front, i);
        assert(r == t.push(z));
        assert(!t.contains(z));
        assert forall|x: int| #[trigger] r.contains(x) <==> x == i || order.contains(x) by {
            if r.contains(x) {
                let k = r.index_of(x);
                if k < t.len() {
                    assert(t[k] == x);
                    assert(t.contains(x));
                    if front.contains(x) {
                        let l = front.index_of(x);
                        assert(order[l] == x);
                    }
                }
            }
            if x == i || order.contains(x) {
                if x == z {
                    assert(r[t.len() as int] == z);
                } else {
                    if x != i {
                        let l = order.index_of(x);
                        assert(front[l] == x);
                    }
                    assert(t.contains(x));
                    let k = t.index_of(x);
                    assert(r[k] == x);
                }
            }
        }
    }
}

proof fn lemma_ranking(s: Seq<(nat, nat)>, n: nat)
    ensures
        ranking(s, n).no_duplicates(),
        ranking(s, n).len() == n,
        forall|x: int| #[trigger] ranking(s, n).contains(x) <==> 0 <= x < n,
    decreases n,
{
    if n > 0 {
        lemma_ranking(s, (n - 1) as nat);
        lemma_rank_in(s, ranking(s, (n - 1) as nat), n - 1);
    }
}

/// What is left over goes to places of the ranking, no more than one to each where it goes round once.
proof fn lemma_topped_at(counts: Seq<nat>, order: Seq<int>, k: nat, n: nat, i: int)
    requires
        order.no_duplicates(),
        k + n <= order.len(),
        forall|j: int| 0 <= j < order.len() ==> 0 <= #[trigger] order[j] < counts.len(),
        0 <= i < counts.len(),
    ensures
        topped_up(counts, order, k, n).len() == counts.len(),
        counts[i] <= topped_up(counts, order, k, n)[i] <= counts[i] + 1,
        (forall|j: int| k <= j < k + n ==> #[trigger] order[j] != i) ==> topped_up(
            counts,
            order,
            k,
            n,
        )[i] == counts[i],
    decreases n,
{
    if n > 0 {
        assert(k % order.len() == k) by (nonlinear_arith)
            requires
                0 <= k < order.len(),
        ;
        let at = order[k as int];
        let more = counts.update(at, counts[at] + 1);
        lemma_topped_at(more, order, k + 1, (n - 1) as nat, i);
        if at == i {
            assert forall|j: int| k + 1 <= j < k + n implies #[trigger] order[j] != i by {
                assert(order[j] != order[k as int]);
            }
        }
    }
}

proof fn lemma_whole_total(total: nat, weights: Seq<nat>, sum: nat, n: int)
    requires
        0 <= n <= weights.len(),
        sum > 0,
        forall|i: int| 0 <= i < weights.len() ==> total * #[trigger] weights[i] < 0x20_0000_0000_0000,
    ensures
        ({
            let whole = Seq::new(n as nat, |i: int| share(total, weights[i], sum).0);
            total_of(whole) * sum + n * sum >= total * total_of(weights.take(n)) && (n > 0
                ==> total_of(whole) * sum + n * sum > total * total_of(weights.take(n)))
        }),
    decreases n,
{
    let whole = Seq::new(n as nat, |i: int| share(total, weights[i], sum).0);
    if n > 0 {
        lemma_whole_total(total, weights, sum, n - 1);
        let less = Seq::new((n - 1) as nat, |i: int| share(total, weights[i], sum).0);
        assert(whole.drop_last() =~= less);
        assert(weights.take(n).drop_last() =~= weights.take(n - 1));
        let f = share(total, weights[n - 1], sum).0;
        let w = weights[n - 1];
        assert(total * w < 0x20_0000_0000_0000);
        lemma_share(total, w, sum);
        let a = total_of(less);
        let b = total_of(weights.take(n - 1));
        assert(total_of(whole) == a + f);
        assert(total_of(weights.take(n)) == b + w);
        assert((a + f) * sum == a * sum + f * sum) by (nonlinear_arith);
        assert(total * (b + w) == total * b + total * w) by (nonlinear_arith);
        assert(n * sum == (n - 1) * sum + sum) by (nonlinear_arith);
    } else {
        assert(weights.take(0) =~= Seq::<nat>::empty());
        assert(total * 0 == 0);
        assert(0 * sum == 0);
    }
}

/// What is shared out by weight is shared out in proportion: every share is less than one part below
/// what its weight says, and no more than one part and a half above it. That goes for products of the
/// total and a weight that a floating-point number of 53 bits can tell.
pub proof fn law_shares_are_in_proportion(total: nat, weights: Seq<nat>, i: int)
    requires
        0 <= i < weights.len(),
        total > 0,
        total_of(weights) > 0,
        forall|k: int| 0 <= k < weights.len() ==> total * #[trigger] weights[k] < 0x20_0000_0000_0000,
    ensures
        allocated(total, weights)[i] * total_of(weights) + total_of(weights) > total * weights[i],
        2 * (allocated(total, weights)[i] * total_of(weights)) <= 2 * (total * weights[i]) + 3
            * total_of(weights),
{
    let sum = total_of(weights);
    let s = shares(total, weights);
    let whole = whole_parts(s);
    let n = weights.len() as int;
    assert(total * weights[i] < 0x20_0000_0000_0000);
    lemma_share(total, weights[i], sum);
    assert(whole =~= Seq::new(n as nat, |k: int| share(total, weights[k], sum).0));
    lemma_whole_total(total, weights, sum, n);
    assert(weights.take(n) =~= weights);
    let left = if total >= total_of(whole) {
        (total - total_of(whole)) as nat
    } else {
        0
    };
    let t = total_of(whole);
    assert(left <= n) by {
        if total >= t {
            assert(total < t + n) by (nonlinear_arith)
                requires
                    t * sum + n * sum > total * sum,
                    sum > 0,
            ;
        }
    }
    lemma_ranking(s, s.len());
    let order = ranking(s, s.len());
    assert forall|j: int| 0 <= j < order.len() implies 0 <= #[trigger] order[j] < whole.len() by {
        assert(order.contains(order[j]));
    }
    lemma_topped_at(whole, order, 0, left, i);
    let a = allocated(total, weights)[i];
    let f = whole[i];
    assert(a * sum >= f * sum && a * sum <= f * sum + sum) by (nonlinear_arith)
        requires
            f <= a <= f + 1,
            sum > 0,
    ;
}

} // verus!
