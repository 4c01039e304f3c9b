//! Sharing out a number of units by weight.
//!
//! A share is the total times a weight over the sum of the weights, computed in numbers of 53
//! binary digits: the product is rounded, then the quotient. What the whole parts leave over goes
//! to the largest fractional parts first.

use vstd::prelude::*;

verus! {

/// Two to the power of `k`.
pub open spec fn two(k: nat) -> nat
    decreases k,
{
    if k == 0 {
        1
    } else {
        2 * two((k - 1) as nat)
    }
}

/// The integer nearest to `a / b`; of two, the even one.
pub open spec fn nearest(a: nat, b: nat) -> nat {
    let q = a / b;
    let r = a % b;
    if 2 * r < b || (2 * r == b && q % 2 == 0) {
        q
    } else {
        q + 1
    }
}

/// The number of binary digits of `p` that are too many for a number of 53 digits.
pub open spec fn excess(p: nat) -> nat
    decreases p,
{
    if p < 0x20_0000_0000_0000 {
        0
    } else {
        1 + excess(p / 2)
    }
}

/// `p` rounded to 53 binary digits.
pub open spec fn rounded(p: nat) -> nat {
    nearest(p, two(excess(p))) * two(excess(p))
}

/// By how many binary digits `p` is to be shifted for `p / w` to have 53 of them before the point.
pub open spec fn shift(p: nat, w: nat) -> nat
    decreases
            if p < 0x10_0000_0000_0000 * w {
                0x10_0000_0000_0000 * w - p
            } else {
                0
            },
{
    if p == 0 || p >= 0x10_0000_0000_0000 * w {
        0
    } else {
        1 + shift(2 * p, w)
    }
}

/// `p / w`, which is less than 2^53, rounded to 53 binary digits, in units of 2^-`shift(p, w)`.
pub open spec fn quotient(p: nat, w: nat) -> nat {
    nearest(p * two(shift(p, w)), w)
}

/// A share: its whole part, and its fractional part in units of 2^-105.
pub open spec fn share(total: nat, weight: nat, sum: nat) -> (nat, nat) {
    let p = rounded(total * weight);
    let u = two(shift(p, sum));
    let q = quotient(p, sum);
    (q / u, (q % u) * two((105 - shift(p, sum)) as nat))
}

proof fn lemma_two(k: nat)
    ensures
        two(k) >= 1,
        two(k + 1) == 2 * two(k),
    decreases k,
{
    if k > 0 {
        lemma_two((k - 1) as nat);
    }
}

proof fn lemma_two_monotonic(a: nat, b: nat)
    requires
        a <= b,
    ensures
        two(a) <= two(b),
    decreases b,
{
    lemma_two(b);
    if a < b {
        lemma_two((b - 1) as nat);
        lemma_two_monotonic(a, (b - 1) as nat);
    }
}

proof fn lemma_two_values()
    ensures
        two(52) == 0x10_0000_0000_0000,
        two(53) == 0x20_0000_0000_0000,
        two(105) == 0x200_0000_0000_0000_0000_0000_0000,
        two(106) == 0x400_0000_0000_0000_0000_0000_0000,
{
    reveal_with_fuel(two, 60);
    assert(two(52) == 0x10_0000_0000_0000);
    lemma_two_step(52, 53);
}

proof fn lemma_two_step(a: nat, b: nat)
    ensures
        two(a + b) == two(a) * two(b),
    decreases b,
{
    if b > 0 {
        lemma_two_step(a, (b - 1) as nat);
        assert(two(a + b) == 2 * (two(a) * two((b - 1) as nat)));
        assert(2 * (two(a) * two((b - 1) as nat)) == two(a) * (2 * two((b - 1) as nat)))
            by (nonlinear_arith);
    } else {
        assert(two(a) * 1 == two(a));
    }
}

/// The integer nearest to `a / b`; of two, the even one.
fn nearest_of(a: u128, b: u128) -> (r: u128)
    requires
        0 < b < 0x8000_0000_0000_0000_0000_0000_0000_0000,
        a < 0x8000_0000_0000_0000_0000_0000_0000_0000,
    ensures
        r == nearest(a as nat, b as nat),
        r <= a / b + 1,
{
    let q: u128 = a / b;
    let r: u128 = a % b;
    proof {
        assert(q <= a) by (nonlinear_arith)
            requires
                q == a / b,
                b > 0,
        ;
    }
    if 2 * r < b || (2 * r == b && q % 2 == 0) {
        q
    } else {
        q + 1
    }
}

fn rounded_of(p: u128) -> (r: u128)
    requires
        p < 0x400_0000_0000_0000_0000_0000_0000,
    ensures
        r == rounded(p as nat),
        r <= 2 * p,
{
    let mut unit: u128 = 1;
    let mut x: u128 = p;
    let ghost mut k: nat = 0;
    proof {
        assert(p as nat / 1 == p);
    }
    while x >= 0x20_0000_0000_0000
        invariant
            x <= p,
            unit == two(k),
            k + excess(x as nat) == excess(p as nat),
            x * unit <= p,
            p < 0x400_0000_0000_0000_0000_0000_0000,
        decreases x,
    {
        proof {
            lemma_two(k);
            assert(2 * unit <= p && unit <= p / 2) by (nonlinear_arith)
                requires
                    x * unit <= p,
                    x >= 2,
                    unit >= 1,
            ;
            assert((x / 2) * (2 * unit) <= p) by (nonlinear_arith)
                requires
                    x * unit <= p,
            ;
        }
        x = x / 2;
        unit = unit * 2;
        proof {
            k = k + 1;
        }
    }
    proof {
        lemma_two(k);
        assert(k == excess(p as nat));
        assert(unit <= p || unit == 1) by {
            if k > 0 {
                lemma_excess_unit(p as nat);
            }
        }
        lemma_rounded_bound(p as nat, unit as nat);
    }
    let m: u128 = nearest_of(p, unit);
    proof {
        lemma_product_bound(p as nat, unit as nat, m as nat);
    }
    m * unit
}

proof fn lemma_excess_unit(p: nat)
    requires
        excess(p) > 0,
    ensures
        two(excess(p)) <= p,
    decreases p,
{
    lemma_two(excess((p / 2) as nat));
    if excess(p / 2) > 0 {
        lemma_excess_unit(p / 2);
        assert(two(excess(p)) == 2 * two(excess(p / 2)));
    } else {
        assert(excess(p) == 1);
        assert(two(1) == 2) by {
            reveal_with_fuel(two, 2);
        }
    }
}

proof fn lemma_rounded_bound(p: nat, unit: nat)
    requires
        unit > 0,
    ensures
        (p / unit) * unit <= p,
{
    assert((p / unit) * unit <= p) by (nonlinear_arith)
        requires
            unit > 0,
    ;
}

proof fn lemma_product_bound(p: nat, unit: nat, m: nat)
    requires
        unit > 0,
        m == nearest(p, unit),
        unit <= p || unit == 1,
    ensures
        m * unit <= 2 * p,
{
    if m == p / unit {
        lemma_rounded_bound(p, unit);
    } else {
        let q = p / unit;
        let r = p % unit;
        assert(q * unit + r == p) by (nonlinear_arith)
            requires
                q == p / unit,
                r == p % unit,
                unit > 0,
        ;
        assert((q + 1) * unit == q * unit + unit) by (nonlinear_arith);
        assert(2 * r >= unit);
        assert(r < unit);
        if unit > p {
            assert(unit == 1);
        }
    }
}

/// A share: its whole part, and its fractional part in units of 2^-105.
fn share_of(total: u64, weight: u64, sum: u64) -> (r: (u64, u128))
    requires
        total < 0x20_0000_0000_0000,
        weight <= sum < 0x20_0000_0000_0000,
        0 < sum,
    ensures
        r.0 == share(total as nat, weight as nat, sum as nat).0,
        r.1 == share(total as nat, weight as nat, sum as nat).1,
        r.0 <= 0x80_0000_0000_0000,
{
    proof {
        lemma_two_values();
        assert(total * weight <= 0x1f_ffff_ffff_ffff * 0x1f_ffff_ffff_ffff) by (nonlinear_arith)
            requires
                total <= 0x1f_ffff_ffff_ffff,
                weight <= 0x1f_ffff_ffff_ffff,
        ;
        assert(total * weight <= 0x1f_ffff_ffff_ffff * sum) by (nonlinear_arith)
            requires
                total <= 0x1f_ffff_ffff_ffff,
                weight <= sum,
        ;
    }
    let p: u128 = rounded_of(total as u128 * weight as u128);
    let limit: u128 = 0x10_0000_0000_0000 * sum as u128;
    let mut a: u128 = p;
    let mut unit: u128 = 1;
    let mut k: u64 = 0;
    let mut left: u128 = 0x200_0000_0000_0000_0000_0000_0000;
    assert(p * 1 == p);
    while a != 0 && a < limit
        invariant
            limit == 0x10_0000_0000_0000 * sum,
            0 < sum < 0x20_0000_0000_0000,
            k <= 105,
            unit == two(k as nat),
            left == two((105 - k) as nat),
            a == p * unit,
            a <= 4 * limit,
            p <= 4 * limit,
            k > 0 ==> a < 2 * limit,
            two(105) == 0x200_0000_0000_0000_0000_0000_0000,
            k + shift(a as nat, sum as nat) == shift(p as nat, sum as nat),
        decreases 2 * limit - a,
    {
        proof {
            lemma_two(k as nat);
            if k == 105 {
                assert(a >= two(105)) by (nonlinear_arith)
                    requires
                        a == p * unit,
                        a != 0,
                        unit == two(105),
                ;
                assert(limit < 0x200_0000_0000_0000_0000_0000_0000);
                assert(false);
            }
            lemma_two((105 - k - 1) as nat);
            lemma_two_monotonic((k + 1) as nat, 105);
            assert(p * (2 * unit) == 2 * (p * unit)) by (nonlinear_arith);
        }
        a = a * 2;
        unit = unit * 2;
        left = left / 2;
        k = k + 1;
    }
    proof {
        lemma_two(k as nat);
        lemma_two_monotonic(k as nat, 105);
        assert(a < 0x8000_0000_0000_0000_0000_0000_0000_0000);
        assert(a as nat / sum as nat <= 0x40_0000_0000_0000) by (nonlinear_arith)
            requires
                a <= 4 * (0x10_0000_0000_0000 * sum),
                sum > 0,
        ;
    }
    let q: u128 = nearest_of(a, sum as u128);
    proof {
        assert(q <= 0x40_0000_0000_0001);
        assert(q / unit <= q) by (nonlinear_arith)
            requires
                unit >= 1,
        ;
        lemma_fraction_bound(q as nat, k as nat);
        assert(shift(p as nat, sum as nat) == k);
    }
    ((q / unit) as u64, (q % unit) * left)
}

proof fn lemma_fraction_bound(q: nat, k: nat)
    requires
        k <= 105,
    ensures
        (q % two(k)) * two((105 - k) as nat) < two(105),
        q % two(k) <= q,
{
    lemma_two(k);
    lemma_two((105 - k) as nat);
    lemma_two_step(k, (105 - k) as nat);
    let u = two(k);
    let v = two((105 - k) as nat);
    let r = q % u;
    assert(r < u && r <= q) by (nonlinear_arith)
        requires
            r == q % u,
            u >= 1,
    ;
    assert(r * v < u * v) by (nonlinear_arith)
        requires
            r < u,
            v >= 1,
    ;
}


/// The sum of a sequence of numbers.
pub open spec fn total_of(s: Seq<nat>) -> nat
    decreases s.len(),
{
    if s.len() == 0 {
        0
    } else {
        total_of(s.drop_last()) + s.last()
    }
}

/// The shares of a total by weight.
pub open spec fn shares(total: nat, weights: Seq<nat>) -> Seq<(nat, nat)> {
    weights.map_values(|w: nat| share(total, w, total_of(weights)))
}

/// The whole parts of shares.
pub open spec fn whole_parts(s: Seq<(nat, nat)>) -> Seq<nat> {
    s.map_values(|x: (nat, nat)| x.0)
}

/// The places of the first `n` shares, the largest fractional part first, and of equal ones the
/// earlier first.
pub open spec fn ranking(s: Seq<(nat, nat)>, n: nat) -> Seq<int>
    decreases n,
{
    if n == 0 {
        Seq::empty()
    } else {
        let i = n - 1;
        rank_in(s, ranking(s, i as nat), i)
    }
}

/// A ranking with one more place, after all whose fractional parts are at least as large.
pub open spec fn rank_in(s: Seq<(nat, nat)>, order: Seq<int>, i: int) -> Seq<int>
    decreases order.len(),
{
    if order.len() == 0 || s[order.last()].1 >= s[i].1 {
        order.push(i)
    } else {
        rank_in(s, order.drop_last(), i).push(order.last())
    }
}

/// The counts after one more unit each for `n` places of the ranking, from the `k`-th on and round
/// again.
pub open spec fn topped_up(counts: Seq<nat>, order: Seq<int>, k: nat, n: nat) -> Seq<nat>
    decreases n,
{
    if n == 0 || order.len() == 0 {
        counts
    } else {
        let i = order[(k % order.len()) as int];
        topped_up(counts.update(i, counts[i] + 1), order, k + 1, (n - 1) as nat)
    }
}

/// A total shared out by weight.
pub open spec fn allocated(total: nat, weights: Seq<nat>) -> Seq<nat> {
    let sum = total_of(weights);
    if total == 0 || weights.len() == 0 {
        Seq::new(weights.len(), |i: int| 0nat)
    } else if sum == 0 {
        let base = total / weights.len();
        Seq::new(
            weights.len(),
            |i: int|
                if i == weights.len() - 1 {
                    (total - base * (weights.len() - 1)) as nat
                } else {
                    base
                },
        )
    } else {
        let s = shares(total, weights);
        let whole = whole_parts(s);
        let left = if total >= total_of(whole) {
            (total - total_of(whole)) as nat
        } else {
            0
        };
        topped_up(whole, ranking(s, s.len()), 0, left)
    }
}

/// The numbers in a vector.
pub open spec fn nats(v: Seq<u64>) -> Seq<nat> {
    v.map_values(|x: u64| x as nat)
}

/// The shares in a vector.
pub open spec fn shares_view(v: Seq<(u64, u128)>) -> Seq<(nat, nat)> {
    v.map_values(|x: (u64, u128)| (x.0 as nat, x.1 as nat))
}

/// The places in a vector.
pub open spec fn places(v: Seq<usize>) -> Seq<int> {
    v.map_values(|x: usize| x as int)
}

/// Whether a ranking holds places of `n` shares.
pub open spec fn places_ok(order: Seq<int>, n: int) -> bool {
    forall|i: int| 0 <= i < order.len() ==> 0 <= #[trigger] order[i] < n
}

proof fn lemma_total_bound(w: Seq<nat>, i: int)
    requires
        0 <= i < w.len(),
    ensures
        w[i] <= total_of(w),
    decreases w.len(),
{
    if i < w.len() - 1 {
        lemma_total_bound(w.drop_last(), i);
        assert(w.drop_last()[i] == w[i]);
    }
}

fn insert_rank(s: &Vec<(u64, u128)>, order: &mut Vec<usize>, i: usize)
    requires
        i < s@.len(),
        places_ok(places(old(order)@), i as int),
    ensures
        places(final(order)@) == rank_in(shares_view(s@), places(old(order)@), i as int),
        places_ok(places(final(order)@), i + 1),
{
    let ghost start = places(order@);
    let ghost model = shares_view(s@);
    let mut k: usize = order.len();
    assert(start.take(k as int) =~= start);
    assert(rank_in(model, start.take(k as int), i as int) + start.skip(k as int) =~= rank_in(
        model,
        start,
        i as int,
    ));
    while k > 0 && s[order[k - 1]].1 < s[i].1
        invariant
            k <= order@.len(),
            start == places(order@),
            model == shares_view(s@),
            i < s@.len(),
            places_ok(start, i as int),
            rank_in(model, start.take(k as int), i as int) + start.skip(k as int) == rank_in(
                model,
                start,
                i as int,
            ),
        decreases k,
    {
        proof {
            let t = start.take(k as int);
            assert(start[k - 1] == order@[k - 1] as int);
            assert(t.last() == start[k - 1]);
            assert(t.drop_last() =~= start.take(k - 1));
            assert(model[t.last()] == (
                s@[order@[k - 1] as int].0 as nat,
                s@[order@[k - 1] as int].1 as nat,
            ));
            assert(model[i as int].1 == s@[i as int].1);
            assert(rank_in(model, start.take(k - 1), i as int).push(t.last()) + start.skip(k as int)
                =~= rank_in(model, start.take(k - 1), i as int) + start.skip(k - 1));
        }
        k = k - 1;
    }
    proof {
        if k > 0 {
            let t = start.take(k as int);
            assert(start[k - 1] == order@[k - 1] as int);
            assert(t.last() == start[k - 1]);
            assert(model[i as int].1 == s@[i as int].1);
            assert(model[t.last()].1 == s@[order@[k - 1] as int].1);
        }
        assert(rank_in(model, start.take(k as int), i as int) =~= start.take(k as int).push(i as int));
    }
    order.insert(k, i);
    assert(places(order@) =~= start.take(k as int).push(i as int) + start.skip(k as int));
    assert forall|j: int| 0 <= j < places(order@).len() implies 0 <= #[trigger] places(order@)[j] < i
        + 1 by {
        if j < k {
            assert(places(order@)[j] == start[j]);
        } else if j > k {
            assert(places(order@)[j] == start[j - 1]);
        }
    }
}

/// Shares out a total by weight.
pub fn allocate_plain_counts(total: u64, weights: &Vec<u64>) -> (r: Vec<u64>)
    requires
        total < 0x20_0000_0000_0000,
        total_of(nats(weights@)) < 0x20_0000_0000_0000,
    ensures
        nats(r@) == allocated(total as nat, nats(weights@)),
        r@.len() == weights@.len(),
{
    let ghost w = nats(weights@);
    let n: usize = weights.len();
    let mut sum: u64 = 0;
    let mut i: usize = 0;
    assert(w.take(0) =~= Seq::<nat>::empty());
    while i < n
        invariant
            i <= n == weights@.len(),
            w == nats(weights@),
            total_of(w) < 0x20_0000_0000_0000,
            sum == total_of(w.take(i as int)),
        decreases n - i,
    {
        proof {
            assert(w.take(i + 1).drop_last() =~= w.take(i as int));
            lemma_total_take(w, i + 1);
        }
        sum = sum + weights[i];
        i = i + 1;
    }
    assert(w.take(i as int) =~= w);
    if total == 0 || n == 0 {
        let out: Vec<u64> = zero_counts(n);
        assert(nats(out@) =~= allocated(total as nat, w));
        return out;
    }
    if sum == 0 {
        let out: Vec<u64> = even_counts(total, n);
        assert(nats(out@) =~= allocated(total as nat, w));
        return out;
    }
    let mut parts: Vec<(u64, u128)> = Vec::new();
    let mut counts: Vec<u64> = Vec::new();
    let mut used: u128 = 0;
    let mut order: Vec<usize> = Vec::new();
    let ghost s = shares(total as nat, w);
    let mut i: usize = 0;
    assert(shares_view(parts@) =~= s.take(0));
    assert(nats(counts@) =~= whole_parts(s).take(0));
    while i < n
        invariant
            i <= n == weights@.len(),
            w == nats(weights@),
            s == shares(total as nat, w),
            total < 0x20_0000_0000_0000,
            sum == total_of(w) < 0x20_0000_0000_0000,
            0 < sum,
            shares_view(parts@) == s.take(i as int),
            nats(counts@) == whole_parts(s).take(i as int),
            forall|j: int| 0 <= j < counts@.len() ==> #[trigger] counts@[j] <= 0x80_0000_0000_0000,
            used == total_of(whole_parts(s).take(i as int)),
            used <= i * 0x80_0000_0000_0000,
        decreases n - i,
    {
        proof {
            lemma_total_bound(w, i as int);
            assert(w[i as int] == weights@[i as int]);
            assert((i + 1) * 0x80_0000_0000_0000 == i * 0x80_0000_0000_0000 + 0x80_0000_0000_0000);
            assert(whole_parts(s).take(i + 1).drop_last() =~= whole_parts(s).take(i as int));
        }
        let x: (u64, u128) = share_of(total, weights[i], sum);
        let ghost before = shares_view(parts@);
        parts.push(x);
        assert(shares_view(parts@) =~= before.push((x.0 as nat, x.1 as nat)));
        counts.push(x.0);
        used = used + x.0 as u128;
        i = i + 1;
        assert(s[i - 1] == share(total as nat, w[i - 1], total_of(w)));
        assert(s[i - 1] == (x.0 as nat, x.1 as nat));
        assert(s.take(i as int) =~= s.take(i - 1).push(s[i - 1]));
        assert(nats(counts@) =~= whole_parts(s).take(i as int));
    }
    assert(s.take(i as int) =~= s);
    assert(whole_parts(s).take(i as int) =~= whole_parts(s));
    let mut i: usize = 0;
    assert(places(order@) =~= ranking(s, 0));
    while i < n
        invariant
            i <= n == parts@.len(),
            s == shares_view(parts@),
            places(order@) == ranking(s, i as nat),
            order@.len() == i,
            places_ok(places(order@), i as int),
        decreases n - i,
    {
        proof {
            lemma_rank_len(s, places(order@), i as int);
        }
        insert_rank(&parts, &mut order, i);
        i = i + 1;
        assert(places(order@).len() == order@.len());
    }
    let mut left: u64 = if total as u128 >= used {
        (total as u128 - used) as u64
    } else {
        0
    };
    let ghost whole = whole_parts(s);
    let ghost total_left = left as nat;
    let ghost rank = places(order@);
    let mut k: usize = 0;
    while left > 0
        invariant
            0 < n == counts@.len() == order@.len(),
            rank == places(order@),
            places_ok(rank, n as int),
            k < n,
            left <= total_left < 0x20_0000_0000_0000,
            topped_up(nats(counts@), rank, k as nat, left as nat) == topped_up(
                whole,
                rank,
                0,
                total_left,
            ),
            forall|j: int|
                0 <= j < counts@.len() ==> #[trigger] counts@[j] <= 0x80_0000_0000_0000 + (total_left
                    - left),
        decreases left,
    {
        let at: usize = order[k];
        assert(rank[k as int] == at);
        assert(0 <= rank[k as int] < n);
        let ghost before = nats(counts@);
        assert(counts@[at as int] <= 0x80_0000_0000_0000 + (total_left - left));
        let c: u64 = counts[at] + 1;
        counts.set(at, c);
        proof {
            assert(nats(counts@) =~= before.update(at as int, before[at as int] + 1));
            vstd::arithmetic::div_mod::lemma_small_mod(k as nat, rank.len());
            if k + 1 == n {
                vstd::arithmetic::div_mod::lemma_mod_self_0(n as int);
            } else {
                vstd::arithmetic::div_mod::lemma_small_mod((k + 1) as nat, rank.len());
            }
            lemma_topped_up_round(nats(counts@), rank, (k + 1) as nat, (left - 1) as nat);
        }
        left = left - 1;
        k = if k + 1 < n {
            k + 1
        } else {
            0
        };
    }
    counts
}

proof fn lemma_total_take(w: Seq<nat>, i: int)
    requires
        0 <= i <= w.len(),
    ensures
        total_of(w.take(i)) <= total_of(w),
    decreases w.len() - i,
{
    if i < w.len() {
        lemma_total_take(w, i + 1);
        assert(w.take(i + 1).drop_last() =~= w.take(i));
    } else {
        assert(w.take(i) =~= w);
    }
}

proof fn lemma_rank_len(s: Seq<(nat, nat)>, order: Seq<int>, i: int)
    ensures
        rank_in(s, order, i).len() == order.len() + 1,
    decreases order.len(),
{
    if order.len() > 0 && s[order.last()].1 < s[i].1 {
        lemma_rank_len(s, order.drop_last(), i);
    }
}

/// Going round the ranking is going on from its beginning.
proof fn lemma_topped_up_round(counts: Seq<nat>, order: Seq<int>, k: nat, n: nat)
    requires
        order.len() > 0,
    ensures
        topped_up(counts, order, k, n) == topped_up(counts, order, k % order.len(), n),
    decreases n,
{
    if n > 0 {
        let m = order.len();
        assert((k % m) % m == k % m) by (nonlinear_arith)
            requires
                m > 0,
        ;
        let i = order[(k % m) as int];
        let next = counts.update(i, counts[i] + 1);
        lemma_topped_up_round(next, order, k + 1, (n - 1) as nat);
        lemma_topped_up_round(next, order, k % m + 1, (n - 1) as nat);
        assert((k % m + 1) % m == (k + 1) % m) by {
            vstd::arithmetic::div_mod::lemma_add_mod_noop(k as int, 1, m as int);
            vstd::arithmetic::div_mod::lemma_add_mod_noop((k % m) as int, 1, m as int);
        }
    }
}

fn zero_counts(n: usize) -> (r: Vec<u64>)
    ensures
        nats(r@) == Seq::new(n as nat, |i: int| 0nat),
        r@.len() == n,
{
    let mut out: Vec<u64> = Vec::new();
    let mut i: usize = 0;
    while i < n
        invariant
            i <= n,
            out@.len() == i,
            forall|j: int| 0 <= j < i ==> #[trigger] out@[j] == 0,
        decreases n - i,
    {
        out.push(0);
        i = i + 1;
    }
    assert(nats(out@) =~= Seq::new(n as nat, |i: int| 0nat));
    out
}

fn even_counts(total: u64, n: usize) -> (r: Vec<u64>)
    requires
        n > 0,
    ensures
        nats(r@) == Seq::new(
            n as nat,
            (|i: int|
                if i == n - 1 {
                    (total - (total as nat / n as nat) * (n - 1)) as nat
                } else {
                    total as nat / n as nat
                }),
        ),
        r@.len() == n,
{
    let base: u64 = total / (n as u64);
    let mut out: Vec<u64> = Vec::new();
    let mut left: u64 = total;
    let mut i: usize = 0;
    proof {
        assert(base * n <= total) by (nonlinear_arith)
            requires
                base == total / (n as u64),
                n > 0,
        ;
        assert(base * 0 == 0);
    }
    while i < n - 1
        invariant
            i <= n - 1,
            base * n <= total,
            left == total - base * i,
            out@.len() == i,
            forall|j: int| 0 <= j < i ==> #[trigger] out@[j] == base,
        decreases n - i,
    {
        proof {
            assert(base * (i + 1) == base * i + base) by (nonlinear_arith);
            assert(base * (i + 1) <= base * n) by (nonlinear_arith)
                requires
                    i + 1 <= n,
            ;
        }
        out.push(base);
        left = left - base;
        i = i + 1;
    }
    out.push(left);
    let ghost want = Seq::new(
        n as nat,
        |i: int|
            if i == n - 1 {
                (total - (total as nat / n as nat) * (n - 1)) as nat
            } else {
                total as nat / n as nat
            },
    );
    assert(nats(out@) =~= want);
    out
}


proof fn lemma_total_update(c: Seq<nat>, i: int, x: nat)
    requires
        0 <= i < c.len(),
    ensures
        total_of(c.update(i, x)) + c[i] == total_of(c) + x,
    decreases c.len(),
{
    let d = c.update(i, x);
    if i == c.len() - 1 {
        assert(d.drop_last() =~= c.drop_last());
    } else {
        lemma_total_update(c.drop_last(), i, x);
        assert(d.drop_last() =~= c.drop_last().update(i, x));
    }
}

proof fn lemma_topped_up_total(counts: Seq<nat>, order: Seq<int>, k: nat, n: nat)
    requires
        order.len() > 0,
        places_ok(order, counts.len() as int),
    ensures
        total_of(topped_up(counts, order, k, n)) == total_of(counts) + n,
        topped_up(counts, order, k, n).len() == counts.len(),
    decreases n,
{
    if n > 0 {
        let m = order.len();
        assert(0 <= k % m < m) by (nonlinear_arith)
            requires
                m > 0,
        ;
        let i = order[(k % m) as int];
        assert(0 <= i < counts.len());
        lemma_total_update(counts, i, counts[i] + 1);
        lemma_topped_up_total(counts.update(i, counts[i] + 1), order, k + 1, (n - 1) as nat);
    }
}

proof fn lemma_rank_places(s: Seq<(nat, nat)>, order: Seq<int>, i: int)
    requires
        places_ok(order, i),
        0 <= i,
    ensures
        places_ok(rank_in(s, order, i), i + 1),
    decreases order.len(),
{
    if order.len() > 0 && s[order.last()].1 < s[i].1 {
        lemma_rank_places(s, order.drop_last(), i);
    }
}

proof fn lemma_ranking_places(s: Seq<(nat, nat)>, n: nat)
    ensures
        places_ok(ranking(s, n), n as int),
        ranking(s, n).len() == n,
    decreases n,
{
    if n > 0 {
        lemma_ranking_places(s, (n - 1) as nat);
        lemma_rank_places(s, ranking(s, (n - 1) as nat), n - 1);
        lemma_rank_len(s, ranking(s, (n - 1) as nat), n - 1);
    }
}

/// What is shared out by weight adds up to the total, unless the whole parts alone exceed it, and
/// then to them.
pub proof fn law_allocation_total(total: nat, weights: Seq<nat>)
    requires
        total_of(weights) > 0,
        total > 0,
    ensures
        total_of(allocated(total, weights)) == {
            let whole = total_of(whole_parts(shares(total, weights)));
            if total >= whole {
                total
            } else {
                whole
            }
        },
        allocated(total, weights).len() == weights.len(),
{
    let s = shares(total, weights);
    lemma_ranking_places(s, s.len());
    let whole = total_of(whole_parts(s));
    let left = if total >= whole {
        (total - whole) as nat
    } else {
        0
    };
    lemma_topped_up_total(whole_parts(s), ranking(s, s.len()), 0, left);
}

} // verus!
