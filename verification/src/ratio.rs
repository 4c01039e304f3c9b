//! Quotients of counts as they compare with thresholds in single precision: both counts and their
//! quotient are rounded to 24 significant bits, to the nearest and from the middle to the even.

use vstd::prelude::*;

verus! {

/// `2` to the power of 24.
pub const SIGNIFICAND: u128 = 0x100_0000;

/// The smallest of `p`, `2p`, `4p` and so on by which a count is less than 24 bits wide.
pub open spec fn step_from(n: nat, p: nat) -> nat
    decreases n + 1 - p,
{
    if p == 0 || n < 0x100_0000 * p {
        p
    } else {
        step_from(n, 2 * p)
    }
}

/// `a / b` rounded to the nearest, and from the middle to the even.
pub open spec fn rounded(a: nat, b: nat) -> nat {
    let q = a / b;
    let r = a % b;
    if 2 * r > b || (2 * r == b && q % 2 == 1) {
        q + 1
    } else {
        q
    }
}

/// A count rounded to 24 significant bits.
pub open spec fn single(n: nat) -> nat {
    let p = step_from(n, 1);
    rounded(n, p) * p
}

/// Whether the quotient of two counts is less than `m / 2^e`, where `scale` is twice `2^e` and `m`
/// is between `2^23` and `2^24`.
pub open spec fn below(a: nat, b: nat, m: nat, scale: nat) -> bool {
    if m % 2 == 1 {
        single(a) * scale <= single(b) * (2 * m - 1)
    } else {
        single(a) * scale < single(b) * (2 * m - 1)
    }
}

/// Whether the quotient of two counts is less than a quarter.
pub open spec fn below_quarter(a: nat, b: nat) -> bool {
    single(a) * 0x800_0000 < single(b) * 0x1ff_ffff
}

/// Whether the quotient of two counts is greater than `m / 2^e`, where `scale` is twice `2^e` and
/// `m` is at least `2^23` and less than `2^24`.
pub open spec fn above(a: nat, b: nat, m: nat, scale: nat) -> bool {
    if m % 2 == 1 {
        single(a) * scale >= single(b) * (2 * m + 1)
    } else {
        single(a) * scale > single(b) * (2 * m + 1)
    }
}

/// The smallest of `p`, `2p`, `4p` and so on by which `a / b` is at least 24 bits wide.
pub open spec fn widen_from(a: nat, b: nat, p: nat) -> nat
    decreases 0x100_0000 * b - a * p,
{
    if a == 0 || p == 0 || a * p >= 0x80_0000 * b {
        p
    } else {
        proof {
            assert(a * (2 * p) == 2 * (a * p)) by (nonlinear_arith);
            assert(a * p > 0) by (nonlinear_arith)
                requires
                    a > 0,
                    p > 0,
            ;
        }
        widen_from(a, b, 2 * p)
    }
}

/// The quotient of two counts, the first of which is at most the second, as `(m, p)` for `m / p`.
pub open spec fn quotient(a: nat, b: nat) -> (nat, nat) {
    if single(a) == 0 || single(b) == 0 {
        (0, 1)
    } else {
        let p = widen_from(single(a), single(b), 1);
        (rounded(single(a) * p, single(b)), p)
    }
}

/// Whether the sum of two quotients is less than a tenth.
pub open spec fn sum_below_tenth(x: (nat, nat), y: (nat, nat)) -> bool {
    let (near, far) = if x.1 <= y.1 {
        (x, y)
    } else {
        (y, x)
    };
    let sum = near.0 * (far.1 / near.1) + far.0;
    if far.1 >= 0x1000_0000 {
        sum <= 26843545 * (far.1 / 0x1000_0000)
    } else {
        sum * 0x1000_0000 <= 26843545 * far.1
    }
}

fn round_quotient(a: u128, b: u128) -> (r: u128)
    requires
        0 < b < 0x1_0000_0000_0000_0000_0000_0000,
        a <= 0x200_0000 * b,
    ensures
        r == rounded(a as nat, b as nat),
        r <= 0x200_0001,
        a >= b ==> r > 0,
{
    let q: u128 = a / b;
    let r: u128 = a % b;
    assert(q <= 0x200_0000) by (nonlinear_arith)
        requires
            q == a / b,
            b > 0,
            a <= 0x200_0000 * b,
    ;
    assert(a >= b ==> q > 0) by (nonlinear_arith)
        requires
            q == a / b,
            b > 0,
    ;
    assert(0 <= r < b) by (nonlinear_arith)
        requires
            r == a % b,
            b > 0,
    ;
    if 2 * r > b || (2 * r == b && q % 2 == 1) {
        q + 1
    } else {
        q
    }
}

/// A count as it is rounded.
fn to_single(n: usize) -> (r: u128)
    ensures
        r == single(n as nat),
        r < 0x4_0000_0000_0000_0000,
        n > 0 ==> r > 0,
        r <= 2 * n <= 4 * r,
{
    let x: u128 = n as u128;
    let mut p: u128 = 1;
    while SIGNIFICAND * p <= x
        invariant
            x == n <= 0xffff_ffff_ffff_ffff,
            p == 1 || 0x80_0000 * p <= x,
            1 <= p <= 0x200_0000_0000,
            step_from(x as nat, p as nat) == step_from(x as nat, 1),
        decreases x + 1 - p,
    {
        p = 2 * p;
    }
    let q: u128 = round_quotient(x, p);
    assert(q * p <= 0x200_0001 * p) by (nonlinear_arith)
        requires
            q <= 0x200_0001,
    ;
    assert(n > 0 ==> q * p > 0) by (nonlinear_arith)
        requires
            n > 0 ==> q > 0,
            p > 0,
    ;
    proof {
        lemma_rounded_near(x as nat, p as nat);
    }
    q * p
}

proof fn lemma_rounded_near(n: nat, p: nat)
    requires
        p == 1 || (p > 1 && 0x80_0000 * p <= n),
    ensures
        rounded(n, p) * p <= 2 * n <= 4 * (rounded(n, p) * p),
{
    let q = n / p;
    let r = n % p;
    assert(n == q * p + r && r < p) by (nonlinear_arith)
        requires
            p > 0,
            q == n / p,
            r == n % p,
    ;
    assert((q + 1) * p == q * p + p) by (nonlinear_arith);
    if p == 1 {
        assert(q * p == q) by (nonlinear_arith)
            requires
                p == 1,
        ;
    }
}

pub fn is_below(a: usize, b: usize, m: u32, scale: u32) -> (r: bool)
    requires
        0 < m < 0x100_0000,
    ensures
        r == below(a as nat, b as nat, m as nat, scale as nat),
{
    let x: u128 = to_single(a);
    let y: u128 = to_single(b);
    let k: u128 = 2 * (m as u128) - 1;
    assert(x * scale <= 0x4_0000_0000_0000_0000 * 0x1_0000_0000) by (nonlinear_arith)
        requires
            0 <= x <= 0x4_0000_0000_0000_0000,
            0 <= scale <= 0x1_0000_0000,
    ;
    assert(y * k <= 0x4_0000_0000_0000_0000 * 0x1_0000_0000) by (nonlinear_arith)
        requires
            0 <= y <= 0x4_0000_0000_0000_0000,
            0 <= k <= 0x1_0000_0000,
    ;
    let left: u128 = x * scale as u128;
    let right: u128 = y * k;
    if m % 2 == 1 {
        left <= right
    } else {
        left < right
    }
}

pub fn is_below_quarter(a: usize, b: usize) -> (r: bool)
    ensures
        r == below_quarter(a as nat, b as nat),
{
    let x: u128 = to_single(a);
    let y: u128 = to_single(b);
    x * 0x800_0000 < y * 0x1ff_ffff
}

pub fn is_above(a: usize, b: usize, m: u32, scale: u32) -> (r: bool)
    requires
        0 < m < 0x100_0000,
    ensures
        r == above(a as nat, b as nat, m as nat, scale as nat),
{
    let x: u128 = to_single(a);
    let y: u128 = to_single(b);
    let k: u128 = 2 * (m as u128) + 1;
    assert(x * scale <= 0x4_0000_0000_0000_0000 * 0x1_0000_0000) by (nonlinear_arith)
        requires
            0 <= x <= 0x4_0000_0000_0000_0000,
            0 <= scale <= 0x1_0000_0000,
    ;
    assert(y * k <= 0x4_0000_0000_0000_0000 * 0x1_0000_0000) by (nonlinear_arith)
        requires
            0 <= y <= 0x4_0000_0000_0000_0000,
            0 <= k <= 0x1_0000_0000,
    ;
    let left: u128 = x * scale as u128;
    let right: u128 = y * k;
    if m % 2 == 1 {
        left >= right
    } else {
        left > right
    }
}

fn quotient_of(a: usize, b: usize) -> (r: (u128, u128))
    requires
        a <= b,
    ensures
        (r.0 as nat, r.1 as nat) == quotient(a as nat, b as nat),
        r.0 <= 0x200_0001,
        0 < r.1 <= 0x800_0000_0000_0000_0000_0000,
{
    let x: u128 = to_single(a);
    let y: u128 = to_single(b);
    if x == 0 || y == 0 {
        return (0, 1);
    }
    let mut p: u128 = 1;
    let mut top: u128 = x;
    while top < 0x80_0000 * y
        invariant
            0 < x < 0x4_0000_0000_0000_0000,
            0 < y < 0x4_0000_0000_0000_0000,
            top == x * p,
            0 < p <= top,
            p == 1 || top < 0x100_0000 * y,
            widen_from(x as nat, y as nat, p as nat) == widen_from(x as nat, y as nat, 1),
        decreases 0x100_0000 * y - top,
    {
        assert(x * (2 * p) == 2 * (x * p)) by (nonlinear_arith);
        assert(x as nat * p as nat == top);
        p = 2 * p;
        top = 2 * top;
    }
    proof {
        assert(x as nat * p as nat == top);
    }
    (round_quotient(top, y), p)
}

pub fn is_sum_below_tenth(a: usize, b: usize, total: usize) -> (r: bool)
    requires
        a <= total,
        b <= total,
    ensures
        r == sum_below_tenth(
            quotient(a as nat, total as nat),
            quotient(b as nat, total as nat),
        ),
{
    let x: (u128, u128) = quotient_of(a, total);
    let y: (u128, u128) = quotient_of(b, total);
    let (near, far) = if x.1 <= y.1 {
        (x, y)
    } else {
        (y, x)
    };
    let k: u128 = far.1 / near.1;
    let (nm, np, fm, fp) = (near.0, near.1, far.0, far.1);
    assert(k <= fp) by (nonlinear_arith)
        requires
            k == fp / np,
            np > 0,
    ;
    assert(nm * k <= 0x200_0001 * 0x800_0000_0000_0000_0000_0000) by (nonlinear_arith)
        requires
            0 <= nm <= 0x200_0001,
            0 <= k <= 0x800_0000_0000_0000_0000_0000,
    ;
    let sum: u128 = nm * k + fm;
    if fp >= 0x1000_0000 {
        sum <= 26843545 * (fp / 0x1000_0000)
    } else {
        assert(nm * k <= 0x200_0001 * 0x1000_0000) by (nonlinear_arith)
            requires
                0 <= nm <= 0x200_0001,
                0 <= k <= fp < 0x1000_0000,
        ;
        sum * 0x1000_0000 <= 26843545 * fp
    }
}

} // verus!
