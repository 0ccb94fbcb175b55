//! Integer helpers: floor division and floor square root.
use vstd::prelude::*;
use vstd::arithmetic::div_mod::lemma_fundamental_div_mod_converse;
use vstd::arithmetic::div_mod::lemma_fundamental_div_mod;

verus! {

/// The floor of `n / d` for a nonzero divisor of either sign.
pub open spec fn floor_div(n: int, d: int) -> int
    recommends
        d != 0,
{
    if d > 0 {
        n / d
    } else {
        (-n) / (-d)
    }
}

/// The absolute value.
pub open spec fn abs(x: int) -> int {
    if x < 0 {
        -x
    } else {
        x
    }
}

/// Floor division by a positive divisor (`/` on `int` is Euclidean, which
/// for a positive divisor is the floor).
pub fn div_floor_pos(x: i128, y: i128) -> (r: i128)
    requires
        y > 0,
    ensures
        r == x / y,
{
    let q = x / y;
    let m = x % y;
    if x >= 0 {
        q
    } else {
        proof {
            let e = (-x) / (y as int);
            let f = (-x) % (y as int);
            lemma_fundamental_div_mod(-x, y as int);
            assert(-x == y * e + f);
            if f == 0 {
                assert(x == (-e) * y + 0) by (nonlinear_arith)
                    requires -x == y * e + f, f == 0;
                lemma_fundamental_div_mod_converse(x as int, y as int, -e, 0);
            } else {
                assert(x == (-e - 1) * y + (y - f)) by (nonlinear_arith)
                    requires -x == y * e + f;
                lemma_fundamental_div_mod_converse(x as int, y as int, -e - 1, y - f);
            }
        }
        if m < 0 {
            q - 1
        } else {
            q
        }
    }
}

/// Floor division by a nonzero divisor of either sign.
pub fn div_floor(x: i128, y: i128) -> (r: i128)
    requires
        y != 0,
        x > i128::MIN,
        y > i128::MIN,
    ensures
        r == floor_div(x as int, y as int),
{
    if y > 0 {
        div_floor_pos(x, y)
    } else {
        div_floor_pos(-x, -y)
    }
}

/// `s` is the floor of the square root of `v`.
pub open spec fn is_floor_sqrt(v: int, s: int) -> bool {
    0 <= s && s * s <= v && v < (s + 1) * (s + 1)
}

/// The floor of the square root of `v`, by bisection.
pub fn floor_sqrt(v: u128) -> (s: u128)
    requires
        v < 0x1000_0000_0000_0000_0000_0000_0000_0000,
    ensures
        is_floor_sqrt(v as int, s as int),
{
    let mut lo: u128 = 0;
    let mut hi: u128 = 0x4000_0000_0000_0000;
    assert(hi * hi > v) by (nonlinear_arith)
        requires hi == 0x4000_0000_0000_0000, v < 0x1000_0000_0000_0000_0000_0000_0000_0000;
    while hi - lo > 1
        invariant
            lo < hi <= 0x4000_0000_0000_0000,
            lo * lo <= v,
            v < hi * hi,
        decreases hi - lo,
    {
        let mid = lo + (hi - lo) / 2;
        assert(mid * mid <= 0x4000_0000_0000_0000 * 0x4000_0000_0000_0000) by (nonlinear_arith)
            requires mid <= 0x4000_0000_0000_0000;
        if mid * mid <= v {
            lo = mid;
        } else {
            hi = mid;
        }
    }
    assert(hi == lo + 1);
    lo
}

/// The floor square root is unique.
pub proof fn lemma_floor_sqrt_unique(v: int, s: int, t: int)
    requires
        is_floor_sqrt(v, s),
        is_floor_sqrt(v, t),
    ensures
        s == t,
{
    if s < t {
        assert((s + 1) * (s + 1) <= t * t) by (nonlinear_arith)
            requires 0 <= s, s + 1 <= t;
    } else if t < s {
        assert((t + 1) * (t + 1) <= s * s) by (nonlinear_arith)
            requires 0 <= t, t + 1 <= s;
    }
}

/// Every integer that is not negative has a floor square root.
pub proof fn lemma_floor_sqrt_exists(v: int)
    requires
        v >= 0,
    ensures
        exists|s: int| is_floor_sqrt(v, s),
    decreases v,
{
    if v == 0 {
        assert(is_floor_sqrt(0, 0));
    } else {
        lemma_floor_sqrt_exists(v - 1);
        let s = choose|s: int| #[trigger] is_floor_sqrt(v - 1, s);
        if (s + 1) * (s + 1) <= v {
            assert(v < (s + 2) * (s + 2)) by (nonlinear_arith)
                requires v - 1 < (s + 1) * (s + 1), s >= 0;
            assert(is_floor_sqrt(v, s + 1));
        } else {
            assert(is_floor_sqrt(v, s));
        }
    }
}

/// The floor of the square root of `v` (meaningful for `v >= 0`).
pub open spec fn isqrt(v: int) -> int {
    choose|s: int| #[trigger] is_floor_sqrt(v, s)
}

/// `floor_sqrt` computes `isqrt`.
pub proof fn lemma_isqrt_is(v: int, s: int)
    requires
        is_floor_sqrt(v, s),
    ensures
        isqrt(v) == s,
{
    lemma_floor_sqrt_unique(v, s, isqrt(v));
}

/// `floor(n / sqrt(v))` for `v > 0`: with `k` the floor square root of
/// `floor(n² / v)`, that is `k` for `n >= 0`, and for `n < 0` it is `-k` when
/// `n / sqrt(v)` is the integer `-k` (`k²·v == n²`), else `-k - 1`.
pub open spec fn div_sqrt(n: int, v: int) -> int {
    let k = isqrt((n * n) / v);
    if n >= 0 {
        k
    } else if k * k * v == n * n {
        -k
    } else {
        -k - 1
    }
}

/// Dividing by the square root of one changes nothing.
pub proof fn lemma_div_sqrt_unit(n: int)
    ensures
        div_sqrt(n, 1) == n,
{
    let a = abs(n);
    assert(n * n / 1 == n * n);
    assert(is_floor_sqrt(n * n, a)) by (nonlinear_arith)
        requires a == if n < 0 { -n } else { n };
    lemma_isqrt_is(n * n, a);
    assert(a * a * 1 == n * n) by (nonlinear_arith)
        requires a == if n < 0 { -n } else { n };
}

/// `floor(n / sqrt(v))`, computed; see `div_sqrt`.
pub fn div_sqrt_floor(n: i128, v: i128) -> (r: i128)
    requires
        1 <= v,
        -0x2000_0000_0000_0000 <= n <= 0x2000_0000_0000_0000,
    ensures
        r == div_sqrt(n as int, v as int),
        -abs(n as int) - 1 <= r <= abs(n as int),
        v == 1 ==> r == n,
{
    proof {
        lemma_mul_abs_bound(n as int, n as int, 0x2000_0000_0000_0000, 0x2000_0000_0000_0000);
        assert(n * n >= 0) by (nonlinear_arith);
    }
    let nn = n * n;
    let q = div_floor_pos(nn, v);
    proof {
        lemma_fundamental_div_mod(nn as int, v as int);
        assert(0 <= q <= nn) by (nonlinear_arith)
            requires nn == v * q + nn % v, 0 <= nn % v < v, v >= 1, nn >= 0;
        assert(q * v <= nn) by (nonlinear_arith)
            requires nn == v * q + nn % v, 0 <= nn % v;
    }
    let ku = floor_sqrt(q as u128);
    proof {
        if ku > 0x4000_0000_0000_0000 {
            assert(ku * ku > 0x4000_0000_0000_0000 * 0x4000_0000_0000_0000) by (nonlinear_arith)
                requires ku > 0x4000_0000_0000_0000;
        }
    }
    let k = ku as i128;
    proof {
        lemma_isqrt_is(q as int, k as int);
        assert(k * k * v <= nn) by (nonlinear_arith)
            requires k * k <= q, q * v <= nn, v >= 1;
        assert(k <= abs(n as int)) by (nonlinear_arith)
            requires k * k <= nn, nn == n * n, k >= 0, abs(n as int) == if n < 0 { -n } else { n as int };
        if v == 1 {
            assert(q == nn);
            assert(is_floor_sqrt(nn as int, abs(n as int))) by (nonlinear_arith)
                requires nn == n * n, abs(n as int) == if n < 0 { -n } else { n as int };
            lemma_floor_sqrt_unique(nn as int, k as int, abs(n as int));
            assert(k * k * v == k * k) by (nonlinear_arith)
                requires v == 1;
            assert(k * k == nn) by (nonlinear_arith)
                requires nn == n * n, k == abs(n as int), abs(n as int) == if n < 0 { -n } else { n as int };
        }
    }
    if n >= 0 {
        k
    } else if k * k * v == nn {
        -k
    } else {
        -k - 1
    }
}

/// The greatest common divisor, by Euclid's algorithm; `gcd(0, 0) == 0`.
pub open spec fn gcd(a: nat, b: nat) -> nat
    decreases b,
{
    if b == 0 {
        a
    } else {
        gcd(b, a % b)
    }
}

/// The greatest common divisor of three numbers.
pub open spec fn gcd3(a: nat, b: nat, c: nat) -> nat {
    gcd(gcd(a, b), c)
}

/// `gcd(a, b)` divides both: it returns the two cofactors.
pub proof fn lemma_gcd_divides(a: nat, b: nat) -> (k: (int, int))
    ensures
        a == gcd(a, b) * k.0,
        b == gcd(a, b) * k.1,
    decreases b,
{
    if b == 0 {
        assert(a == a * 1 && 0 == a * 0) by (nonlinear_arith);
        (1, 0)
    } else {
        let (kb, kr) = lemma_gcd_divides(b, a % b);
        let g = gcd(b, a % b);
        lemma_fundamental_div_mod(a as int, b as int);
        let q = a as int / b as int;
        let r = (a % b) as int;
        assert(a == g * (kb * q + kr)) by (nonlinear_arith)
            requires a == b * q + r, b == g * kb, r == g * kr;
        (kb * q + kr, kb)
    }
}

/// The greatest common divisor is zero only for two zeros.
pub proof fn lemma_gcd_zero(a: nat, b: nat)
    ensures
        (gcd(a, b) == 0) == (a == 0 && b == 0),
    decreases b,
{
    if b != 0 {
        lemma_gcd_divides(b, a % b);
        lemma_gcd_zero(b, a % b);
    }
}

/// `gcd3(a, b, c)` divides all three, and is zero only for three zeros.
pub proof fn lemma_gcd3_divides(a: nat, b: nat, c: nat) -> (k: (int, int, int))
    ensures
        a == gcd3(a, b, c) * k.0,
        b == gcd3(a, b, c) * k.1,
        c == gcd3(a, b, c) * k.2,
        (gcd3(a, b, c) == 0) == (a == 0 && b == 0 && c == 0),
{
    let g1 = gcd(a, b);
    let g = gcd3(a, b, c);
    let (ka, kb) = lemma_gcd_divides(a, b);
    let (k1, kc) = lemma_gcd_divides(g1, c);
    lemma_gcd_zero(a, b);
    lemma_gcd_zero(g1, c);
    assert(a == g * (k1 * ka) && b == g * (k1 * kb)) by (nonlinear_arith)
        requires a == g1 * ka, b == g1 * kb, g1 == g * k1;
    (k1 * ka, k1 * kb, kc)
}

/// The greatest common divisor, computed.
pub fn gcd_u128(a: u128, b: u128) -> (g: u128)
    ensures
        g == gcd(a as nat, b as nat),
{
    let mut x = a;
    let mut y = b;
    while y != 0
        invariant
            gcd(x as nat, y as nat) == gcd(a as nat, b as nat),
        decreases y,
    {
        let t = x % y;
        x = y;
        y = t;
    }
    x
}

/// Division by a divisor: the quotient is the cofactor, no larger in size
/// than the dividend.
pub proof fn lemma_exact_div(x: int, g: int, k: int)
    requires
        g > 0,
        x == g * k,
    ensures
        x / g == k,
        -(if x < 0 { -x } else { x }) <= k <= (if x < 0 { -x } else { x }),
{
    assert(x == k * g + 0) by (nonlinear_arith)
        requires x == g * k;
    lemma_fundamental_div_mod_converse(x, g, k, 0);
    assert(-(if x < 0 { -x } else { x }) <= k <= (if x < 0 { -x } else { x })) by (nonlinear_arith)
        requires x == g * k, g > 0;
}

/// A quotient by a positive divisor is no larger in size than the dividend.
pub proof fn lemma_quotient_bound(x: int, n: int)
    requires
        n > 0,
    ensures
        -(if x < 0 { -x } else { x }) <= x / n <= (if x < 0 { -x } else { x }),
{
    lemma_fundamental_div_mod(x, n);
    let q = x / n;
    let r = x % n;
    assert(-(if x < 0 { -x } else { x }) <= q <= (if x < 0 { -x } else { x })) by (nonlinear_arith)
        requires x == n * q + r, 0 <= r < n, n > 0;
}

/// Bound on a product from bounds on its factors.
pub proof fn lemma_mul_abs_bound(x: int, y: int, bx: int, bnd: int)
    requires
        -bx <= x <= bx,
        -bnd <= y <= bnd,
    ensures
        -(bx * bnd) <= x * y <= bx * bnd,
{
    assert(-(bx * bnd) <= x * y <= bx * bnd) by (nonlinear_arith)
        requires -bx <= x <= bx, -bnd <= y <= bnd;
}

} // verus!
