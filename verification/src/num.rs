//! Exact integer arithmetic helpers: floor division, truncating division of a
//! product, integer square root, and greatest common divisor.
//!
//! The geometry code works in integer world units, so the places where
//! continuous geometry divides or takes a square root are rounded here, in one
//! way each, and every caller's contract states the rounded value exactly.

use vstd::prelude::*;
use vstd::arithmetic::div_mod::{
    lemma_fundamental_div_mod, lemma_fundamental_div_mod_converse, lemma_div_pos_is_pos,
    lemma_div_nonincreasing,
};
use vstd::arithmetic::mul::{lemma_mul_inequality, lemma_mul_is_distributive_add};

verus! {

/// Division of `p` by `d`, rounded toward zero (`d > 0`); Rust's own `/`.
pub open spec fn tdiv(p: int, d: int) -> int {
    if p >= 0 {
        p / d
    } else {
        -((-p) / d)
    }
}

/// The integer square root: the greatest `r` with `r * r <= n`.
pub open spec fn sqrt_floor(n: nat) -> nat
    decreases n,
{
    if n == 0 {
        0
    } else {
        let r = sqrt_floor((n - 1) as nat);
        if (r + 1) * (r + 1) <= n {
            (r + 1) as nat
        } else {
            r
        }
    }
}

/// The greatest common divisor, by Euclid's rule; `gcd_nat(0, 0) == 0`.
pub open spec fn gcd_nat(a: nat, b: nat) -> nat
    decreases b,
{
    if b == 0 {
        a
    } else {
        gcd_nat(b, a % b)
    }
}

pub proof fn lemma_sqrt_floor_bounds(n: nat)
    ensures
        sqrt_floor(n) * sqrt_floor(n) <= n,
        n < (sqrt_floor(n) + 1) * (sqrt_floor(n) + 1),
    decreases n,
{
    if n == 0 {
        assert(sqrt_floor(n) == 0);
        assert(sqrt_floor(n) * sqrt_floor(n) == 0) by (nonlinear_arith)
            requires
                sqrt_floor(n) == 0,
        ;
        assert((sqrt_floor(n) + 1) * (sqrt_floor(n) + 1) == 1) by (nonlinear_arith)
            requires
                sqrt_floor(n) == 0,
        ;
    } else {
        lemma_sqrt_floor_bounds((n - 1) as nat);
        let r = sqrt_floor((n - 1) as nat);
        assert(sqrt_floor(n) == if (r + 1) * (r + 1) <= n {
            (r + 1) as nat
        } else {
            r
        });
        if (r + 1) * (r + 1) <= n {
            assert(n == (r + 1) * (r + 1));
            assert((r + 1) * (r + 1) < (r + 2) * (r + 2)) by (nonlinear_arith);
            assert(sqrt_floor(n) == r + 1);
            assert(sqrt_floor(n) * sqrt_floor(n) == (r + 1) * (r + 1)) by (nonlinear_arith)
                requires
                    sqrt_floor(n) == r + 1,
            ;
            assert((sqrt_floor(n) + 1) * (sqrt_floor(n) + 1) == (r + 2) * (r + 2)) by (nonlinear_arith)
                requires
                    sqrt_floor(n) == r + 1,
            ;
        } else {
            assert(sqrt_floor(n) == r);
        }
    }
}

pub proof fn lemma_sqrt_floor_unique(n: nat, r: nat)
    requires
        r * r <= n,
        n < (r + 1) * (r + 1),
    ensures
        r == sqrt_floor(n),
{
    lemma_sqrt_floor_bounds(n);
    let s = sqrt_floor(n);
    if r < s {
        lemma_mul_inequality(r + 1 as int, s as int, r + 1 as int);
        lemma_mul_inequality(r + 1 as int, s as int, s as int);
        assert(s * s <= n);
        assert(false);
    }
    if s < r {
        lemma_mul_inequality(s + 1 as int, r as int, s + 1 as int);
        lemma_mul_inequality(s + 1 as int, r as int, r as int);
        assert(false);
    }
}

/// The gcd is positive when either argument is, and divides both arguments.
pub proof fn lemma_gcd_divides(a: nat, b: nat)
    requires
        a > 0 || b > 0,
    ensures
        gcd_nat(a, b) > 0,
        a as int % (gcd_nat(a, b) as int) == 0,
        b as int % (gcd_nat(a, b) as int) == 0,
    decreases b,
{
    let g = gcd_nat(a, b);
    if b == 0 {
        assert(a as int % (a as int) == 0) by {
            lemma_fundamental_div_mod_converse(a as int, a as int, 1, 0);
        }
        assert(0int % (a as int) == 0) by {
            lemma_fundamental_div_mod_converse(0, a as int, 0, 0);
        }
    } else {
        lemma_gcd_divides(b, a % b);
        assert(g == gcd_nat(b, a % b));
        // a == b * (a / b) + a % b, and g divides both summands.
        lemma_fundamental_div_mod(a as int, b as int);
        lemma_fundamental_div_mod(b as int, g as int);
        lemma_fundamental_div_mod((a as int % (b as int)), g as int);
        let q = a as int / b as int;
        let kb = b as int / g as int;
        let kr = (a as int % (b as int)) / (g as int);
        assert(b as int == g * kb);
        assert(a as int % (b as int) == g * kr);
        assert(a as int == (g * kb) * q + g * kr);
        assert((g * kb) * q == g * (kb * q)) by (nonlinear_arith);
        assert(g * (kb * q) + g * kr == g * (kb * q + kr)) by {
            lemma_mul_is_distributive_add(g as int, kb * q, kr);
        }
        assert(a as int == g * (kb * q + kr));
        assert(kb * q + kr >= 0 && a as int == (kb * q + kr) * g + 0) by (nonlinear_arith)
            requires
                a as int == g * (kb * q + kr),
                a >= 0,
                g > 0,
        ;
        lemma_fundamental_div_mod_converse(a as int, g as int, kb * q + kr, 0);
    }
}

/// Floor division by a positive divisor, as the spec-level `/` computes it.
pub fn floor_div(a: i64, b: i64) -> (q: i64)
    requires
        a > i64::MIN,
        b >= 1,
    ensures
        q == a as int / b as int,
{
    if a >= 0 {
        let r = (a as u64) / (b as u64);
        proof {
            lemma_fundamental_div_mod(a as int, b as int);
        }
        r as i64
    } else {
        let m = ((-a) as u64 - 1) / (b as u64);
        let q = -(m as i64) - 1;
        proof {
            // -a - 1 == b * m + s with 0 <= s < b, so a == b * (-m - 1) + (b - 1 - s).
            lemma_fundamental_div_mod((-a - 1) as int, b as int);
            let s = (-a - 1) as int % (b as int);
            assert(a as int == (-(m as int) - 1) * b + (b - 1 - s)) by (nonlinear_arith)
                requires
                    (-a - 1) as int == b * (m as int) + s,
            ;
            lemma_fundamental_div_mod_converse(a as int, b as int, -(m as int) - 1, b - 1 - s);
        }
        q
    }
}

/// `a * b / d` rounded toward zero, with the product taken exactly.
pub fn mul_div_trunc(a: i64, b: i64, d: i64) -> (q: i64)
    requires
        d >= 1,
        i64::MIN < tdiv(a as int * b as int, d as int) <= i64::MAX,
    ensures
        q == tdiv(a as int * b as int, d as int),
{
    proof {
        assert(-0x40000000000000000000000000000000
            <= (a as int) * (b as int)
            <= 0x40000000000000000000000000000000) by (nonlinear_arith)
            requires
                i64::MIN <= a <= i64::MAX,
                i64::MIN <= b <= i64::MAX,
        ;
    }
    let p: i128 = (a as i128) * (b as i128);
    if p >= 0 {
        let m = (p as u128) / (d as u128);
        proof {
            lemma_fundamental_div_mod(p as int, d as int);
        }
        m as i64
    } else {
        let m = ((-p) as u128) / (d as u128);
        proof {
            lemma_fundamental_div_mod((-p) as int, d as int);
        }
        -(m as i64)
    }
}

/// The integer square root of `n`, by binary search.
pub fn isqrt(n: u64) -> (r: u64)
    ensures
        r == sqrt_floor(n as nat),
{
    let mut lo: u64 = 0;
    let mut hi: u64 = 4294967296;
    proof {
        assert((4294967296int) * 4294967296 > n) by (nonlinear_arith)
            requires
                n <= u64::MAX,
        ;
    }
    while lo + 1 < hi
        invariant
            lo < hi,
            hi <= 4294967296,
            lo * lo <= n,
            n < hi * hi,
        decreases hi - lo,
    {
        let mid = lo + (hi - lo) / 2;
        proof {
            assert((mid as int) * (mid as int) <= 0x10000000000000000) by (nonlinear_arith)
                requires
                    0 <= mid as int <= 4294967296,
            ;
        }
        if (mid as u128) * (mid as u128) <= (n as u128) {
            lo = mid;
        } else {
            hi = mid;
        }
    }
    proof {
        lemma_sqrt_floor_unique(n as nat, lo as nat);
    }
    lo
}

/// The greatest common divisor, by Euclid's loop.
pub fn gcd(a: u64, b: u64) -> (g: u64)
    ensures
        g == gcd_nat(a as nat, b as nat),
{
    let mut x = a;
    let mut y = b;
    while y != 0
        invariant
            gcd_nat(x as nat, y as nat) == gcd_nat(a as nat, b as nat),
        decreases y,
    {
        let t = x % y;
        x = y;
        y = t;
    }
    x
}


/// Truncating division moves the dividend toward zero.
pub proof fn lemma_tdiv_bounds(p: int, d: int)
    requires
        d >= 1,
    ensures
        p >= 0 ==> 0 <= tdiv(p, d) <= p,
        p < 0 ==> p <= tdiv(p, d) <= 0,
{
    if p >= 0 {
        lemma_div_pos_is_pos(p, d);
        lemma_div_nonincreasing(p, d);
    } else {
        lemma_div_pos_is_pos(-p, d);
        lemma_div_nonincreasing(-p, d);
    }
}

/// Truncating division is odd in its dividend.
pub proof fn lemma_tdiv_neg(p: int, d: int)
    requires
        d >= 1,
    ensures
        tdiv(-p, d) == -tdiv(p, d),
{
}


/// Floor division by a positive divisor moves the dividend toward zero.
pub proof fn lemma_floor_div_bounds(x: int, d: int)
    requires
        d >= 1,
    ensures
        x >= 0 ==> 0 <= x / d <= x,
        x < 0 ==> x <= x / d <= 0,
{
    if x >= 0 {
        lemma_div_pos_is_pos(x, d);
        lemma_div_nonincreasing(x, d);
    } else {
        lemma_fundamental_div_mod(x, d);
        let q = x / d;
        assert(x <= q <= 0) by (nonlinear_arith)
            requires
                d >= 1,
                x < 0,
                x == d * q + (x % d),
                0 <= x % d < d,
        ;
    }
}

} // verus!
