//! Rounded division of signed numbers by a positive divisor.

use vstd::arithmetic::div_mod::{lemma_fundamental_div_mod, lemma_fundamental_div_mod_converse};
use vstd::prelude::*;

verus! {

/// `n / d` rounded towards minus infinity.
pub open spec fn div_floor(n: int, d: int) -> int {
    n / d
}

/// `n / d` rounded towards plus infinity.
pub open spec fn div_ceil(n: int, d: int) -> int {
    -((-n) / d)
}

/// What is left when the multiples of `d` at or below `n` are taken away.
pub open spec fn mod_floor(n: int, d: int) -> int {
    n % d
}

/// A quotient by a positive divisor is no larger in magnitude than what is
/// divided.
pub proof fn lemma_quotient_is_bounded(n: int, d: int)
    requires
        d > 0,
    ensures
        n >= 0 ==> 0 <= n / d <= n,
        n <= 0 ==> n <= n / d <= 0,
{
    lemma_fundamental_div_mod(n, d);
    let q = n / d;
    let r = n % d;
    if n >= 0 {
        assert(0 <= q <= n) by (nonlinear_arith)
            requires
                n == d * q + r,
                0 <= r < d,
                n >= 0,
        ;
    } else {
        assert(n <= q <= 0) by (nonlinear_arith)
            requires
                n == d * q + r,
                0 <= r < d,
                n <= 0,
        ;
    }
}

/// The quotient of `n` by `d`, rounded down, for numbers of up to 65 bits.
fn floor_div_wide(n: i128, d: i128) -> (q: i128)
    requires
        -0x1_0000_0000_0000_0000 <= n <= 0x1_0000_0000_0000_0000,
        0 < d <= 0x1_0000_0000_0000_0000,
    ensures
        q == div_floor(n as int, d as int),
        n >= 0 ==> 0 <= q <= n,
        n <= 0 ==> n <= q <= 0,
{
    proof {
        lemma_quotient_is_bounded(n as int, d as int);
    }
    if n >= 0 {
        let q: u128 = n as u128 / d as u128;
        q as i128
    } else {
        let m: u128 = (-n) as u128;
        let lifted: u128 = m + (d as u128 - 1);
        let t: u128 = lifted / d as u128;
        proof {
            let di = d as int;
            let rem = (lifted as int) % di;
            lemma_fundamental_div_mod(lifted as int, di);
            assert(lifted == di * t + rem);
            assert((-(t as int)) * di == -(di * t)) by (nonlinear_arith);
            lemma_fundamental_div_mod_converse(n as int, di, -(t as int), di - 1 - rem);
        }
        -(t as i128)
    }
}

/// The quotient of `n` by `d`, rounded down.
pub fn floor_div(n: i64, d: i64) -> (q: i64)
    requires
        d > 0,
    ensures
        q == div_floor(n as int, d as int),
        n >= 0 ==> 0 <= q <= n,
        n <= 0 ==> n <= q <= 0,
{
    floor_div_wide(n as i128, d as i128) as i64
}

/// The quotient of `n` by `d`, rounded up.
pub fn ceil_div(n: i64, d: i64) -> (q: i64)
    requires
        d > 0,
    ensures
        q == div_ceil(n as int, d as int),
        n >= 0 ==> 0 <= q <= n,
        n <= 0 ==> n <= q <= 0,
{
    let down: i128 = floor_div_wide(-(n as i128), d as i128);
    (-down) as i64
}

/// The remainder of `n` by `d` that goes with `floor_div`: never negative.
pub fn floor_mod(n: i64, d: i64) -> (r: i64)
    requires
        d > 0,
    ensures
        r == mod_floor(n as int, d as int),
        0 <= r < d,
{
    let q: i128 = floor_div_wide(n as i128, d as i128);
    proof {
        lemma_fundamental_div_mod(n as int, d as int);
        assert(-0x8000_0000_0000_0000 * 0x8000_0000_0000_0000 <= d * q <= 0x8000_0000_0000_0000
            * 0x8000_0000_0000_0000) by (nonlinear_arith)
            requires
                -0x8000_0000_0000_0000 <= q <= 0x8000_0000_0000_0000,
                0 < d <= 0x8000_0000_0000_0000,
        ;
    }
    (n as i128 - d as i128 * q) as i64
}

} // verus!
