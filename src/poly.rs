//! Binary polynomials, stored as the bits of an integer: bit `i` is the
//! coefficient of `x^i`. These spec functions are the mathematical model
//! against which the field engines are stated.
use vstd::prelude::*;

verus! {

/// The carry-less product of `a` with the low `n` bits of `b`, that is the
/// product of the two binary polynomials (exact while it fits in 64 bits).
pub open spec fn clmul(a: u64, b: u64, n: nat) -> u64
    decreases n,
{
    if n == 0 {
        0
    } else {
        let i = (n - 1) as nat;
        clmul(a, b, i) ^ (if (b >> (i as u64)) & 1 == 1 { a << (i as u64) } else { 0 })
    }
}

/// Long division of the binary polynomial `x` by `p`, a polynomial of degree
/// `m`: clears, from the top down, the `k` coefficients of degree
/// `m + k - 1` down to `m`, each by adding a shifted copy of `p`.
pub open spec fn reduce(x: u64, p: u64, m: nat, k: nat) -> u64
    decreases k,
{
    if k == 0 {
        x
    } else {
        let d = (m + k - 1) as nat;
        reduce(
            x ^ (if (x >> (d as u64)) & 1 == 1 { p << ((k - 1) as u64) } else { 0 }),
            p,
            m,
            (k - 1) as nat,
        )
    }
}

} // verus!
