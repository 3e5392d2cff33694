//! Evaluation of a polynomial over GF(2^12) at the points of the support.
use vstd::prelude::*;
use crate::gf12::{elem, fmul, gf_add, gf_mul, lemma_distrib, lemma_mul_laws, Gf};

verus! {

/// Degree of the polynomial: the number of errors the code corrects.
pub const SYS_T: usize = 64;

/// Length of the support.
pub const SYS_N: usize = 3488;

/// Whether every entry of `v` is a field element.
pub open spec fn all_elems(v: Seq<u16>) -> bool {
    forall|i: int| 0 <= i < v.len() ==> v[i] < 4096
}

/// The value at `a` of the polynomial with coefficients `f[i..=64]`, the
/// coefficient of `x^0` being `f[i]`, in Horner's form.
pub open spec fn horner(f: Seq<u16>, a: u64, i: nat) -> u64
    decreases 64 - i,
{
    if i >= 64 {
        f[64] as u64
    } else {
        fmul(horner(f, a, i + 1), a) ^ (f[i as int] as u64)
    }
}

/// The value at `a` of the polynomial whose coefficient of `x^i` is `f[i]`,
/// as Horner's rule computes it.
pub open spec fn poly_value(f: Seq<u16>, a: u64) -> u64 {
    horner(f, a, 0)
}

/// `c * a^d`: `c` multiplied by `a`, `d` times over.
pub open spec fn times_pow(c: u64, a: u64, d: nat) -> u64
    decreases d,
{
    if d == 0 {
        c
    } else {
        fmul(times_pow(c, a, (d - 1) as nat), a)
    }
}

/// The sum over `j` from `i` to 64 of `f[j] * a^(j - i + d)`.
pub open spec fn power_sum(f: Seq<u16>, a: u64, i: nat, d: nat) -> u64
    decreases 65 - i,
{
    if i > 64 {
        0
    } else {
        times_pow(f[i as int] as u64, a, d) ^ power_sum(f, a, i + 1, d + 1)
    }
}

/// The direct sum of the terms `f[j] * a^j`, for `j` from 0 to 64.
pub open spec fn direct_sum(f: Seq<u16>, a: u64) -> u64 {
    power_sum(f, a, 0, 0)
}

proof fn lemma_times_pow_bound(c: u64, a: u64, d: nat)
    requires
        c < 4096,
        a < 4096,
    ensures
        times_pow(c, a, d) < 4096,
    decreases d,
{
    if d > 0 {
        lemma_times_pow_bound(c, a, (d - 1) as nat);
        lemma_distrib(times_pow(c, a, (d - 1) as nat), 0, a);
    }
}

/// Multiplying a power sum by `a` raises every exponent by one.
proof fn lemma_power_sum_times(f: Seq<u16>, a: u64, i: nat, d: nat)
    requires
        f.len() == 65,
        all_elems(f),
        a < 4096,
    ensures
        power_sum(f, a, i, d) < 4096,
        fmul(power_sum(f, a, i, d), a) == power_sum(f, a, i, d + 1),
    decreases 65 - i,
{
    if i > 64 {
        lemma_mul_laws(a, 0, 0);
    } else {
        let c = f[i as int] as u64;
        lemma_power_sum_times(f, a, i + 1, d + 1);
        lemma_times_pow_bound(c, a, d);
        let t = times_pow(c, a, d);
        let rest = power_sum(f, a, i + 1, d + 1);
        lemma_distrib(t, rest, a);
    }
}

/// Horner's rule computes the direct sum of the terms `f[j] * a^j`.
pub proof fn lemma_horner_is_direct_sum(f: Seq<u16>, a: u64)
    requires
        f.len() == 65,
        all_elems(f),
        a < 4096,
    ensures
        poly_value(f, a) == direct_sum(f, a),
{
    lemma_horner_tail(f, a, 0);
}

proof fn lemma_horner_tail(f: Seq<u16>, a: u64, i: nat)
    requires
        f.len() == 65,
        all_elems(f),
        a < 4096,
        i <= 64,
    ensures
        horner(f, a, i) == power_sum(f, a, i, 0),
    decreases 64 - i,
{
    let c = f[i as int] as u64;
    if i == 64 {
        assert(power_sum(f, a, 65, 1) == 0);
        lemma_distrib(c, 0, 0);
    } else {
        lemma_horner_tail(f, a, i + 1);
        lemma_power_sum_times(f, a, i + 1, 0);
        lemma_power_sum_times(f, a, i + 1, 1);
        lemma_distrib(power_sum(f, a, i + 1, 1), c, 0);
    }
}

/// Evaluates the polynomial `f` at the field element given by the low
/// twelve bits of `a`, by Horner's rule: 64 multiplications and additions.
pub fn eval(f: &[Gf; 65], a: Gf) -> (r: Gf)
    requires
        all_elems(f@),
    ensures
        r as u64 == poly_value(f@, elem(a)),
        r < 4096,
{
    let mut r: Gf = f[SYS_T];
    let mut i: usize = SYS_T;
    while i > 0
        invariant
            i <= SYS_T,
            all_elems(f@),
            r < 4096,
            r as u64 == horner(f@, elem(a), i as nat),
        decreases i,
    {
        i = i - 1;
        r = gf_mul(r, a);
        let c: Gf = f[i];
        let s: Gf = gf_add(r, c);
        assert(s < 4096 && s as u64 == (r as u64) ^ (c as u64)) by (bit_vector)
            requires
                r < 4096,
                c < 4096,
                s == (r ^ c) & 0xFFF,
        ;
        r = s;
    }
    r
}

/// Evaluates `f` at every point of the support `l`: `out[i] = f(l[i])`.
pub fn root(out: &mut [Gf; SYS_N], f: &[Gf; 65], l: &[Gf; SYS_N])
    requires
        all_elems(f@),
    ensures
        forall|i: int| 0 <= i < SYS_N ==> final(out)@[i] as u64 == poly_value(f@, elem(l@[i])),
{
    let mut i: usize = 0;
    while i < SYS_N
        invariant
            i <= SYS_N,
            all_elems(f@),
            forall|t: int| 0 <= t < i ==> out@[t] as u64 == poly_value(f@, elem(l@[t])),
        decreases SYS_N - i,
    {
        out[i] = eval(f, l[i]);
        i = i + 1;
    }
}

} // verus!
