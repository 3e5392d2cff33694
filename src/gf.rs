//! The field GF(2^13) defined by `x^13 + x^4 + x^3 + x + 1`, its elements
//! held in the low thirteen bits of a `u16`, and the extension field
//! GF((2^13)^128) defined by `y^128 + y^7 + y^2 + y + 1`.
use vstd::prelude::*;
use crate::gf12::lemma_mul_term;
use crate::poly::{clmul, reduce};

verus! {

/// A field element.
pub type Gf = u16;

/// Bits in a field element.
pub const GFBITS: usize = 13;

/// Mask of the bits that a field element may have set.
pub const GFMASK: usize = 8191;

/// Degree of the extension field over GF(2^13).
pub const SYS_T: usize = 128;

/// The defining polynomial `x^13 + x^4 + x^3 + x + 1`.
pub const POLY: u64 = 0x201B;

/// An input read as a field element: its low thirteen bits.
pub open spec fn elem(a: u16) -> u64 {
    (a & 0x1FFF) as u64
}

/// The field product: the polynomial product reduced modulo `POLY`.
pub open spec fn fmul(a: u64, b: u64) -> u64 {
    reduce(clmul(a, b, 13), POLY, 13, 12)
}

/// A field element is its own low thirteen bits.
pub proof fn lemma_elem(a: u16)
    requires
        a < 8192,
    ensures
        elem(a) == a as u64,
{
    assert((a & 0x1FFF) as u64 == a as u64) by (bit_vector)
        requires
            a < 8192,
    ;
}

/// One folding pass carries the bits selected by `m` down by
/// `x^13 = x^4 + x^3 + x + 1`.
pub open spec fn fold(x: u64, m: u64) -> u64 {
    let t = x & m;
    x ^ ((t >> 9) ^ (t >> 10) ^ (t >> 12) ^ (t >> 13))
}

/// Two passes of folding, the bits of degree 16 to 24 and then those of
/// degree 13 to 15, keeping the low thirteen bits.
pub open spec fn fold13(x: u64) -> u64 {
    fold(fold(x, 0x1FF0000), 0xE000) & 0x1FFF
}

/// Folding gives a field element, and on a product of two field elements it
/// is the reduction modulo `POLY`.
proof fn lemma_fold(x: u64)
    ensures
        fold13(x) < 8192,
        x < 0x200_0000 ==> fold13(x) == reduce(x, POLY, 13, 12),
{
    assert(fold13(x) < 8192 && (x < 0x200_0000 ==> fold13(x) == reduce(x, 0x201B, 13, 12)))
        by (bit_vector);
}

/// The sum of two field elements is a field element.
pub proof fn lemma_add_elem(x: u16, y: u16)
    requires
        x < 8192,
        y < 8192,
    ensures
        x ^ y < 8192,
{
    assert(x ^ y < 8192) by (bit_vector)
        requires
            x < 8192,
            y < 8192,
    ;
}

/// The all-ones mask 8191 when `a` is zero, and 0 otherwise.
pub fn gf_iszero(a: Gf) -> (r: Gf)
    ensures
        r == (if a == 0 { 8191u16 } else { 0u16 }),
{
    let t: u32 = (a as u32).wrapping_sub(1u32) >> 19u32;
    assert(((a as u32).wrapping_sub(1u32) >> 19u32) as u16 == (if a == 0 { 8191u16 } else { 0u16 }))
        by (bit_vector);
    t as u16
}

/// Field addition: bitwise exclusive or, keeping the low thirteen bits.
pub fn gf_add(in0: Gf, in1: Gf) -> (r: Gf)
    ensures
        r == (in0 ^ in1) & 0x1FFF,
        r < 8192,
{
    let r: u16 = (in0 ^ in1) & (GFMASK as u16);
    assert(r < 8192) by (bit_vector)
        requires
            r == (in0 ^ in1) & 0x1FFF,
    ;
    r
}

/// Field multiplication. The second factor is taken by its low thirteen bits
/// and the first as it is: the result is the folded carry-less product, which
/// for a first factor in the field is the field product.
pub fn gf_mul(in0: Gf, in1: Gf) -> (r: Gf)
    ensures
        r as u64 == fold13(clmul(in0 as u64, elem(in1), 13)),
        r < 8192,
        in0 < 8192 ==> r == fmul(in0 as u64, elem(in1)),
{
    let t0: u64 = in0 as u64;
    let t1: u64 = in1 as u64;
    proof {
        lemma_mul_term(t0, t1, 0);
        assert(clmul(t0, t1, 1) == clmul(t0, t1, 0) ^ (if (t1 >> 0u64) & 1 == 1 { t0 << 0u64 } else { 0 }));
        assert(t1 & (1u64 << 0u64) == t1 & 1 && 0u64 ^ ((t0 * (t1 & 1)) as u64) == (t0 * (t1
            & 1)) as u64) by (bit_vector);
    }
    let mut tmp: u64 = t0 * (t1 & 1);
    let mut i: usize = 1;
    while i < GFBITS
        invariant
            1 <= i <= GFBITS,
            t0 < 0x1_0000,
            tmp == clmul(t0, t1, i as nat),
        decreases GFBITS - i,
    {
        proof {
            lemma_mul_term(t0, t1, i as u64);
        }
        tmp = tmp ^ t0 * (t1 & (1u64 << i));
        i = i + 1;
    }
    let ghost product = tmp;
    let t: u64 = tmp & 0x1FF0000;
    tmp = tmp ^ ((t >> 9u64) ^ (t >> 10u64) ^ (t >> 12u64) ^ (t >> 13u64));
    let t: u64 = tmp & 0x000E000;
    tmp = tmp ^ ((t >> 9u64) ^ (t >> 10u64) ^ (t >> 12u64) ^ (t >> 13u64));
    let low: u64 = tmp & (GFMASK as u64);
    proof {
        let x = product;
        assert(low == fold13(x));
        assert(x == clmul(t0, (in1 & 0x1FFF) as u64, 13) && (t0 < 8192 ==> x < 0x200_0000))
            by (bit_vector)
            requires
                x == clmul(t0, t1, 13),
                t1 == in1 as u64,
        ;
        lemma_fold(x);
    }
    low as u16
}

/// Spreading each bit four places apart gives the fourth power as a
/// polynomial, and four folding passes reduce it.
proof fn lemma_sq2(a: u16, x: u64, p1: u64, s1: u64, p2: u64)
    requires
        x == ({
            let x0 = a as u64;
            let x1 = (x0 | (x0 << 24u64)) & 0x000000FF000000FF;
            let x2 = (x1 | (x1 << 12u64)) & 0x000F000F000F000F;
            let x3 = (x2 | (x2 << 6u64)) & 0x0303030303030303;
            (x3 | (x3 << 3u64)) & 0x1111111111111111
        }),
        p1 == clmul(elem(a), elem(a), 13),
        s1 == reduce(p1, POLY, 13, 12),
        p2 == clmul(s1, s1, 13),
    ensures
        fold(
            fold(fold(fold(x, 0x0001FF0000000000), 0x000000FF80000000), 0x000000007FC00000),
            0x00000000003FE000,
        ) & 0x1FFF == reduce(p2, POLY, 13, 12),
{
    let e = elem(a);
    assert(fold(
        fold(fold(fold(x, 0x0001FF0000000000), 0x000000FF80000000), 0x000000007FC00000),
        0x00000000003FE000,
    ) & 0x1FFF == reduce(p2, 0x201B, 13, 12)) by (bit_vector)
        requires
            x == ({
                let x0 = a as u64;
                let x1 = (x0 | (x0 << 24u64)) & 0x000000FF000000FF;
                let x2 = (x1 | (x1 << 12u64)) & 0x000F000F000F000F;
                let x3 = (x2 | (x2 << 6u64)) & 0x0303030303030303;
                (x3 | (x3 << 3u64)) & 0x1111111111111111
            }),
            e == (a & 0x1FFF) as u64,
            p1 == clmul(e, e, 13),
            s1 == reduce(p1, 0x201B, 13, 12),
            p2 == clmul(s1, s1, 13),
    ;
}

/// The double square `(in^2)^2` of the field element given by the low
/// thirteen bits of `input`, by spreading each bit four places apart and
/// folding four times.
pub fn gf_sq2(input: Gf) -> (r: Gf)
    ensures
        r as u64 == fmul(fmul(elem(input), elem(input)), fmul(elem(input), elem(input))),
        r < 8192,
{
    let mut x: u64 = input as u64;
    x = (x | (x << 24u64)) & 0x000000FF000000FF;
    x = (x | (x << 12u64)) & 0x000F000F000F000F;
    x = (x | (x << 6u64)) & 0x0303030303030303;
    x = (x | (x << 3u64)) & 0x1111111111111111;
    let ghost spread = x;
    x = fold_pass(x, 0x0001FF0000000000);
    x = fold_pass(x, 0x000000FF80000000);
    x = fold_pass(x, 0x000000007FC00000);
    x = fold_pass(x, 0x00000000003FE000);
    proof {
        let e = elem(input);
        let p1 = clmul(e, e, 13);
        let s1 = reduce(p1, POLY, 13, 12);
        lemma_sq2(input, spread, p1, s1, clmul(s1, s1, 13));
    }
    low_bits(x)
}

/// One folding pass: the bits of `x` selected by `m` are carried down by
/// `x^13 = x^4 + x^3 + x + 1`.
fn fold_pass(x: u64, m: u64) -> (r: u64)
    ensures
        r == fold(x, m),
{
    let t: u64 = x & m;
    x ^ ((t >> 9u64) ^ (t >> 10u64) ^ (t >> 12u64) ^ (t >> 13u64))
}

/// The low thirteen bits of `x`, as a field element.
fn low_bits(x: u64) -> (r: Gf)
    ensures
        r as u64 == x & 0x1FFF,
        r < 8192,
{
    let low: u64 = x & (GFMASK as u64);
    assert(low < 8192) by (bit_vector)
        requires
            low == x & 0x1FFF,
    ;
    low as u16
}

/// The square of `input` multiplied by `m`, `input^2 * m`.
pub fn gf_sqmul(input: Gf, m: Gf) -> (r: Gf)
    ensures
        r < 8192,
        input < 8192 && m < 8192 ==> r as u64 == fmul(
            fmul(input as u64, input as u64),
            m as u64,
        ),
        input == 0 ==> r == 0,
{
    let sq: Gf = gf_mul(input, input);
    proof {
        if input < 8192 {
            lemma_elem(input);
        }
        if m < 8192 {
            lemma_elem(m);
        }
        lemma_mul_laws(0, 0, m);
    }
    gf_mul(sq, m)
}

/// The double square of `input` multiplied by `m`, `(input^2)^2 * m`, the
/// first factor taken by its low thirteen bits.
pub fn gf_sq2mul(input: Gf, m: Gf) -> (r: Gf)
    ensures
        r < 8192,
        m < 8192 ==> r as u64 == fmul(
            fmul(fmul(elem(input), elem(input)), fmul(elem(input), elem(input))),
            m as u64,
        ),
{
    let sq2: Gf = gf_sq2(input);
    proof {
        if m < 8192 {
            lemma_elem(m);
        }
    }
    gf_mul(sq2, m)
}

/// The fourth power of a field element.
pub open spec fn fsq2(a: u64) -> u64 {
    fmul(fmul(a, a), fmul(a, a))
}

/// `a^(2^13 - 2)`, the multiplicative inverse of a non-zero `a`, along the
/// chain of exponents 3, 15, 255, 4095, 8190.
pub open spec fn finv13(a: u64) -> u64 {
    let e3 = fmul(fmul(a, a), a);
    let e15 = fmul(fsq2(e3), e3);
    let e255 = fmul(fsq2(fsq2(e15)), e15);
    let e4095 = fmul(fsq2(fsq2(e255)), e15);
    fmul(e4095, e4095)
}

/// The quotient `num / den`, computed as `den^(2^13 - 2) * num`; a zero
/// denominator gives zero.
pub fn gf_frac(den: Gf, num: Gf) -> (r: Gf)
    ensures
        r < 8192,
        den < 8192 && num < 8192 ==> r as u64 == fmul(finv13(den as u64), num as u64),
        den < 8192 ==> finv13(den as u64) < 8192,
        den == 0 ==> r == 0,
{
    let ghost a = den as u64;
    let tmp_11: Gf = gf_sqmul(den, den);
    proof {
        lemma_elem(tmp_11);
    }
    let tmp_1111: Gf = gf_sq2mul(tmp_11, tmp_11);
    proof {
        lemma_elem(tmp_1111);
    }
    let mut out: Gf = gf_sq2(tmp_1111);
    proof {
        lemma_elem(out);
    }
    out = gf_sq2mul(out, tmp_1111);
    proof {
        lemma_elem(out);
    }
    out = gf_sq2(out);
    proof {
        lemma_elem(out);
    }
    let ghost e255 = out;
    out = gf_sq2mul(out, tmp_1111);
    proof {
        lemma_elem(out);
        if den < 8192 {
            let e3 = fmul(fmul(a, a), a);
            assert(tmp_11 as u64 == e3);
            let e15 = fmul(fsq2(e3), e3);
            assert(tmp_1111 as u64 == e15);
            assert(out as u64 == fmul(fsq2(fsq2(fmul(fsq2(fsq2(e15)), e15))), e15));
            assert(finv13(a) == fmul(out as u64, out as u64));
            lemma_mul_laws(out as u64, out as u64, 0);
        }
        if den == 0 {
            lemma_mul_laws(0, 0, 0);
            lemma_inv_zero();
        }
    }
    gf_sqmul(out, num)
}

/// The inverse of `den`, `den^(2^13 - 2)`; the inverse of zero is zero.
pub fn gf_inv(den: Gf) -> (r: Gf)
    ensures
        r < 8192,
        den < 8192 ==> r as u64 == finv13(den as u64),
        den == 0 ==> r == 0,
{
    let r: Gf = gf_frac(den, 1);
    proof {
        if den < 8192 {
            let v = finv13(den as u64);
            lemma_mul_laws(v, 0, 0);
        }
    }
    r
}

/// Zero is its own inverse.
pub proof fn lemma_inv_zero()
    ensures
        finv13(0) == 0,
{
    lemma_mul_laws(0, 0, 0);
}

/// Coefficient `k` of the schoolbook product of `a` and `b`, summed over the
/// coefficients `a[0..n]`.
pub open spec fn conv(a: Seq<u16>, b: Seq<u16>, k: int, n: nat) -> u16
    decreases n,
{
    if n == 0 {
        0
    } else {
        let i = n - 1;
        let c = conv(a, b, k, (n - 1) as nat);
        if 0 <= k - i < 128 {
            c ^ (fmul(a[i] as u64, b[k - i] as u64) as u16)
        } else {
            c
        }
    }
}

/// The schoolbook product of two polynomials of 128 coefficients.
pub open spec fn schoolbook(a: Seq<u16>, b: Seq<u16>) -> Seq<u16> {
    Seq::new(255, |k: int| conv(a, b, k, 128))
}

/// Reduction by `y^128 = y^7 + y^2 + y + 1`: the coefficients of degree `i`
/// down to 128 are carried down in turn, from the top.
pub open spec fn ext_reduce(p: Seq<u16>, i: nat) -> Seq<u16>
    decreases i,
{
    if i < 128 {
        p
    } else {
        let d = i - 128;
        let v = p[i as int];
        let q = p.update(d + 7, p[d + 7] ^ v).update(d + 2, p[d + 2] ^ v).update(
            d + 1,
            p[d + 1] ^ v,
        ).update(d, p[d] ^ v);
        ext_reduce(q, (i - 1) as nat)
    }
}

/// Whether every entry of `v` is a field element.
pub open spec fn all_elems(v: Seq<u16>) -> bool {
    forall|i: int| 0 <= i < v.len() ==> v[i] < 8192
}

/// Multiplication in GF((2^13)^128): the schoolbook product of the two
/// coefficient arrays, reduced by `y^128 = y^7 + y^2 + y + 1`.
#[allow(non_snake_case)]
pub fn GF_mul(out: &mut [Gf; SYS_T], in0: &[Gf; SYS_T], in1: &[Gf; SYS_T])
    requires
        all_elems(in0@),
        all_elems(in1@),
    ensures
        forall|k: int|
            0 <= k < 128 ==> final(out)@[k] == ext_reduce(schoolbook(in0@, in1@), 254)[k],
        forall|k: int| 0 <= k < 128 ==> final(out)@[k] < 8192,
{
    let mut prod: [Gf; 255] = [0; 255];
    let mut i: usize = 0;
    while i < SYS_T
        invariant
            i <= SYS_T,
            all_elems(in0@),
            all_elems(in1@),
            forall|k: int| 0 <= k < 255 ==> prod@[k] < 8192,
            forall|k: int| 0 <= k < 255 ==> prod@[k] == conv(in0@, in1@, k, i as nat),
        decreases SYS_T - i,
    {
        let mut j: usize = 0;
        while j < SYS_T
            invariant
                i < SYS_T,
                j <= SYS_T,
                all_elems(in0@),
                all_elems(in1@),
                forall|k: int| 0 <= k < 255 ==> prod@[k] < 8192,
                forall|k: int|
                    0 <= k < 255 ==> prod@[k] == (if i <= k < i + j {
                        conv(in0@, in1@, k, (i + 1) as nat)
                    } else {
                        conv(in0@, in1@, k, i as nat)
                    }),
            decreases SYS_T - j,
        {
            proof {
                lemma_elem(in1@[j as int]);
            }
            let p: Gf = gf_mul(in0[i], in1[j]);
            let cur: Gf = prod[i + j];
            proof {
                lemma_add_elem(cur, p);
            }
            prod[i + j] = cur ^ p;
            j = j + 1;
        }
        i = i + 1;
    }
    let ghost full = prod@;
    assert(full =~= schoolbook(in0@, in1@));
    let mut i: usize = (SYS_T - 1) * 2;
    while i >= SYS_T
        invariant
            SYS_T - 1 <= i <= (SYS_T - 1) * 2,
            forall|k: int| 0 <= k < 255 ==> prod@[k] < 8192,
            ext_reduce(prod@, i as nat) == ext_reduce(full, 254),
        decreases i,
    {
        let top: Gf = prod[i];
        let d: usize = i - SYS_T;
        let c: Gf = prod[d + 7];
        proof { lemma_add_elem(c, top); }
        prod[d + 7] = c ^ top;
        let c: Gf = prod[d + 2];
        proof { lemma_add_elem(c, top); }
        prod[d + 2] = c ^ top;
        let c: Gf = prod[d + 1];
        proof { lemma_add_elem(c, top); }
        prod[d + 1] = c ^ top;
        let c: Gf = prod[d];
        proof { lemma_add_elem(c, top); }
        prod[d] = c ^ top;
        i = i - 1;
    }
    let mut i: usize = 0;
    while i < SYS_T
        invariant
            i <= SYS_T,
            forall|k: int| 0 <= k < 255 ==> prod@[k] < 8192,
            prod@ == ext_reduce(full, 254),
            forall|k: int| 0 <= k < i ==> out@[k] < 8192,
            forall|k: int| 0 <= k < i ==> out@[k] == prod@[k],
        decreases SYS_T - i,
    {
        out[i] = prod[i];
        i = i + 1;
    }
}

/// Multiplication of field elements is commutative, has one as identity and
/// zero as absorbing element; a zero second factor gives zero whatever the
/// first.
#[verifier::rlimit(20)]
pub proof fn lemma_mul_laws(a: u64, b: u64, x: u16)
    requires
        a < 8192,
        b < 8192,
    ensures
        fmul(a, b) == fmul(b, a),
        fmul(a, 1) == a,
        fmul(a, 0) == 0,
        fmul(0, a) == 0,
        fold13(clmul(x as u64, 0, 13)) == 0,
        fold13(clmul(0, elem(x), 13)) == 0,
        fmul(a, b) < 8192,
{
    assert(clmul(a, b, 13) < 0x200_0000 && clmul(a, b, 13) == clmul(b, a, 13) && clmul(a, 1, 13) == a && clmul(a, 0, 13) == 0
        && clmul(0, a, 13) == 0 && reduce(a, 0x201B, 13, 12) == a && reduce(0, 0x201B, 13, 12) == 0
        && fold13(clmul(x as u64, 0, 13)) == 0 && fold13(clmul(0, (x & 0x1FFF) as u64, 13)) == 0)
        by (bit_vector)
        requires
            a < 8192,
            b < 8192,
    ;
    lemma_fold(clmul(a, b, 13));
}

} // verus!
