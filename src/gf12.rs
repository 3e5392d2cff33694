//! The field GF(2^12) defined by `x^12 + x^3 + 1`, its elements held in the
//! low twelve bits of a `u16`.
use vstd::prelude::*;
use crate::poly::{clmul, reduce};

verus! {

/// A field element.
pub type Gf = u16;

/// Bits in a field element.
pub const GFBITS: usize = 12;

/// Mask of the bits that a field element may have set.
pub const GFMASK: usize = 4095;

/// Bytes of control bits for the permutation network on `2^GFBITS` positions.
pub const COND_BYTES: usize = 5888;

/// The defining polynomial `x^12 + x^3 + 1`.
pub const POLY: u64 = 0x1009;

/// An input read as a field element: its low twelve bits.
pub open spec fn elem(a: u16) -> u64 {
    (a & 0xFFF) as u64
}

/// The field product: the polynomial product reduced modulo `POLY`.
pub open spec fn fmul(a: u64, b: u64) -> u64 {
    reduce(clmul(a, b, 12), POLY, 12, 11)
}

/// `a^(2^12 - 2)`, the multiplicative inverse of a non-zero `a`, along the
/// chain of exponents 2, 3, 12, 15, 240, 255, 1020, 1023, 2046, 2047, 4094.
pub open spec fn finv(a: u64) -> u64 {
    let e3 = fmul(fmul(a, a), a);
    let e12 = fmul(fmul(e3, e3), fmul(e3, e3));
    let e15 = fmul(e12, e3);
    let e60 = fmul(fmul(e15, e15), fmul(e15, e15));
    let e240 = fmul(fmul(e60, e60), fmul(e60, e60));
    let e255 = fmul(e240, e15);
    let e1020 = fmul(fmul(e255, e255), fmul(e255, e255));
    let e1023 = fmul(e1020, e3);
    let e2047 = fmul(fmul(e1023, e1023), a);
    fmul(e2047, e2047)
}

/// The low `n` bits of `a` in reverse order.
pub open spec fn rev_bits(a: u64, n: nat) -> u64
    decreases n,
{
    if n == 0 {
        0
    } else {
        let i = (n - 1) as nat;
        rev_bits(a >> 1, i) | ((a & 1) << (i as u64))
    }
}

/// Two passes of folding, the bits of degree 14 to 22 and then those of
/// degree 12 and 13, carried down by `x^12 = x^3 + 1`, keeping the low twelve
/// bits.
pub open spec fn fold12(x: u64) -> u64 {
    let t = x & 0x7FC000;
    let y = x ^ (t >> 9) ^ (t >> 12);
    let t2 = y & 0x3000;
    (y ^ (t2 >> 9) ^ (t2 >> 12)) & 0xFFF
}

/// Folding gives a field element; it reads no bit above degree 22, and on a
/// product of two field elements it is the reduction modulo `POLY`.
proof fn lemma_fold(x: u64)
    ensures
        fold12(x) < 4096,
        fold12(x) == fold12(x & 0x7FFFFF),
        x < 0x80_0000 ==> fold12(x) == reduce(x, POLY, 12, 11),
{
    assert(fold12(x) < 4096 && fold12(x) == fold12(x & 0x7FFFFF) && (x < 0x80_0000 ==> fold12(x)
        == reduce(x, 0x1009, 12, 11))) by (bit_vector);
}

/// A field element is its own low twelve bits.
pub proof fn lemma_elem(a: u16)
    requires
        a < 4096,
    ensures
        elem(a) == a as u64,
{
    assert((a & 0xFFF) as u64 == a as u64) by (bit_vector)
        requires
            a < 4096,
    ;
}

/// Writes `a` to `dest`, low byte first.
pub fn store_gf(dest: &mut [u8; 2], a: Gf)
    ensures
        final(dest)@[0] as u16 == a & 0xFF,
        final(dest)@[1] as u16 == a >> 8,
{
    assert(a & 0xFF < 256 && a >> 8 < 256) by (bit_vector);
    dest[0] = (a & 0xFF) as u8;
    dest[1] = (a >> 8) as u8;
}

/// Reads a field element from two bytes, low byte first, keeping the low
/// twelve bits.
pub fn load_gf(src: &[u8; 2]) -> (r: Gf)
    ensures
        r == (src@[0] as u16 | ((src@[1] as u16) << 8)) & 0xFFF,
        r < 4096,
{
    let a: u16 = src[0] as u16 | ((src[1] as u16) << 8);
    assert(a & 0xFFF < 4096) by (bit_vector);
    a & (GFMASK as u16)
}

/// The all-ones mask 8191 when `a` is zero, and 0 otherwise.
pub fn gf_iszero(a: Gf) -> (r: Gf)
    ensures
        r == (if a == 0 { 8191u16 } else { 0u16 }),
{
    let t: u32 = (a as u32).wrapping_sub(1u32) >> 19u32;
    assert(((a as u32).wrapping_sub(1u32) >> 19u32) as u16 == (if a == 0 { 8191u16 } else { 0u16 }))
        by (bit_vector);
    t as u16
}

/// Field addition: bitwise exclusive or, keeping the low twelve bits.
pub fn gf_add(in0: Gf, in1: Gf) -> (r: Gf)
    ensures
        r == (in0 ^ in1) & 0xFFF,
        r < 4096,
{
    let r: u16 = (in0 ^ in1) & (GFMASK as u16);
    assert(r < 4096) by (bit_vector)
        requires
            r == (in0 ^ in1) & 0xFFF,
    ;
    r
}

/// One term of the schoolbook product: `a` shifted by `i` where bit `i` of
/// `b` is set.
pub(crate) proof fn lemma_mul_term(a: u64, b: u64, i: u64)
    requires
        a < 0x1_0000,
        i < 16,
    ensures
        a * (b & (1u64 << i)) < 0x1_0000_0000,
        (a * (b & (1u64 << i))) as u64 == (if (b >> i) & 1 == 1 { a << i } else { 0 }),
{
    assert(a * (b & (1u64 << i)) < 0x1_0000_0000 && (a * (b & (1u64 << i))) as u64 == (if (b
        >> i) & 1 == 1 {
        a << i
    } else {
        0
    })) by (bit_vector)
        requires
            a < 0x1_0000,
            i < 16,
    ;
}

/// Field multiplication. The second factor is taken by its low twelve bits
/// and the first as it is: the result is the folded carry-less product, which
/// for a first factor in the field is the field product.
pub fn gf_mul(in0: Gf, in1: Gf) -> (r: Gf)
    ensures
        r as u64 == fold12(clmul(in0 as u64, elem(in1), 12)),
        r < 4096,
        in0 < 4096 ==> r == fmul(in0 as u64, elem(in1)),
{
    let t0: u64 = in0 as u64;
    let t1: u64 = in1 as u64;
    proof {
        lemma_mul_term(t0, t1, 0);
        assert(clmul(t0, t1, 1) == clmul(t0, t1, 0) ^ (if (t1 >> 0u64) & 1 == 1 { t0 << 0u64 } else { 0 }));
        assert(t1 & (1u64 << 0u64) == t1 & 1 && 0u64 ^ ((t0 * (t1 & 1)) as u64) == (t0 * (t1
            & 1)) as u64) by (bit_vector);
    }
    let mut tmp: u64 = t0 * (t1 & 1);
    let mut i: usize = 1;
    while i < GFBITS
        invariant
            1 <= i <= GFBITS,
            t0 < 0x1_0000,
            tmp == clmul(t0, t1, i as nat),
        decreases GFBITS - i,
    {
        proof {
            lemma_mul_term(t0, t1, i as u64);
        }
        tmp = tmp ^ t0 * (t1 & (1u64 << i));
        i = i + 1;
    }
    let ghost product = tmp;
    let t: u64 = tmp & 0x7FC000;
    tmp = tmp ^ (t >> 9u64);
    tmp = tmp ^ (t >> 12u64);
    let t: u64 = tmp & 0x3000;
    tmp = tmp ^ (t >> 9u64);
    tmp = tmp ^ (t >> 12u64);
    let low: u64 = tmp & (GFMASK as u64);
    proof {
        let x = product;
        assert(low == fold12(x));
        assert(x == clmul(t0, (in1 & 0xFFF) as u64, 12) && (t0 < 4096 ==> x < 0x80_0000))
            by (bit_vector)
            requires
                x == clmul(t0, t1, 12),
                t1 == in1 as u64,
        ;
        lemma_fold(x);
    }
    low as u16
}

/// Squaring through bit spreading: the square of a binary polynomial has
/// bit `2i` equal to bit `i` of the polynomial, and no odd bits.
proof fn lemma_spread(a: u16, x: u64)
    requires
        x == ({
            let x0 = a as u64;
            let x1 = (x0 | (x0 << 8u64)) & 0x00FF00FF;
            let x2 = (x1 | (x1 << 4u64)) & 0x0F0F0F0F;
            let x3 = (x2 | (x2 << 2u64)) & 0x33333333;
            (x3 | (x3 << 1u64)) & 0x55555555
        }),
    ensures
        x & 0x7FFFFF == clmul(elem(a), elem(a), 12),
        x & 0x7FFFFF < 0x80_0000,
{
    let e = elem(a);
    assert(x & 0x7FFFFF == clmul(e, e, 12) && x & 0x7FFFFF < 0x80_0000) by (bit_vector)
        requires
            e == (a & 0xFFF) as u64,
            x == ({
                let x0 = a as u64;
                let x1 = (x0 | (x0 << 8u64)) & 0x00FF00FF;
                let x2 = (x1 | (x1 << 4u64)) & 0x0F0F0F0F;
                let x3 = (x2 | (x2 << 2u64)) & 0x33333333;
                (x3 | (x3 << 1u64)) & 0x55555555
            }),
    ;
}

/// The square of the field element given by the low twelve bits of `in0`.
pub fn gf_sq(in0: Gf) -> (r: Gf)
    ensures
        r as u64 == fmul(elem(in0), elem(in0)),
        r < 4096,
{
    let mut x: u64 = in0 as u64;
    x = (x | (x << 8u64)) & 0x00FF00FF;
    x = (x | (x << 4u64)) & 0x0F0F0F0F;
    x = (x | (x << 2u64)) & 0x33333333;
    x = (x | (x << 1u64)) & 0x55555555;
    let ghost spread = x;
    let t: u64 = x & 0x7FC000;
    x = x ^ (t >> 9u64);
    x = x ^ (t >> 12u64);
    let t: u64 = x & 0x3000;
    x = x ^ (t >> 9u64);
    x = x ^ (t >> 12u64);
    let low: u64 = x & (GFMASK as u64);
    proof {
        assert(low == fold12(spread));
        lemma_spread(in0, spread);
        lemma_fold(spread);
        lemma_fold(spread & 0x7FFFFF);
    }
    low as u16
}

/// The quotient `num / den`, the product of `num` with the inverse of `den`
/// (zero when `den` is zero).
pub fn gf_frac(den: Gf, num: Gf) -> (r: Gf)
    ensures
        r as u64 == fmul(finv(elem(den)), elem(num)),
        r < 4096,
{
    gf_mul(gf_inv(den), num)
}

/// The inverse of the field element given by the low twelve bits of `in0`,
/// computed as `in0^(2^12 - 2)`; the inverse of zero is zero.
pub fn gf_inv(in0: Gf) -> (r: Gf)
    ensures
        r as u64 == finv(elem(in0)),
        r < 4096,
{
    let ghost a = elem(in0);
    let mut out: Gf = gf_sq(in0);
    let tmp_11: Gf = gf_mul(out, in0);
    proof { lemma_elem(tmp_11); }
    out = gf_sq(tmp_11);
    proof { lemma_elem(out); }
    out = gf_sq(out);
    let tmp_1111: Gf = gf_mul(out, tmp_11);
    proof { lemma_elem(tmp_1111); }
    out = gf_sq(tmp_1111);
    proof { lemma_elem(out); }
    out = gf_sq(out);
    proof { lemma_elem(out); }
    out = gf_sq(out);
    proof { lemma_elem(out); }
    out = gf_sq(out);
    out = gf_mul(out, tmp_1111);
    proof { lemma_elem(out); }
    out = gf_sq(out);
    proof { lemma_elem(out); }
    out = gf_sq(out);
    out = gf_mul(out, tmp_11);
    proof { lemma_elem(out); }
    out = gf_sq(out);
    out = gf_mul(out, in0);
    proof { lemma_elem(out); }
    gf_sq(out)
}

/// Reverses the low twelve bits of `a`, dropping the others.
pub fn bitrev(a: Gf) -> (r: Gf)
    ensures
        r as u64 == rev_bits(a as u64, 12),
        r < 4096,
{
    let mut a: u16 = a;
    let ghost a0 = a;
    a = ((a & 0x00FF) << 8u16) | ((a & 0xFF00) >> 8u16);
    a = ((a & 0x0F0F) << 4u16) | ((a & 0xF0F0) >> 4u16);
    a = ((a & 0x3333) << 2u16) | ((a & 0xCCCC) >> 2u16);
    a = ((a & 0x5555) << 1u16) | ((a & 0xAAAA) >> 1u16);
    let r: u16 = a >> 4u16;
    assert(r as u64 == rev_bits(a0 as u64, 12) && r < 4096) by (bit_vector)
        requires
            r == ({
                let b1 = ((a0 & 0x00FF) << 8u16) | ((a0 & 0xFF00) >> 8u16);
                let b2 = ((b1 & 0x0F0F) << 4u16) | ((b1 & 0xF0F0) >> 4u16);
                let b3 = ((b2 & 0x3333) << 2u16) | ((b2 & 0xCCCC) >> 2u16);
                let b4 = ((b3 & 0x5555) << 1u16) | ((b3 & 0xAAAA) >> 1u16);
                b4 >> 4u16
            }),
    ;
    r
}

/// Addition is commutative, has zero as identity, and every element is its
/// own negative.
pub proof fn lemma_add_laws(a: u16, b: u16)
    ensures
        a ^ b == b ^ a,
        a ^ 0 == a,
        a ^ a == 0,
{
    assert(a ^ b == b ^ a && a ^ 0 == a && a ^ a == 0) by (bit_vector);
}

/// Multiplication of field elements is commutative, has one as identity and
/// zero as absorbing element; a zero second factor gives zero whatever the
/// first.
#[verifier::rlimit(20)]
pub proof fn lemma_mul_laws(a: u64, b: u64, x: u16)
    requires
        a < 4096,
        b < 4096,
    ensures
        fmul(a, b) == fmul(b, a),
        fmul(a, 1) == a,
        fmul(a, 0) == 0,
        fold12(clmul(x as u64, 0, 12)) == 0,
{
    assert(clmul(a, b, 12) == clmul(b, a, 12) && clmul(a, 1, 12) == a && clmul(a, 0, 12) == 0
        && reduce(a, 0x1009, 12, 11) == a && reduce(0, 0x1009, 12, 11) == 0 && fold12(
        clmul(x as u64, 0, 12),
    ) == 0) by (bit_vector)
        requires
            a < 4096,
            b < 4096,
    ;
}

/// Zero is its own inverse.
pub proof fn lemma_inv_zero()
    ensures
        finv(0) == 0,
{
    lemma_mul_laws(0, 0, 0);
}

/// The square of a field element is its product with itself, as the
/// results of `gf_sq` and `gf_mul` state them.
pub proof fn lemma_square_is_product(a: u16)
    requires
        a < 4096,
    ensures
        fmul(elem(a), elem(a)) == fmul(a as u64, elem(a)),
{
    lemma_elem(a);
}

/// Multiplication distributes over addition, and sums and products of field
/// elements are field elements.
#[verifier::rlimit(50)]
pub proof fn lemma_distrib(x: u64, y: u64, z: u64)
    requires
        x < 4096,
        y < 4096,
        z < 4096,
    ensures
        fmul(x ^ y, z) == fmul(x, z) ^ fmul(y, z),
        fmul(x, z) < 4096,
        x ^ y < 4096,
        x ^ y == y ^ x,
        x ^ 0 == x,
{
    let p1 = clmul(x, z, 12);
    let p2 = clmul(y, z, 12);
    let p3 = clmul(x ^ y, z, 12);
    assert(p3 == p1 ^ p2 && p1 < 0x80_0000 && p2 < 0x80_0000 && x ^ y < 4096 && x ^ y == y ^ x
        && x ^ 0 == x) by (bit_vector)
        requires
            x < 4096,
            y < 4096,
            z < 4096,
            p1 == clmul(x, z, 12),
            p2 == clmul(y, z, 12),
            p3 == clmul(x ^ y, z, 12),
    ;
    assert(reduce(p1 ^ p2, 0x1009, 12, 11) == reduce(p1, 0x1009, 12, 11) ^ reduce(p2, 0x1009, 12, 11)
        && reduce(p1, 0x1009, 12, 11) < 4096) by (bit_vector)
        requires
            p1 < 0x80_0000,
            p2 < 0x80_0000,
    ;
}

} // verus!
