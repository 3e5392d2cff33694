//! A Benes network of conditional swaps on `2^12` bit positions, and the
//! generation of the code's support from it by bit slicing.
use vstd::prelude::*;
use crate::gf12::{bitrev, rev_bits, Gf, COND_BYTES, GFBITS};

verus! {

/// Length of the support: the number of field elements it lists.
pub const SYS_N: usize = 3488;

/// Bytes in one bit plane of `2^12` positions.
pub const PLANE_BYTES: usize = 512;

/// Conditional swaps in one layer of the network.
pub const LAYER_SWAPS: usize = 2048;

/// Layers in the network: `2 * GFBITS - 1`.
pub const LAYERS: usize = 23;

/// Bit `i` of a packed array, least significant bit of each byte first.
pub open spec fn bit_of(p: Seq<u8>, i: int) -> u8 {
    (p[i / 8] >> ((i % 8) as u8)) & 1
}

/// The stride exponent of layer `k`: 0, 1, ..., 11, then 10, ..., 0.
pub open spec fn stride_log(k: int) -> int {
    if k < 12 { k } else { 22 - k }
}

/// The two positions joined by swap `q` of a layer whose stride is `2^s`:
/// swaps are enumerated block by block, each block of `2^(s+1)` positions
/// pairing each of its first `2^s` positions with the one `2^s` further on.
pub open spec fn pair_low(q: usize, s: usize) -> usize {
    ((q >> s) << ((s + 1) as usize)) | (q & (((1usize << s) - 1) as usize))
}

proof fn lemma_pair(q: usize, s: usize)
    requires
        q < 2048,
        s < 12,
    ensures
        pair_low(q, s) < 4096,
        pair_low(q, s) + (1usize << s) < 4096,
        pair_low(q, s) & (1usize << s) == 0,
{
    assert(pair_low(q, s) < 4096 && pair_low(q, s) + (1usize << s) < 4096 && pair_low(q, s) & (
    1usize << s) == 0) by (bit_vector)
        requires
            q < 2048,
            s < 12,
    ;
}

/// Whether control bit `n` of `c` is set.
pub open spec fn control_bit(c: Seq<u8>, n: int) -> bool {
    (c[n / 8] >> ((n % 8) as u8)) & 1 == 1
}

/// The lower of the two positions joined by swap `n` of the whole network
/// (swap `n % 2048` of layer `n / 2048`).
pub open spec fn swap_low(n: int) -> int {
    pair_low((n % 2048) as usize, stride_log(n / 2048) as usize) as int
}

/// The higher of the two positions joined by swap `n` of the whole network.
pub open spec fn swap_high(n: int) -> int {
    swap_low(n) + (1usize << (stride_log(n / 2048) as usize)) as int
}

/// After the first `n` swaps of the network, position `i` holds what
/// position `net_perm_after(c, n)[i]` held at the start.
pub open spec fn net_perm_after(c: Seq<u8>, n: nat) -> Seq<int>
    decreases n,
{
    if n == 0 {
        Seq::new(4096, |i: int| i)
    } else {
        let m = (n - 1) as int;
        let p = net_perm_after(c, (n - 1) as nat);
        if control_bit(c, m) {
            p.update(swap_low(m), p[swap_high(m)]).update(swap_high(m), p[swap_low(m)])
        } else {
            p
        }
    }
}

/// The permutation that the whole network, all 23 layers of 2048 swaps,
/// applies under the control bits `c`.
pub open spec fn net_perm(c: Seq<u8>) -> Seq<int> {
    net_perm_after(c, 47104)
}

proof fn lemma_swap_in_range(n: int)
    requires
        0 <= n < 47104,
    ensures
        0 <= swap_low(n) < swap_high(n) < 4096,
{
    lemma_pair((n % 2048) as usize, stride_log(n / 2048) as usize);
    let s = stride_log(n / 2048) as usize;
    assert(1usize << s >= 1) by (bit_vector)
        requires
            s < 12,
    ;
}

/// The partial network maps the positions onto positions.
proof fn lemma_perm_range(c: Seq<u8>, n: nat)
    requires
        n <= 47104,
    ensures
        net_perm_after(c, n).len() == 4096,
        forall|i: int| 0 <= i < 4096 ==> 0 <= #[trigger] net_perm_after(c, n)[i] < 4096,
    decreases n,
{
    if n > 0 {
        lemma_perm_range(c, (n - 1) as nat);
        lemma_swap_in_range(n - 1);
    }
}

/// Flipping bit `i` of a plane by `d` changes that bit alone.
proof fn lemma_flip(p: Seq<u8>, i: int, d: u8, t: int)
    requires
        p.len() == 512,
        0 <= i < 4096,
        0 <= t < 4096,
        d <= 1,
    ensures
        bit_of(p.update(i / 8, p[i / 8] ^ (d << ((i % 8) as u8))), t) == (if t == i {
            bit_of(p, i) ^ d
        } else {
            bit_of(p, t)
        }),
{
    if t / 8 == i / 8 {
        let x = p[i / 8];
        let si = (i % 8) as u8;
        let st = (t % 8) as u8;
        assert(t == i <==> si == st);
        assert(((x ^ (d << si)) >> st) & 1 == (if si == st {
            ((x >> st) & 1) ^ d
        } else {
            (x >> st) & 1
        })) by (bit_vector)
            requires
                d <= 1,
                si < 8,
                st < 8,
        ;
    }
}

/// Reads bit `i` of a plane.
fn get_bit(p: &[u8; PLANE_BYTES], i: usize) -> (r: u8)
    requires
        i < 4096,
    ensures
        r == bit_of(p@, i as int),
        r <= 1,
{
    let b: u8 = p[i / 8];
    let r: u8 = (b >> ((i % 8) as u8)) & 1;
    assert(r <= 1) by (bit_vector)
        requires
            r == (b >> ((i % 8) as u8)) & 1,
    ;
    r
}

/// Applies the network to the plane `r`: layer `k` uses the control bits
/// `2048 * k` to `2048 * k + 2047` of `bits`, and swap `q` of the layer
/// exchanges the two positions it joins exactly when its control bit is set.
/// Every swap is a masked exchange, with no branch on the data.
pub fn apply_benes(r: &mut [u8; PLANE_BYTES], bits: &[u8; COND_BYTES])
    ensures
        forall|i: int|
            0 <= i < 4096 ==> bit_of(final(r)@, i) == bit_of(old(r)@, net_perm(bits@)[i]),
{
    let ghost r0 = r@;
    proof {
        lemma_perm_range(bits@, 0);
        assert(net_perm_after(bits@, 0) =~= Seq::new(4096, |i: int| i));
    }
    let mut k: usize = 0;
    while k < LAYERS
        invariant
            k <= LAYERS,
            r0.len() == 512,
            forall|i: int|
                0 <= i < 4096 ==> bit_of(r@, i) == bit_of(
                    r0,
                    #[trigger] net_perm_after(bits@, (k * 2048) as nat)[i],
                ),
        decreases LAYERS - k,
    {
        let s: usize = if k < 12 { k } else { 22 - k };
        let stride: usize = 1usize << s;
        assert(stride >= 1) by (bit_vector)
            requires
                stride == 1usize << s,
                s < 12,
        ;
        let mut q: usize = 0;
        while q < LAYER_SWAPS
            invariant
                k < LAYERS,
                s == stride_log(k as int),
                s < 12,
                stride == 1usize << s,
                stride >= 1,
                q <= LAYER_SWAPS,
                r0.len() == 512,
                forall|i: int|
                    0 <= i < 4096 ==> bit_of(r@, i) == bit_of(
                        r0,
                        #[trigger] net_perm_after(bits@, (k * 2048 + q) as nat)[i],
                    ),
            decreases LAYER_SWAPS - q,
        {
            proof {
                lemma_pair(q, s);
            }
            let a: usize = ((q >> s) << (s + 1)) | (q & (stride - 1));
            let b: usize = a + stride;
            let index: usize = k * LAYER_SWAPS + q;
            let ghost n = index as int;
            let ghost p = net_perm_after(bits@, n as nat);
            proof {
                assert(n as nat == (k * 2048 + q) as nat);
                assert(a == pair_low(q, s));
                assert(n / 2048 == k && n % 2048 == q);
                assert(swap_low(n) == a && swap_high(n) == b);
                lemma_perm_range(bits@, n as nat);
                lemma_perm_range(bits@, (n + 1) as nat);
            }
            let cb: u8 = bits[index / 8];
            let sh: u8 = (index % 8) as u8;
            let m: u8 = (cb >> sh) & 1;
            assert(m <= 1) by (bit_vector)
                requires
                    m == (cb >> sh) & 1,
            ;
            let xa: u8 = get_bit(r, a);
            let xb: u8 = get_bit(r, b);
            let d: u8 = (xa ^ xb) & m;
            assert(d <= 1 && (m == 1 ==> xa ^ d == xb && xb ^ d == xa) && (m == 0 ==> d == 0))
                by (bit_vector)
                requires
                    xa <= 1,
                    xb <= 1,
                    d == (xa ^ xb) & m,
            ;
            let ghost before = r@;
            let ba: u8 = r[a / 8] ^ (d << ((a % 8) as u8));
            r[a / 8] = ba;
            let ghost middle = r@;
            let bb: u8 = r[b / 8] ^ (d << ((b % 8) as u8));
            r[b / 8] = bb;
            proof {
                assert forall|i: int| 0 <= i < 4096 implies bit_of(r@, i) == bit_of(
                    r0,
                    #[trigger] net_perm_after(bits@, (k * 2048 + q + 1) as nat)[i],
                ) by {
                    assert(bit_of(before, i) == bit_of(r0, p[i]));
                    assert(bit_of(before, a as int) == bit_of(r0, p[a as int]));
                    assert(bit_of(before, b as int) == bit_of(r0, p[b as int]));
                    assert((k * 2048 + q + 1) as nat == (n + 1) as nat);
                    lemma_flip(before, a as int, d, i);
                    lemma_flip(before, a as int, d, b as int);
                    lemma_flip(middle, b as int, d, i);
                    assert(middle == before.update(a as int / 8, before[a as int / 8] ^ (d << ((a as int % 8) as u8))));
                    assert(r@ == middle.update(b as int / 8, middle[b as int / 8] ^ (d << ((b as int % 8) as u8))));
                    assert(bit_of(middle, i) == (if i == a { bit_of(before, a as int) ^ d } else { bit_of(before, i) }));
                    assert(bit_of(r@, i) == (if i == b { bit_of(middle, b as int) ^ d } else { bit_of(middle, i) }));
                    assert(p.len() == 4096 && a < b);
                    let np = net_perm_after(bits@, (n + 1) as nat);
                    if m == 1 {
                        assert(np == p.update(a as int, p[b as int]).update(b as int, p[a as int]));
                        if i == a {
                            assert(np[i] == p[b as int]);
                        } else if i == b {
                            assert(np[i] == p[a as int]);
                        } else {
                            assert(np[i] == p[i]);
                        }
                    } else {
                        assert(np == p);
                        assert(d == 0);
                        assert(bit_of(before, a as int) ^ 0 == bit_of(before, a as int)) by {
                            let x = bit_of(before, a as int);
                            assert(x ^ 0 == x) by (bit_vector);
                        }
                        assert(bit_of(middle, b as int) ^ 0 == bit_of(middle, b as int)) by {
                            let x = bit_of(middle, b as int);
                            assert(x ^ 0 == x) by (bit_vector);
                        }
                    }
                    assert(net_perm_after(bits@, (n + 1) as nat) == (if control_bit(bits@, n) {
                        p.update(a as int, p[b as int]).update(b as int, p[a as int])
                    } else {
                        p
                    }));
                    assert(control_bit(bits@, n) <==> m == 1);
                }
            }
            q = q + 1;
        }
        assert((k * 2048 + q) as nat == ((k + 1) * 2048) as nat);
        k = k + 1;
    }
    assert((k * 2048) as nat == 47104);
}

/// Setting bit `i` of a plane to `v` changes that bit alone.
proof fn lemma_set(p: Seq<u8>, i: int, v: u8, t: int)
    requires
        p.len() == 512,
        0 <= i < 4096,
        0 <= t < 4096,
        v <= 1,
    ensures
        bit_of(p.update(i / 8, p[i / 8] | (v << ((i % 8) as u8))), t) == (if t == i {
            bit_of(p, i) | v
        } else {
            bit_of(p, t)
        }),
{
    if t / 8 == i / 8 {
        let x = p[i / 8];
        let si = (i % 8) as u8;
        let st = (t % 8) as u8;
        assert(t == i <==> si == st);
        assert(((x | (v << si)) >> st) & 1 == (if si == st {
            ((x >> st) & 1) | v
        } else {
            (x >> st) & 1
        })) by (bit_vector)
            requires
                v <= 1,
                si < 8,
                st < 8,
        ;
    }
}

/// A bit reversal of twelve bits is a field element.
proof fn lemma_rev_bound(v: u64)
    ensures
        rev_bits(v, 12) < 4096,
{
    assert(rev_bits(v, 12) < 4096) by (bit_vector);
}

/// The low `j` bits of `x`.
pub open spec fn low_bits_of(x: u64, j: u64) -> u64 {
    x & !(0xFFFF_FFFF_FFFF_FFFFu64 << j)
}

/// Adding bit `j` of `x` above its low `j` bits gives its low `j + 1` bits.
proof fn lemma_assemble(x: u64, cur: u16, v: u16, j: u16)
    requires
        x < 4096,
        j < 12,
        cur as u64 == low_bits_of(x, j as u64),
        v as u64 == (x >> (j as u64)) & 1,
    ensures
        (cur | (v << j)) as u64 == low_bits_of(x, (j + 1) as u64),
        cur | (v << j) < 4096,
{
    assert((cur | (v << j)) as u64 == (x & !(0xFFFF_FFFF_FFFF_FFFFu64 << ((j + 1) as u64)))
        && cur | (v << j) < 4096) by (bit_vector)
        requires
            x < 4096,
            j < 12,
            cur as u64 == x & !(0xFFFF_FFFF_FFFF_FFFFu64 << (j as u64)),
            v as u64 == (x >> (j as u64)) & 1,
    ;
}

/// The support that the control bits `c` define: position `i` holds the bit
/// reversal of the index that the network brings to position `i`.
pub open spec fn support_of(c: Seq<u8>, i: int) -> u64 {
    rev_bits(net_perm(c)[i] as u64, 12)
}

/// Generates the support from the control bits `c`: bit plane `j` first
/// holds bit `j` of the bit reversal of each index `0..2^12`, is permuted by
/// the network, and then supplies bit `j` of each element of `s`.
pub fn support_gen(s: &mut [Gf; SYS_N], c: &[u8; COND_BYTES])
    ensures
        forall|i: int| 0 <= i < SYS_N ==> final(s)@[i] as u64 == support_of(c@, i),
        forall|i: int| 0 <= i < SYS_N ==> final(s)@[i] < 4096,
{
    proof {
        lemma_perm_range(c@, 47104);
    }
    let mut i: usize = 0;
    while i < SYS_N
        invariant
            i <= SYS_N,
            forall|t: int| 0 <= t < i ==> s@[t] == 0,
        decreases SYS_N - i,
    {
        s[i] = 0;
        i = i + 1;
    }
    assert forall|t: int| 0 <= t < SYS_N implies s@[t] as u64 == low_bits_of(
        #[trigger] support_of(c@, t),
        0,
    ) by {
        let x = support_of(c@, t);
        assert(x & !(0xFFFF_FFFF_FFFF_FFFFu64 << 0u64) == 0) by (bit_vector);
    }
    let mut j: usize = 0;
    while j < GFBITS
        invariant
            j <= GFBITS,
            net_perm(c@).len() == 4096,
            forall|t: int| 0 <= t < 4096 ==> 0 <= #[trigger] net_perm(c@)[t] < 4096,
            forall|t: int|
                0 <= t < SYS_N ==> s@[t] as u64 == low_bits_of(
                    #[trigger] support_of(c@, t),
                    j as u64,
                ),
        decreases GFBITS - j,
    {
        let mut plane: [u8; 512] = [0; 512];
        let mut i: usize = 0;
        assert forall|t: int| 0 <= t < 4096 implies bit_of(plane@, t) == 0 by {
            let x = plane@[t / 8];
            let sh = (t % 8) as u8;
            assert((0u8 >> sh) & 1 == 0) by (bit_vector);
        }
        while i < 4096
            invariant
                j < GFBITS,
                i <= 4096,
                forall|t: int|
                    0 <= t < 4096 ==> bit_of(plane@, t) == (if t < i {
                        ((rev_bits(t as u64, 12) >> (j as u64)) & 1) as u8
                    } else {
                        0
                    }),
            decreases 4096 - i,
        {
            let a: Gf = bitrev(i as Gf);
            let bit16: u16 = (a >> (j as u16)) & 1;
            assert(bit16 <= 1 && bit16 as u64 == (a as u64 >> (j as u64)) & 1) by (bit_vector)
                requires
                    bit16 == (a >> (j as u16)) & 1,
                    j < 12,
            ;
            let bit: u8 = bit16 as u8;
            let ghost before = plane@;
            let cur: u8 = plane[i / 8];
            plane[i / 8] = cur | (bit << ((i % 8) as u8));
            proof {
                assert forall|t: int| 0 <= t < 4096 implies bit_of(plane@, t) == (if t < i + 1 {
                    ((rev_bits(t as u64, 12) >> (j as u64)) & 1) as u8
                } else {
                    0
                }) by {
                    lemma_set(before, i as int, bit, t);
                    if t == i {
                        assert(bit_of(before, t) == 0);
                        assert(0u8 | bit == bit) by (bit_vector);
                    }
                }
            }
            i = i + 1;
        }
        let ghost filled = plane@;
        apply_benes(&mut plane, c);
        let mut i: usize = 0;
        while i < SYS_N
            invariant
                j < GFBITS,
                i <= SYS_N,
                net_perm(c@).len() == 4096,
                forall|t: int| 0 <= t < 4096 ==> 0 <= #[trigger] net_perm(c@)[t] < 4096,
                forall|t: int|
                    0 <= t < 4096 ==> bit_of(plane@, t) == bit_of(filled, net_perm(c@)[t]),
                forall|t: int|
                    0 <= t < 4096 ==> bit_of(filled, t) == ((rev_bits(t as u64, 12) >> (j as u64))
                        & 1) as u8,
                forall|t: int|
                    i <= t < SYS_N ==> s@[t] as u64 == low_bits_of(
                        #[trigger] support_of(c@, t),
                        j as u64,
                    ),
                forall|t: int|
                    0 <= t < i ==> s@[t] as u64 == low_bits_of(
                        #[trigger] support_of(c@, t),
                        (j + 1) as u64,
                    ),
            decreases SYS_N - i,
        {
            let bit: u16 = get_bit(&plane, i) as u16;
            let cur: u16 = s[i];
            let jj: u16 = j as u16;
            proof {
                let x = support_of(c@, i as int);
                let pi = net_perm(c@)[i as int];
                lemma_rev_bound(pi as u64);
                assert(bit as u64 == (x >> (jj as u64)) & 1) by {
                    let b8 = bit_of(filled, pi);
                    assert(b8 == ((x >> (j as u64)) & 1) as u8);
                    assert((b8 as u16) as u64 == (x >> (j as u64)) & 1) by (bit_vector)
                        requires
                            b8 == ((x >> (j as u64)) & 1) as u8,
                    ;
                }
                lemma_assemble(x, cur, bit, jj);
            }
            s[i] = cur | (bit << jj);
            i = i + 1;
        }
        j = j + 1;
    }
    assert forall|t: int| 0 <= t < SYS_N implies #[trigger] s@[t] as u64 == support_of(c@, t)
        && s@[t] < 4096 by {
        let x = support_of(c@, t);
        let pi = net_perm(c@)[t];
        let v = s@[t];
        lemma_rev_bound(pi as u64);
        assert(x & !(0xFFFF_FFFF_FFFF_FFFFu64 << 12u64) == x) by (bit_vector)
            requires
                x < 4096,
        ;
    }
}

} // verus!
