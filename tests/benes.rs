use classic_mceliece::benes::{apply_benes, support_gen, SYS_N};
use classic_mceliece::gf12::bitrev;

fn bit(p: &[u8; 512], i: usize) -> u8 {
    (p[i / 8] >> (i % 8)) & 1
}

// Follows the positions through the network, one conditional swap at a time.
fn reference_permutation(c: &[u8; 5888]) -> Vec<usize> {
    let mut pos: Vec<usize> = (0..4096).collect();
    let mut index = 0;
    for k in 0..23 {
        let s = if k < 12 { k } else { 22 - k };
        let stride = 1usize << s;
        let mut i = 0;
        while i < 4096 {
            for j in 0..stride {
                if (c[index / 8] >> (index % 8)) & 1 == 1 {
                    pos.swap(i + j, i + j + stride);
                }
                index += 1;
            }
            i += 2 * stride;
        }
    }
    pos
}

fn control_bits(seed: u32) -> [u8; 5888] {
    let mut c = [0u8; 5888];
    let mut x = seed;
    for b in c.iter_mut() {
        x = x.wrapping_mul(1103515245).wrapping_add(12345);
        *b = (x >> 16) as u8;
    }
    c
}

#[test]
fn network_matches_reference_permutation() {
    let c = control_bits(7);
    let perm = reference_permutation(&c);
    let mut plane = [0u8; 512];
    for i in 0..4096 {
        if i % 3 == 0 || i % 7 == 1 {
            plane[i / 8] |= 1 << (i % 8);
        }
    }
    let before = plane;
    apply_benes(&mut plane, &c);
    for i in 0..4096 {
        assert_eq!(bit(&plane, i), bit(&before, perm[i]));
    }
}

#[test]
fn zero_control_bits_leave_the_plane() {
    let c = [0u8; 5888];
    let mut plane = [0u8; 512];
    for i in 0..512 {
        plane[i] = (i * 37) as u8;
    }
    let before = plane;
    apply_benes(&mut plane, &c);
    assert_eq!(plane, before);
}

#[test]
fn support_is_permuted_bit_reversal() {
    let c = control_bits(99);
    let perm = reference_permutation(&c);
    let mut s = [0u16; SYS_N];
    support_gen(&mut s, &c);
    for i in 0..SYS_N {
        assert_eq!(s[i], bitrev(perm[i] as u16));
    }
}

#[test]
fn support_with_zero_control_bits() {
    let c = [0u8; 5888];
    let mut s = [0u16; SYS_N];
    support_gen(&mut s, &c);
    assert_eq!(&s[..6], &[0, 2048, 1024, 3072, 512, 2560]);
    for i in 0..SYS_N {
        assert_eq!(s[i], bitrev(i as u16));
    }
}
