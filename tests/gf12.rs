use classic_mceliece::gf12::{
    bitrev, gf_add, gf_frac, gf_inv, gf_iszero, gf_mul, gf_sq, load_gf, store_gf,
};

#[test]
fn test_load_gf() {
    assert_eq!(load_gf(&[0xAB, 0x42]), 0x02AB);
}

#[test]
fn gf12_test_gf_iszero() {
    const YES: u16 = 8191;
    const NO: u16 = 0;

    assert_eq!(gf_iszero(0), YES);
    assert_eq!(gf_iszero(1), NO);
    assert_eq!(gf_iszero(2), NO);
    assert_eq!(gf_iszero(3), NO);
    assert_eq!(gf_iszero(1024), NO);
    assert_eq!(gf_iszero(1025), NO);
    assert_eq!(gf_iszero(65535), NO);
}

#[test]
fn gf12_test_gf_add() {
    assert_eq!(gf_add(0x0000, 0x0000), 0x0000);
    assert_eq!(gf_add(0x0000, 0x0001), 0x0001);
    assert_eq!(gf_add(0x0001, 0x0000), 0x0001);
    assert_eq!(gf_add(0x0001, 0x0001), 0x0000);
    assert_eq!(gf_add(0x000F, 0x0000), 0x000F);
    assert_eq!(gf_add(0x000F, 0x0001), 0x000E);
    assert_eq!(gf_add(0x00FF, 0x0100), 0x01FF);
    assert_eq!(gf_add(0xF0F0, 0x0F0F), 0x0FFF);
}

#[test]
fn gf12_test_gf_mul() {
    assert_eq!(gf_mul(0, 0), 0);
    assert_eq!(gf_mul(0, 1), 0);
    assert_eq!(gf_mul(1, 0), 0);
    assert_eq!(gf_mul(0, 5), 0);
    assert_eq!(gf_mul(5, 0), 0);
    assert_eq!(gf_mul(0, 1024), 0);
    assert_eq!(gf_mul(1024, 0), 0);
    assert_eq!(gf_mul(2, 6), 12);
    assert_eq!(gf_mul(6, 2), 12);
    assert_eq!(gf_mul(3, 8), 24);
    assert_eq!(gf_mul(8, 3), 24);
    assert_eq!(gf_mul(125, 19), 1879);
    assert_eq!(gf_mul(19, 125), 1879);
    assert_eq!(gf_mul(125, 37), 3625);
    assert_eq!(gf_mul(37, 125), 3625);
    assert_eq!(gf_mul(4095, 1), 4095);
    assert_eq!(gf_mul(1, 4095), 4095);
    assert_eq!(gf_mul(8191, 1), 4086);
    assert_eq!(gf_mul(1, 8191), 4095);
}

#[test]
fn test_gf_sq() {
    assert_eq!(gf_sq(0), 0);
    assert_eq!(gf_sq(1), 1);
    assert_eq!(gf_sq(2), 4);
    assert_eq!(gf_sq(3), 5);
    assert_eq!(gf_sq(4), 16);
    assert_eq!(gf_sq(4095), 2746);
    assert_eq!(gf_sq(4096), 0);
    assert_eq!(gf_sq(8191), 2746);
    assert_eq!(gf_sq(8192), 0);
    assert_eq!(gf_sq(0xFFFF), 2746);
}

#[test]
fn gf12_test_gf_frac() {
    assert_eq!(gf_frac(1, 6733), 2637);
    assert_eq!(gf_frac(2, 0), 0);
    assert_eq!(gf_frac(2, 4), 2);
    assert_eq!(gf_frac(2, 4096), 0);
    assert_eq!(gf_frac(3, 9), 7);
    assert_eq!(gf_frac(5, 4591), 99);
    assert_eq!(gf_frac(550, 10), 3344);
    assert_eq!(gf_frac(5501, 3), 1763);
}

#[test]
fn gf12_test_gf_inv() {
    assert_eq!(gf_inv(0), 0);
    assert_eq!(gf_inv(1), 1);
    assert_eq!(gf_inv(2), 2052);
    assert_eq!(gf_inv(3), 4088);
    assert_eq!(gf_inv(4), 1026);
    assert_eq!(gf_inv(4095), 1539);
    assert_eq!(gf_inv(4096), 0);
    assert_eq!(gf_inv(8191), 1539);
    assert_eq!(gf_inv(8192), 0);
    assert_eq!(gf_inv(0xFFFF), 1539);
}

#[test]
fn test_bitrev() {
    assert_eq!(bitrev(0b1011_0111_0111_1011), 0b0000_1101_1110_1110);
    assert_eq!(bitrev(0b0110_1010_0101_1011), 0b0000_1101_1010_0101);
}

#[test]
fn gf12_store_then_load() {
    let mut buf = [0u8; 2];
    store_gf(&mut buf, 0x0ABC);
    assert_eq!(buf, [0xBC, 0x0A]);
    assert_eq!(load_gf(&buf), 0x0ABC);
    store_gf(&mut buf, 0xFFFF);
    assert_eq!(buf, [0xFF, 0xFF]);
    assert_eq!(load_gf(&buf), 0x0FFF);
}

#[test]
fn gf12_field_laws_on_samples() {
    let samples: [u16; 8] = [0, 1, 2, 3, 125, 2048, 3000, 4095];
    for &a in samples.iter() {
        assert_eq!(gf_add(a, 0), a);
        assert_eq!(gf_add(a, a), 0);
        assert_eq!(gf_mul(a, 1), a);
        assert_eq!(gf_mul(a, 0), 0);
        assert_eq!(gf_sq(a), gf_mul(a, a));
        for &b in samples.iter() {
            assert_eq!(gf_add(a, b), gf_add(b, a));
            assert_eq!(gf_mul(a, b), gf_mul(b, a));
            assert_eq!(gf_frac(a, b), gf_mul(gf_inv(a), b));
        }
    }
    assert_eq!(gf_inv(0), 0);
}

#[test]
fn gf12_every_nonzero_element_has_its_inverse() {
    for a in 1u16..4096 {
        assert_eq!(gf_mul(a, gf_inv(a)), 1);
    }
}

#[test]
fn gf12_outputs_are_masked() {
    let wide: [u16; 6] = [4096, 5000, 8191, 12345, 40000, 65535];
    for &a in wide.iter() {
        assert!(gf_sq(a) < 4096);
        assert!(gf_inv(a) < 4096);
        assert!(bitrev(a) < 4096);
        assert!(gf_iszero(a) == 0);
        for &b in wide.iter() {
            assert!(gf_mul(a, b) < 4096);
            assert!(gf_frac(a, b) < 4096);
        }
    }
}

#[test]
fn gf12_inversion_undoes_itself_and_multiplication_distributes() {
    for a in 0u16..4096 {
        assert_eq!(gf_inv(gf_inv(a)), a);
    }
    let samples: [u16; 6] = [0, 1, 77, 2048, 4095, 9000];
    for &a in samples.iter() {
        for &b in samples.iter() {
            for &c in samples.iter() {
                assert_eq!(gf_mul(a ^ b, c), gf_mul(a, c) ^ gf_mul(b, c));
                assert_eq!(gf_mul(a, b ^ c), gf_mul(a, b) ^ gf_mul(a, c));
            }
        }
        assert_eq!(gf_mul(a, 0), 0);
    }
}
