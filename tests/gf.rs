use classic_mceliece::gf::{
    gf_add, gf_frac, gf_inv, gf_iszero, gf_mul, gf_sq2, gf_sq2mul, gf_sqmul, GF_mul,
};

#[test]
fn gf_test_gf_iszero() {
    let mut result_var = gf_iszero(0);
    assert_eq!(result_var, 8191);

    result_var = gf_iszero(1);
    assert_eq!(result_var, 0);

    result_var = gf_iszero(65535);
    assert_eq!(result_var, 0);
}

#[test]
fn gf_test_gf_add() {
    let mut result_var = gf_add(0, 1);
    assert_eq!(result_var, 1);

    result_var = gf_add(1, 0);
    assert_eq!(result_var, 1);

    result_var = gf_add(1, 1);
    assert_eq!(result_var, 0);

    result_var = gf_add(0, 0);
    assert_eq!(result_var, 0);
}

#[test]
fn gf_test_gf_mul() {
    let mut result_var = gf_mul(0, 5);
    assert_eq!(result_var, 0);

    result_var = gf_mul(2, 6);
    assert_eq!(result_var, 12);
}

#[test]
fn test_gf_sq2() {
    let mut result_var = gf_sq2(2);
    assert_eq!(result_var, 16);

    result_var = gf_sq2(3);
    assert_eq!(result_var, 17);

    result_var = gf_sq2(0);
    assert_eq!(result_var, 0);
}

#[test]
fn test_gf_sqmul() {
    let mut result_var = gf_sqmul(2, 2);
    assert_eq!(result_var, 8);

    result_var = gf_sqmul(2, 3);
    assert_eq!(result_var, 12);

    result_var = gf_sqmul(3, 2);
    assert_eq!(result_var, 10);

    result_var = gf_sqmul(0, 2);
    assert_eq!(result_var, 0);

    result_var = gf_sqmul(2, 0);
    assert_eq!(result_var, 0);
}

#[test]
fn test_gf_sq2mul() {
    let mut result_var = gf_sq2mul(2, 2);
    assert_eq!(result_var, 32);

    result_var = gf_sq2mul(2, 3);
    assert_eq!(result_var, 48);

    result_var = gf_sq2mul(3, 2);
    assert_eq!(result_var, 34);

    result_var = gf_sq2mul(4, 2);
    assert_eq!(result_var, 512);

    result_var = gf_sq2mul(5, 2);
    assert_eq!(result_var, 514);

    result_var = gf_sq2mul(5, 0);
    assert_eq!(result_var, 0);

    result_var = gf_sq2mul(0, 5);
    assert_eq!(result_var, 0);
}

#[test]
fn gf_test_gf_frac() {
    let mut result_var = gf_frac(0, 2);
    assert_eq!(result_var, 0);

    result_var = gf_frac(1, 5);
    assert_eq!(result_var, 5);

    result_var = gf_frac(2, 1);
    assert_eq!(result_var, 4109);
}

#[test]
fn gf_test_gf_inv() {
    let mut result_var = gf_inv(0);
    assert_eq!(result_var, 0);

    result_var = gf_inv(1);
    assert_eq!(result_var, 1);

    result_var = gf_inv(2);
    assert_eq!(result_var, 4109);

    result_var = gf_inv(5);
    assert_eq!(result_var, 5467);
}

#[test]
fn gf13_fused_paths_agree_with_multiplication() {
    let samples: [u16; 7] = [0, 1, 2, 3, 77, 4096, 8191];
    for &a in samples.iter() {
        let sq = gf_mul(a, a);
        assert_eq!(gf_sq2(a), gf_mul(sq, sq));
        for &m in samples.iter() {
            assert_eq!(gf_sqmul(a, m), gf_mul(sq, m));
            assert_eq!(gf_sq2mul(a, m), gf_mul(gf_mul(sq, sq), m));
        }
    }
}

#[test]
fn gf13_every_nonzero_element_has_its_inverse() {
    for a in 1u16..8192 {
        assert_eq!(gf_mul(a, gf_inv(a)), 1);
        assert_eq!(gf_frac(a, 7), gf_mul(gf_inv(a), 7));
    }
}

#[test]
fn gf13_outputs_are_masked() {
    let wide: [u16; 5] = [8192, 9000, 16383, 40000, 65535];
    for &a in wide.iter() {
        assert!(gf_sq2(a) < 8192);
        assert!(gf_inv(a) < 8192);
        for &b in wide.iter() {
            assert!(gf_mul(a, b) < 8192);
            assert!(gf_sqmul(a, b) < 8192);
            assert!(gf_sq2mul(a, b) < 8192);
            assert!(gf_frac(a, b) < 8192);
        }
    }
}

#[test]
fn extension_multiply_by_one_and_by_y() {
    let mut a = [0u16; 128];
    for i in 0..128 {
        a[i] = ((i as u16) * 61 + 5) & 8191;
    }
    let mut one = [0u16; 128];
    one[0] = 1;
    let mut out = [0u16; 128];
    GF_mul(&mut out, &a, &one);
    assert_eq!(out, a);

    // multiplying by y shifts the coefficients up; y^128 = y^7 + y^2 + y + 1
    let mut y = [0u16; 128];
    y[1] = 1;
    GF_mul(&mut out, &a, &y);
    let top = a[127];
    let mut expected = [0u16; 128];
    for i in 1..128 {
        expected[i] = a[i - 1];
    }
    expected[0] ^= top;
    expected[1] ^= top;
    expected[2] ^= top;
    expected[7] ^= top;
    assert_eq!(out, expected);
}

#[test]
fn gf13_inversion_undoes_itself_and_zero_cases() {
    for a in 0u16..8192 {
        assert_eq!(gf_inv(gf_inv(a)), a);
    }
    for &x in [0u16, 5, 8191, 9000, 65535].iter() {
        assert_eq!(gf_mul(x, 0), 0);
        assert_eq!(gf_frac(0, x), 0);
    }
}
