use spiral_rs::arith::{
    add_modular, div2_uint_mod, exponentiate_uint_mod, invert_modular, log2, log2_ceil,
    log2_ceil_usize, modular_reduce, multiply_add_modular, multiply_modular, multiply_uint_mod,
    recenter, recenter_checked, reverse_bits,
};
use spiral_rs::params::Params;

fn tiny_params() -> Params {
    Params::new(2, vec![5, 7], 4, 3, 2, 2, 2, 2, 1, 1, 1, 1).expect("valid configuration")
}

#[test]
fn div2_uint_mod_correct() {
    assert_eq!(div2_uint_mod(3, 7), 5);
}

#[test]
fn multiply_uint_mod_matches_wide_reference() {
    let cases: [(u64, u64, u64); 6] = [
        (0, 0, 1),
        (3, 4, 7),
        (u64::MAX - 1, u64::MAX - 2, 0xffff_ffff_0000_0001),
        (0x1234_5678_9abc_def0, 0x0fed_cba9_8765_4321, 268369921),
        (u64::MAX, u64::MAX, u64::MAX),
        (1 << 63, 3, 1_000_003),
    ];
    for (a, b, m) in cases {
        let expected = ((a as u128 * b as u128) % m as u128) as u64;
        assert_eq!(multiply_uint_mod(a, b, m), expected);
    }
}

#[test]
fn exponentiate_zero_and_one_exponents() {
    for (a, m) in [(0u64, 2u64), (5, 7), (123456789, 97), (u64::MAX, 268369921)] {
        assert_eq!(exponentiate_uint_mod(a, 0, m), 1);
        assert_eq!(exponentiate_uint_mod(a, 1, m), a % m);
    }
}

#[test]
fn exponentiate_known_values() {
    assert_eq!(exponentiate_uint_mod(3, 5, 7), 5); // 243 mod 7
    assert_eq!(exponentiate_uint_mod(2, 10, 1_000_003), 1024);
    assert_eq!(exponentiate_uint_mod(7, 64, 13), {
        let mut acc: u64 = 1;
        for _ in 0..64 {
            acc = acc * 7 % 13;
        }
        acc
    });
}

#[test]
fn halve_then_double_recovers_residue() {
    // odd modulus: every residue survives the round trip
    let m: u64 = 7;
    for x in 0..m {
        assert_eq!(multiply_uint_mod(div2_uint_mod(x, m), 2, m), x % m);
    }
    // even residues survive under any modulus
    let m2: u64 = 12;
    for x in [0u64, 2, 4, 6, 8, 10] {
        assert_eq!(multiply_uint_mod(div2_uint_mod(x, m2), 2, m2), x % m2);
    }
}

#[test]
fn div2_handles_the_carry_past_the_word() {
    // odd operand near the top of the word: the sum with the modulus
    // overflows 64 bits and the carry must be folded back in
    let operand = u64::MAX - 2; // odd
    let modulus = u64::MAX - 1;
    let expected = ((operand as u128 + modulus as u128) / 2) as u64;
    assert_eq!(div2_uint_mod(operand, modulus), expected);
}

#[test]
fn reverse_bits_known_values() {
    assert_eq!(reverse_bits(0b1, 4), 0b1000);
    assert_eq!(reverse_bits(0b1011, 4), 0b1101);
    assert_eq!(reverse_bits(0b10, 1), 0);
    assert_eq!(reverse_bits(u64::MAX, 64), u64::MAX);
    assert_eq!(reverse_bits(1, 64), 1u64 << 63);
}

#[test]
fn reverse_bits_zero_count_is_zero() {
    assert_eq!(reverse_bits(0xdead_beef, 0), 0);
}

#[test]
fn log2_floor_and_ceiling() {
    assert_eq!(log2(1), 0);
    assert_eq!(log2(2), 1);
    assert_eq!(log2(3), 1);
    assert_eq!(log2(1024), 10);
    assert_eq!(log2(u64::MAX), 63);
    assert_eq!(log2_ceil(0), 0);
    assert_eq!(log2_ceil(1), 0);
    assert_eq!(log2_ceil(2), 1);
    assert_eq!(log2_ceil(3), 2);
    assert_eq!(log2_ceil(1024), 10);
    assert_eq!(log2_ceil(1025), 11);
    assert_eq!(log2_ceil_usize(0), 0);
    assert_eq!(log2_ceil_usize(9), 4);
    assert_eq!(log2_ceil_usize(16), 4);
}

#[test]
fn recenter_balances_before_reducing() {
    // below half: the residue is reduced as-is
    assert_eq!(recenter(49, 100, 10), 9);
    // at or above half: the residue is taken negative first
    assert_eq!(recenter(99, 100, 10), 9); // -1 mod 10
    assert_eq!(recenter(50, 100, 10), 0); // -50 mod 10
    assert_eq!(recenter(7, 8, 4), 3); // -1 mod 4
    assert_eq!(recenter(0, 100, 10), 0);
}

#[test]
fn recenter_precondition_violation_yields_no_value() {
    // narrowing in the wrong direction fails fast: no value comes back
    assert_eq!(recenter_checked(3, 5, 7), None);
    assert_eq!(recenter_checked(0, 1, 2), None);
    // a residue at or above the source modulus is likewise refused
    assert_eq!(recenter_checked(10, 10, 5), None);
    // a sound call returns exactly what recenter returns
    assert_eq!(recenter_checked(99, 100, 10), Some(recenter(99, 100, 10)));
    assert_eq!(recenter_checked(99, 100, 10), Some(9));
}

#[test]
fn component_arithmetic_uses_the_selected_modulus() {
    let p = tiny_params();
    assert_eq!(p.modulus, 35);
    assert_eq!(multiply_modular(&p, 3, 4, 0), 2); // 12 mod 5
    assert_eq!(multiply_modular(&p, 3, 4, 1), 5); // 12 mod 7
    assert_eq!(multiply_add_modular(&p, 3, 4, 2, 0), 4); // 14 mod 5
    assert_eq!(add_modular(&p, 6, 6, 1), 5); // 12 mod 7
    assert_eq!(invert_modular(&p, 2, 0), 3);
    assert_eq!(invert_modular(&p, 0, 1), 7);
    assert_eq!(modular_reduce(&p, 12, 1), 5);
    assert_eq!(modular_reduce(&p, 12, 0), 2);
}

#[test]
fn parameter_model_derives_every_size() {
    let p = tiny_params();
    assert_eq!(p.poly_len, 4);
    assert_eq!(p.query_bytes(), 64);
    assert_eq!(p.setup_bytes(), 512);
    assert_eq!(p.response_bytes(), 8);
    assert_eq!(p.num_first_dim(), 2);
    assert_eq!(p.num_gsw(), 2);
    assert_eq!(p.num_expanded(), 4);
    assert_eq!(p.db_words(), 16);
    assert_eq!(p.q2_bytes(), 1);
}

#[test]
fn parameter_model_rejects_bad_configurations() {
    // ring dimension exponent of zero
    assert!(Params::new(0, vec![5, 7], 4, 3, 2, 2, 2, 2, 1, 1, 1, 1).is_none());
    // a CRT component that is no modulus
    assert!(Params::new(2, vec![5, 1], 4, 3, 2, 2, 2, 2, 1, 1, 1, 1).is_none());
    // a composite modulus too wide for the kernel's intermediates
    assert!(Params::new(2, vec![1 << 31, 1 << 31], 4, 3, 2, 2, 2, 2, 1, 1, 1, 1).is_none());
    // a response modulus wider than the ciphertext modulus
    assert!(Params::new(2, vec![5, 7], 4, 32, 2, 2, 2, 2, 1, 1, 1, 1).is_none());
    // first-dimension depth deeper than the ring
    assert!(Params::new(2, vec![5, 7], 4, 3, 2, 2, 2, 2, 3, 1, 1, 1).is_none());
}

#[test]
fn parameter_model_accepts_a_deep_first_dimension() {
    // the first-dimension depth is limited only by the ring itself
    let p = Params::new(11, vec![268369921, 249561089], 512, 21, 2, 2, 2, 2, 11, 1, 1, 1);
    assert!(p.is_some());
    assert_eq!(p.unwrap().num_first_dim(), 2048);
}
