//! The modular-arithmetic kernel.  Every higher-level operation of the
//! engine (polynomial multiplication, gadget decomposition, modulus
//! switching) reduces to these primitives, so each carries an exact
//! contract: the returned value is pinned as a mathematical function of the
//! arguments.

use vstd::prelude::*;
use vstd::arithmetic::div_mod::*;
use vstd::arithmetic::mul::*;
use vstd::arithmetic::power::*;
use vstd::arithmetic::power2::*;
use crate::params::Params;

verus! {

/// Modular multiplication, exact for any operands: the product is widened
/// to a double-width integer before reduction, so no overflow can occur.
pub fn multiply_uint_mod(a: u64, b: u64, modulus: u64) -> (r: u64)
    requires
        modulus >= 1,
    ensures
        r == (a * b) % (modulus as int),
        r < modulus,
{
    proof {
        lemma_mul_upper_bound(a as int, u64::MAX as int, b as int, u64::MAX as int);
        lemma_mod_division_less_than_divisor(a as int * b as int, modulus as int);
        lemma_mod_is_mod_recursive(a as int * b as int, modulus as int);
    }
    (((a as u128) * (b as u128)) % (modulus as u128)) as u64
}

/// Floor of the base-two logarithm: `pow2(r) <= a < pow2(r + 1)`.
pub fn log2(a: u64) -> (r: u64)
    requires
        a >= 1,
    ensures
        r <= 63,
        pow2(r as nat) <= a < pow2((r + 1) as nat),
{
    let mut v: u64 = a;
    let mut r: u64 = 0;
    proof {
        lemma2_to64();
        assert(v == a as int / pow2(0) as int);
    }
    while v > 1
        invariant
            1 <= v,
            r <= 63,
            v == a as int / pow2(r as nat) as int,
            pow2(r as nat) <= a,
        decreases v,
    {
        proof {
            lemma_pow2_adds(r as nat, 1);
            lemma2_to64();
            lemma_pow2_pos(r as nat);
            lemma_div_denominator(a as int, pow2(r as nat) as int, 2);
            lemma_fundamental_div_mod(a as int, pow2(r as nat) as int);
            lemma_mod_division_less_than_divisor(a as int, pow2(r as nat) as int);
            // v >= 2 here, so a >= 2 * pow2(r) = pow2(r + 1)
            assert(pow2(r as nat) * (a as int / pow2(r as nat) as int)
                >= pow2(r as nat) * 2) by {
                lemma_mul_left_inequality(pow2(r as nat) as int, 2, a as int / pow2(r as nat) as int);
            }
            assert(a >= pow2((r + 1) as nat));
            if r == 63 {
                lemma2_to64_rest();
                assert(false);
            }
        }
        v = v / 2;
        r = r + 1;
    }
    proof {
        // v == 1: pow2(r) <= a < 2 * pow2(r)
        lemma_pow2_pos(r as nat);
        lemma_fundamental_div_mod(a as int, pow2(r as nat) as int);
        lemma_mod_division_less_than_divisor(a as int, pow2(r as nat) as int);
        lemma_pow2_pos(r as nat);
        lemma_pow2_adds(r as nat, 1);
        lemma2_to64();
    }
    r
}

/// Ceiling of the base-two logarithm; `a <= 1` yields `0`.
pub fn log2_ceil(a: u64) -> (r: u64)
    ensures
        a <= 1 ==> r == 0,
        a >= 2 ==> r <= 64 && pow2((r - 1) as nat) < a <= pow2(r as nat),
{
    if a <= 1 {
        0
    } else {
        let s = log2(a - 1);
        s + 1
    }
}

/// Ceiling of the base-two logarithm on a machine-word count.
pub fn log2_ceil_usize(a: usize) -> (r: usize)
    ensures
        a <= 1 ==> r == 0,
        a >= 2 ==> r <= 64 && pow2((r - 1) as nat) < a <= pow2(r as nat),
{
    if a <= 1 {
        0
    } else {
        let s = log2((a - 1) as u64);
        (s + 1) as usize
    }
}

/// Reduced product of two residues of the CRT component `c`.
pub fn multiply_modular(params: &Params, a: u64, b: u64, c: usize) -> (r: u64)
    requires
        params.wf(),
        c < params.moduli@.len(),
        a * b <= u64::MAX,
    ensures
        r == (a * b) % (params.moduli@[c as int] as int),
{
    proof {
        assert(params.moduli@[c as int] >= 2);
    }
    (a * b) % params.moduli[c]
}

/// Reduced multiply-accumulate `a * b + x` on the CRT component `c`.
pub fn multiply_add_modular(params: &Params, a: u64, b: u64, x: u64, c: usize) -> (r: u64)
    requires
        params.wf(),
        c < params.moduli@.len(),
        a * b + x <= u64::MAX,
    ensures
        r == (a * b + x) % (params.moduli@[c as int] as int),
{
    proof {
        assert(params.moduli@[c as int] >= 2);
    }
    (a * b + x) % params.moduli[c]
}

/// Reduced sum of two residues of the CRT component `c`.
pub fn add_modular(params: &Params, a: u64, b: u64, c: usize) -> (r: u64)
    requires
        params.wf(),
        c < params.moduli@.len(),
        a + b <= u64::MAX,
    ensures
        r == (a + b) % (params.moduli@[c as int] as int),
{
    proof {
        assert(params.moduli@[c as int] >= 2);
    }
    (a + b) % params.moduli[c]
}

/// Additive inverse on the CRT component `c`: the distance from `a` up to
/// the modulus.
pub fn invert_modular(params: &Params, a: u64, c: usize) -> (r: u64)
    requires
        params.wf(),
        c < params.moduli@.len(),
        a <= params.moduli@[c as int],
    ensures
        r == params.moduli@[c as int] - a,
{
    params.moduli[c] - a
}

/// Reduction of an arbitrary word on the CRT component `c`.
pub fn modular_reduce(params: &Params, x: u64, c: usize) -> (r: u64)
    requires
        params.wf(),
        c < params.moduli@.len(),
    ensures
        r == x % params.moduli@[c as int],
{
    proof {
        assert(params.moduli@[c as int] >= 2);
    }
    x % params.moduli[c]
}

/// Modular exponentiation by square-and-accumulate from the least
/// significant exponent bit.  An exponent of `0` yields `1`; an exponent of
/// `1` yields the base reduced; otherwise at most 64 modular
/// multiplications are performed.
pub fn exponentiate_uint_mod(operand: u64, exponent: u64, modulus: u64) -> (r: u64)
    requires
        modulus >= 1,
    ensures
        exponent == 0 ==> r == 1,
        exponent >= 1 ==> r == pow(operand as int, exponent as nat) % (modulus as int),
        exponent == 1 ==> r == operand % modulus,
{
    if exponent == 0 {
        return 1;
    }
    if exponent == 1 {
        proof {
            lemma_pow1(operand as int);
        }
        return operand % modulus;
    }

    let ghost m: int = modulus as int;
    let ghost target: int = pow(operand as int, exponent as nat) % m;
    let mut exp: u64 = exponent;
    let mut power_acc: u64 = operand;
    let mut intermediate: u64 = 1;

    while exp >= 1
        invariant
            modulus >= 1,
            m == modulus as int,
            target == pow(operand as int, exponent as nat) % m,
            (intermediate as int * pow(power_acc as int, exp as nat)) % m == target,
            exp == 0 ==> intermediate < modulus,
        decreases exp,
    {
        let ghost old_int: int = intermediate as int;
        let ghost old_pow: int = power_acc as int;
        let ghost old_exp: nat = exp as nat;
        if exp % 2 == 1 {
            intermediate = multiply_uint_mod(power_acc, intermediate, modulus);
            proof {
                // (old_pow * old_int) % m times pow(old_pow, old_exp - 1)
                // still reaches the target.
                lemma_mul_mod_noop_left(
                    old_pow * old_int,
                    pow(old_pow, (old_exp - 1) as nat),
                    m,
                );
                lemma_pow1(old_pow);
                lemma_pow_adds(old_pow, 1, (old_exp - 1) as nat);
                lemma_mul_is_associative(old_pow, old_int, pow(old_pow, (old_exp - 1) as nat));
                lemma_mul_is_associative(old_int, old_pow, pow(old_pow, (old_exp - 1) as nat));
                assert(old_pow * old_int == old_int * old_pow);
                assert((intermediate as int * pow(old_pow, (old_exp - 1) as nat)) % m
                    == target);
            }
        } else {
            proof {
                assert((intermediate as int * pow(old_pow, (old_exp - 1) as nat + 1)) % m
                    == target);
            }
        }
        let ghost cur_int: int = intermediate as int;
        let ghost even_exp: nat = if old_exp % 2 == 1 { (old_exp - 1) as nat } else { old_exp };
        proof {
            assert((cur_int * pow(old_pow, even_exp)) % m == target);
        }
        exp = exp / 2;
        if exp >= 1 {
            power_acc = multiply_uint_mod(power_acc, power_acc, modulus);
            proof {
                assert(even_exp == 2 * (exp as nat));
                lemma_square_is_pow2(old_pow);
                lemma_pow_multiplies(old_pow, 2, exp as nat);
                assert(pow(old_pow, even_exp) == pow(old_pow * old_pow, exp as nat));
                // replace the base by its reduction
                lemma_pow_mod_noop(old_pow * old_pow, exp as nat, m);
                assert(pow(power_acc as int, exp as nat) % m
                    == pow(old_pow * old_pow, exp as nat) % m);
                lemma_mul_mod_noop_right(cur_int, pow(power_acc as int, exp as nat), m);
                lemma_mul_mod_noop_right(cur_int, pow(old_pow * old_pow, exp as nat), m);
                assert((cur_int * pow(power_acc as int, exp as nat)) % m == target);
            }
        } else {
            proof {
                assert(old_exp == 1);
                lemma_pow0(old_pow);
                assert((cur_int * 1) % m == target);
                assert(cur_int % m == target);
                lemma_small_mod(intermediate as nat, modulus as nat);
            }
        }
    }
    proof {
        lemma_pow0(power_acc as int);
        lemma_small_mod(intermediate as nat, modulus as nat);
    }
    intermediate
}

/// The low `n` bits of `x`, reversed: bit `i` of the input becomes bit
/// `n - 1 - i` of the result; `n == 0` yields `0`.
pub open spec fn rev_bits_spec(x: int, n: nat) -> int
    decreases n,
{
    if n == 0 {
        0int
    } else {
        rev_bits_spec(x / 2, (n - 1) as nat) + (x % 2) * pow2((n - 1) as nat)
    }
}

/// A reversal of `n` bits stays below `pow2(n)`.
pub proof fn lemma_rev_bits_bound(x: int, n: nat)
    requires
        x >= 0,
    ensures
        0 <= rev_bits_spec(x, n) < pow2(n),
    decreases n,
{
    if n == 0 {
        lemma2_to64();
    } else {
        lemma_rev_bits_bound(x / 2, (n - 1) as nat);
        lemma_pow2_adds((n - 1) as nat, 1);
        lemma2_to64();
        lemma_pow2_pos((n - 1) as nat);
        assert((x % 2) * pow2((n - 1) as nat) <= 1 * pow2((n - 1) as nat)) by {
            lemma_mul_inequality(x % 2, 1, pow2((n - 1) as nat) as int);
        }
        assert((x % 2) * pow2((n - 1) as nat) >= 0) by {
            lemma_mul_nonnegative(x % 2, pow2((n - 1) as nat) as int);
        }
    }
}

/// Unrolling a reversal from the low end: reversing `i + 1` bits doubles
/// the reversal of `i` bits and appends bit `i`.
pub proof fn lemma_rev_bits_step(x: int, i: nat)
    requires
        x >= 0,
    ensures
        rev_bits_spec(x, (i + 1) as nat) == 2 * rev_bits_spec(x, i) + (x / pow2(i) as int) % 2,
    decreases i,
{
    if i == 0 {
        lemma2_to64();
        assert(rev_bits_spec(x, 0) == 0);
        assert(rev_bits_spec(x / 2, 0) == 0);
        assert(x / pow2(0) as int == x) by {
            lemma_div_basics(x);
        }
        assert((x % 2) * pow2(0) == x % 2) by {
            lemma_mul_basics(x % 2);
        }
        assert(rev_bits_spec(x, 1) == rev_bits_spec(x / 2, 0) + (x % 2) * pow2(0));
    } else {
        lemma_rev_bits_step(x / 2, (i - 1) as nat);
        lemma_pow2_adds(1, (i - 1) as nat);
        lemma2_to64();
        lemma_pow2_pos((i - 1) as nat);
        lemma_div_denominator(x, 2, pow2((i - 1) as nat) as int);
        assert((x / 2) / pow2((i - 1) as nat) as int == x / pow2(i) as int);
        lemma_pow2_adds((i - 1) as nat, 1);
        assert(pow2(i) == pow2((i - 1) as nat) * 2);
        assert(rev_bits_spec(x, (i + 1) as nat)
            == rev_bits_spec(x / 2, i) + (x % 2) * pow2(i));
        assert(rev_bits_spec(x / 2, i)
            == 2 * rev_bits_spec(x / 2, (i - 1) as nat) + (x / pow2(i) as int) % 2);
        assert(rev_bits_spec(x, i)
            == rev_bits_spec(x / 2, (i - 1) as nat) + (x % 2) * pow2((i - 1) as nat));
        assert((x % 2) * pow2(i) == 2 * ((x % 2) * pow2((i - 1) as nat))) by {
            lemma_mul_is_associative(x % 2, pow2((i - 1) as nat) as int, 2);
        }
        assert(rev_bits_spec(x, (i + 1) as nat)
            == 2 * (rev_bits_spec(x / 2, (i - 1) as nat) + (x % 2) * pow2((i - 1) as nat))
                + (x / pow2(i) as int) % 2);
    }
}

/// Reverses the low `bit_count` bits of `x`; `bit_count == 0` yields `0`.
/// Used to reorder coefficients for transform-domain arithmetic.
pub fn reverse_bits(x: u64, bit_count: usize) -> (r: u64)
    requires
        bit_count <= 64,
    ensures
        r == rev_bits_spec(x as int, bit_count as nat),
{
    let mut r: u64 = 0;
    let mut v: u64 = x;
    let mut i: usize = 0;
    proof {
        lemma2_to64();
        lemma_div_basics(x as int);
    }
    while i < bit_count
        invariant
            i <= bit_count <= 64,
            v == x as int / pow2(i as nat) as int,
            r == rev_bits_spec(x as int, i as nat),
        decreases bit_count - i,
    {
        proof {
            lemma_rev_bits_step(x as int, i as nat);
            lemma_rev_bits_bound(x as int, i as nat);
            lemma_pow2_pos(i as nat);
            assert(pow2(i as nat) <= pow2(63)) by {
                if i < 63 {
                    lemma_pow2_strictly_increases(i as nat, 63);
                }
            }
            lemma2_to64();
            lemma2_to64_rest();
            lemma_pow2_adds(i as nat, 1);
            assert(pow2((i + 1) as nat) as int == pow2(i as nat) as int * 2);
            lemma_div_denominator(x as int, pow2(i as nat) as int, 2);
            assert(x as int / pow2(i as nat) as int / 2 == x as int / pow2((i + 1) as nat) as int);
        }
        r = r * 2 + v % 2;
        v = v / 2;
        i = i + 1;
    }
    r
}

/// The value `div2_uint_mod` returns: the operand halved, after adding the
/// modulus when the operand is odd.
pub open spec fn div2_mod_spec(operand: u64, modulus: u64) -> int {
    if operand % 2 == 0 {
        operand as int / 2
    } else {
        (operand + modulus) / 2
    }
}

/// Halves a residue without a multiplicative-inverse table: an odd operand
/// first gains the modulus (with the carry past the word size handled
/// explicitly), then both cases shift right by one.
pub fn div2_uint_mod(operand: u64, modulus: u64) -> (r: u64)
    ensures
        r == div2_mod_spec(operand, modulus),
{
    if operand % 2 == 1 {
        match operand.checked_add(modulus) {
            Some(sum) => sum / 2,
            None => {
                let low = operand.wrapping_add(modulus);
                proof {
                    assert(low == operand + modulus - 0x1_0000_0000_0000_0000);
                    lemma_fundamental_div_mod(low as int, 2);
                    lemma_mod_division_less_than_divisor(low as int, 2);
                    lemma_fundamental_div_mod_converse(
                        operand + modulus,
                        2,
                        low as int / 2 + 0x8000_0000_0000_0000,
                        (low as int) % 2,
                    );
                }
                low / 2 + 0x8000_0000_0000_0000u64
            },
        }
    } else {
        operand / 2
    }
}

/// Law: halving then doubling modulo `m` gives back `x % m`, for every
/// residue `x < m` whenever `m` is odd or `x` is even.  (For an odd `x`
/// under an even `m` the halved value re-doubles to `x - 1`, so those
/// inputs are excluded.)
pub proof fn lemma_div2_then_double(x: u64, m: u64)
    requires
        x < m,
        x % 2 == 1 ==> m % 2 == 1,
    ensures
        (div2_mod_spec(x, m) * 2) % (m as int) == (x as int) % (m as int),
{
    lemma_small_mod(x as nat, m as nat);
    if x % 2 == 0 {
        lemma_fundamental_div_mod(x as int, 2);
        assert(div2_mod_spec(x, m) * 2 == x);
    } else {
        lemma_add_mod_noop(x as int, m as int, 2);
        assert((x + m) % 2 == 0);
        lemma_fundamental_div_mod(x + m, 2);
        assert(div2_mod_spec(x, m) * 2 == x + m);
        lemma_mod_multiples_vanish(1, x as int, m as int);
        assert(((m as int) * 1 + x) % (m as int) == (x as int) % (m as int));
    }
}

/// The value `recenter` returns: the balanced (nearest-to-zero)
/// representative of `val` modulo `from_modulus`, re-reduced modulo
/// `to_modulus`.
pub open spec fn recentered(val: u64, from_modulus: u64, to_modulus: u64) -> int {
    let centered: int = if val >= from_modulus / 2 {
        val - from_modulus
    } else {
        val as int
    };
    centered % (to_modulus as int)
}

/// Re-expresses a residue taken modulo the larger `from_modulus` as a
/// residue modulo the smaller `to_modulus`, going through the balanced
/// (signed) representation; used when narrowing CRT components during
/// modulus switching.  Calling it with `from_modulus < to_modulus` is a
/// programming error and is excluded by the precondition, so no verified
/// caller can ever observe a silently wrong value; `recenter_checked`
/// realizes the same fail-fast boundary for callers outside the proof
/// boundary.
pub fn recenter(val: u64, from_modulus: u64, to_modulus: u64) -> (r: u64)
    requires
        to_modulus >= 1,
        from_modulus >= to_modulus,
        val < from_modulus,
        from_modulus < 0x2000_0000_0000_0000u64,
    ensures
        r < to_modulus,
        r == recentered(val, from_modulus, to_modulus),
{
    let ghost f: int = from_modulus as int;
    let ghost t: int = to_modulus as int;
    let from_modulus_i64 = from_modulus as i64;
    let mut a_val: i64 = val as i64;
    if val >= from_modulus / 2 {
        a_val = a_val - from_modulus_i64;
    }
    let ghost centered: int = a_val as int;
    let quot: u64 = from_modulus / to_modulus;
    proof {
        lemma_fundamental_div_mod(f, t);
        lemma_mod_division_less_than_divisor(f, t);
        assert(t * (f / t) <= f);
        lemma_mul_is_commutative(t, f / t);
        assert(quot * to_modulus == t * (f / t));
    }
    let shift: u64 = quot * to_modulus + 2 * to_modulus;
    let shifted: i64 = a_val + (shift as i64);
    proof {
        assert(shifted >= 1) by {
            lemma_fundamental_div_mod(f, t);
            lemma_mod_division_less_than_divisor(f, t);
        }
        lemma_mod_multiples_vanish(f / t + 2, centered, t);
        assert(t * (f / t + 2) == t * (f / t) + 2 * t) by {
            lemma_mul_is_distributive_add(t, f / t, 2);
        }
        assert((centered + shift) % t == centered % t);
        lemma_mod_division_less_than_divisor(centered, t);
    }
    (shifted as u64) % to_modulus
}

/// Law: a violated `recenter` precondition — in particular a narrowing
/// with `from_modulus < to_modulus` — fails fast and never yields a
/// (silently wrong) value.  This total variant returns a switched residue
/// exactly when the precondition holds, for callers outside the proof
/// boundary; verified callers use `recenter` directly, where the same
/// boundary is enforced before the call even compiles.
pub fn recenter_checked(val: u64, from_modulus: u64, to_modulus: u64) -> (r: Option<u64>)
    ensures
        r is Some <==> (to_modulus >= 1 && from_modulus >= to_modulus && val < from_modulus
            && from_modulus < 0x2000_0000_0000_0000u64),
        r is Some ==> r.unwrap() == recentered(val, from_modulus, to_modulus) && r.unwrap()
            < to_modulus,
{
    if to_modulus >= 1 && from_modulus >= to_modulus && val < from_modulus && from_modulus
        < 0x2000_0000_0000_0000 {
        Some(recenter(val, from_modulus, to_modulus))
    } else {
        None
    }
}

} // verus!


