//! The homomorphic query-processing engine: deserialization of queries and
//! session key material, query expansion, database evaluation, and response
//! modulus switching and encoding.  Everything here is pure computation on
//! words; every operation reduces to the arithmetic kernel.

use vstd::prelude::*;
use vstd::arithmetic::div_mod::*;
use vstd::arithmetic::mul::*;
use vstd::arithmetic::power2::*;
use crate::arith::{multiply_uint_mod, recenter, recentered};
use crate::params::Params;

verus! {

/// Little-endian value of a byte sequence.
pub open spec fn le_bytes_val(s: Seq<u8>) -> int
    decreases s.len(),
{
    if s.len() == 0 {
        0int
    } else {
        s[0] + 256 * le_bytes_val(s.skip(1))
    }
}

/// A little-endian value stays below `pow2(8 * len)`.
pub proof fn lemma_le_bytes_val_bound(s: Seq<u8>)
    ensures
        0 <= le_bytes_val(s) < pow2(8 * s.len()),
    decreases s.len(),
{
    if s.len() == 0 {
        lemma2_to64();
    } else {
        lemma_le_bytes_val_bound(s.skip(1));
        lemma_pow2_adds(8, 8 * (s.len() - 1) as nat);
        lemma2_to64();
        assert(8 * s.len() == 8 + 8 * (s.len() - 1));
        assert(256 * le_bytes_val(s.skip(1)) <= 256 * (pow2(8 * (s.len() - 1) as nat) - 1))
            by {
            lemma_mul_left_inequality(
                256,
                le_bytes_val(s.skip(1)),
                pow2(8 * (s.len() - 1) as nat) - 1,
            );
        }
        assert(256 * (pow2(8 * (s.len() - 1) as nat) - 1)
            == 256 * pow2(8 * (s.len() - 1) as nat) - 256) by {
            lemma_mul_is_distributive_sub(256, pow2(8 * (s.len() - 1) as nat) as int, 1);
        }
        assert(256 * le_bytes_val(s.skip(1)) >= 0) by {
            lemma_mul_nonnegative(256, le_bytes_val(s.skip(1)));
        }
    }
}

/// Appending a byte adds it at the most significant position.
pub proof fn lemma_le_bytes_val_push(s: Seq<u8>, b: u8)
    ensures
        le_bytes_val(s.push(b)) == le_bytes_val(s) + b * pow2(8 * s.len()),
    decreases s.len(),
{
    if s.len() == 0 {
        lemma2_to64();
        assert(s.push(b).skip(1) =~= Seq::<u8>::empty());
        assert(le_bytes_val(Seq::<u8>::empty()) == 0);
        assert(b * pow2(0) == b * 1);
    } else {
        assert(s.push(b).skip(1) =~= s.skip(1).push(b));
        lemma_le_bytes_val_push(s.skip(1), b);
        lemma_pow2_adds(8, 8 * (s.len() - 1) as nat);
        lemma2_to64();
        assert(8 * s.len() == 8 + 8 * (s.len() - 1));
        assert(le_bytes_val(s.push(b))
            == s[0] + 256 * (le_bytes_val(s.skip(1)) + b * pow2(8 * (s.len() - 1) as nat)));
        assert(256 * (le_bytes_val(s.skip(1)) + b * pow2(8 * (s.len() - 1) as nat))
            == 256 * le_bytes_val(s.skip(1)) + 256 * (b * pow2(8 * (s.len() - 1) as nat))) by {
            lemma_mul_is_distributive_add(
                256,
                le_bytes_val(s.skip(1)),
                b * pow2(8 * (s.len() - 1) as nat),
            );
        }
        assert(256 * (b * pow2(8 * (s.len() - 1) as nat))
            == b * (256 * pow2(8 * (s.len() - 1) as nat))) by {
            lemma_mul_is_associative(256, b as int, pow2(8 * (s.len() - 1) as nat) as int);
            lemma_mul_is_commutative(256, b as int);
            lemma_mul_is_associative(b as int, 256, pow2(8 * (s.len() - 1) as nat) as int);
        }
    }
}

/// The little-endian word stored at byte offset `8 * w` of a buffer.
pub open spec fn le_word_at(bytes: Seq<u8>, w: int) -> int {
    le_bytes_val(bytes.subrange(8 * w, 8 * w + 8))
}

/// Reads one little-endian machine word from a byte buffer.
pub fn read_word_le(data: &Vec<u8>, off: usize) -> (r: u64)
    requires
        off + 8 <= data@.len(),
    ensures
        r == le_bytes_val(data@.subrange(off as int, off + 8)),
{
    let mut acc: u64 = 0;
    let mut k: usize = 8;
    let data_len = data.len();
    proof {
        assert(data@.subrange(off + 8, off + 8) =~= Seq::<u8>::empty());
        assert(le_bytes_val(Seq::<u8>::empty()) == 0);
        lemma2_to64();
    }
    while k > 0
        invariant
            k <= 8,
            off + 8 <= data@.len(),
            data@.len() == data_len,
            acc == le_bytes_val(data@.subrange(off + k, off + 8)),
            acc < pow2(8 * (8 - k) as nat),
        decreases k,
    {
        k = k - 1;
        proof {
            lemma_le_bytes_val_bound(data@.subrange(off + k, off + 8));
            assert(data@.subrange(off + k, off + 8).skip(1)
                =~= data@.subrange(off + k + 1, off + 8));
            lemma_pow2_adds(8, 8 * (7 - k) as nat);
            lemma2_to64();
            lemma2_to64_rest();
            assert(pow2(8 * (8 - k) as nat) <= pow2(64)) by {
                if 8 * (8 - k) < 64 {
                    lemma_pow2_strictly_increases(8 * (8 - k) as nat, 64);
                }
            }
            assert(256 * le_bytes_val(data@.subrange(off + k + 1, off + 8))
                <= 256 * (pow2(8 * (7 - k) as nat) - 1)) by {
                lemma_mul_left_inequality(
                    256,
                    le_bytes_val(data@.subrange(off + k + 1, off + 8)),
                    pow2(8 * (7 - k) as nat) - 1,
                );
            }
            assert(256 * (pow2(8 * (7 - k) as nat) - 1)
                == 256 * pow2(8 * (7 - k) as nat) - 256) by {
                lemma_mul_is_distributive_sub(256, pow2(8 * (7 - k) as nat) as int, 1);
            }
            assert(256 * le_bytes_val(data@.subrange(off + k + 1, off + 8)) >= 0) by {
                lemma_mul_nonnegative(
                    256,
                    le_bytes_val(data@.subrange(off + k + 1, off + 8)),
                );
            }
        }
        acc = acc * 256 + (data[off + k] as u64);
    }
    proof {
        assert(data@.subrange(off as int, off + 8) =~= data@.subrange(off + 0, off + 8));
    }
    acc
}

/// Appends a value below `pow2(8 * nbytes)` as `nbytes` little-endian
/// bytes.
pub fn push_le_bytes(out: &mut Vec<u8>, v: u64, nbytes: usize)
    requires
        nbytes <= 8,
        v < pow2(8 * nbytes as nat),
    ensures
        final(out)@.len() == old(out)@.len() + nbytes,
        final(out)@.subrange(0, old(out)@.len() as int) == old(out)@,
        le_bytes_val(final(out)@.subrange(old(out)@.len() as int, final(out)@.len() as int))
            == v,
{
    let ghost base: int = out@.len() as int;
    let mut cur: u64 = v;
    let mut k: usize = 0;
    proof {
        assert(out@.subrange(base, base) =~= Seq::<u8>::empty());
        assert(le_bytes_val(Seq::<u8>::empty()) == 0);
        lemma2_to64();
        lemma_div_basics(v as int);
        lemma_mul_basics(v as int);
    }
    while k < nbytes
        invariant
            k <= nbytes <= 8,
            out@.len() == base + k,
            base >= 0,
            out@.subrange(0, base) == old(out)@,
            old(out)@.len() == base,
            v < pow2(8 * nbytes as nat),
            cur == v as int / pow2(8 * k as nat) as int,
            le_bytes_val(out@.subrange(base, base + k))
                + cur * pow2(8 * k as nat) == v,
        decreases nbytes - k,
    {
        let ghost prev = out@;
        let b: u8 = (cur % 256) as u8;
        out.push(b);
        proof {
            assert(out@.subrange(base, base + k + 1)
                =~= prev.subrange(base, base + k).push(b));
            lemma_le_bytes_val_push(prev.subrange(base, base + k), b);
            assert(out@.subrange(0, base) =~= prev.subrange(0, base));
            lemma_pow2_pos(8 * k as nat);
            lemma_pow2_adds(8 * k as nat, 8);
            lemma2_to64();
            lemma_div_denominator(v as int, pow2(8 * k as nat) as int, 256);
            assert(v as int / pow2(8 * k as nat) as int / 256
                == v as int / pow2(8 * (k + 1) as nat) as int);
            lemma_fundamental_div_mod(cur as int, 256);
            // cur == 256 * (cur / 256) + b, so the tracked remainder moves
            // one byte down:
            assert((256 * (cur as int / 256) + b) * pow2(8 * k as nat)
                == 256 * (cur as int / 256) * pow2(8 * k as nat)
                    + b * pow2(8 * k as nat)) by {
                lemma_mul_is_distributive_add_other_way(
                    pow2(8 * k as nat) as int,
                    256 * (cur as int / 256),
                    b as int,
                );
            }
            assert(256 * (cur as int / 256) * pow2(8 * k as nat)
                == (cur as int / 256) * pow2(8 * (k + 1) as nat)) by {
                lemma_mul_is_associative(256, cur as int / 256, pow2(8 * k as nat) as int);
                lemma_mul_is_commutative(256, cur as int / 256);
                lemma_mul_is_associative(cur as int / 256, 256, pow2(8 * k as nat) as int);
            }
        }
        cur = cur / 256;
        k = k + 1;
    }
    proof {
        lemma_pow2_pos(8 * nbytes as nat);
        // the remaining quotient is zero because v < pow2(8 * nbytes)
        assert(cur == 0) by {
            lemma_basic_div(v as int, pow2(8 * nbytes as nat) as int);
        }
        assert(cur * pow2(8 * nbytes as nat) == 0) by {
            lemma_mul_by_zero_is_zero(pow2(8 * nbytes as nat) as int);
        }
        assert(out@.subrange(base, base + nbytes)
            =~= out@.subrange(base, out@.len() as int));
    }
}

/// Every word of a buffer is a reduced residue of the composite modulus.
pub open spec fn coeffs_reduced(v: Seq<u64>, q: u64) -> bool {
    forall|j: int| 0 <= j < v.len() ==> #[trigger] v[j] < q
}

/// A well-formed ciphertext: two ring polynomials, each coefficient a
/// reduced residue of the composite modulus.
pub open spec fn ct_wf(ct: Seq<u64>, params: Params) -> bool {
    &&& ct.len() == params.ct_words_spec()
    &&& coeffs_reduced(ct, params.modulus)
}

/// A fresh all-zero ciphertext.
pub fn zero_ct(params: &Params) -> (r: Vec<u64>)
    requires
        params.wf(),
    ensures
        ct_wf(r@, *params),
        forall|j: int| 0 <= j < r@.len() ==> #[trigger] r@[j] == 0,
{
    let len = 2 * params.poly_len;
    let mut r: Vec<u64> = Vec::new();
    let mut j: usize = 0;
    while j < len
        invariant
            j <= len,
            r@.len() == j,
            forall|i: int| 0 <= i < j ==> #[trigger] r@[i] == 0,
        decreases len - j,
    {
        r.push(0);
        j = j + 1;
    }
    r
}

/// The pointwise sum of two ciphertexts, slot by slot.
pub open spec fn poly_add_seq(a: Seq<u64>, b: Seq<u64>, q: u64) -> Seq<u64> {
    Seq::new(a.len(), |j: int| ((a[j] + b[j]) % (q as int)) as u64)
}

/// The pointwise difference of two ciphertexts, slot by slot.
pub open spec fn poly_sub_seq(a: Seq<u64>, b: Seq<u64>, q: u64) -> Seq<u64> {
    Seq::new(a.len(), |j: int| ((a[j] + (q - b[j])) % (q as int)) as u64)
}

/// Pointwise sum of two ciphertexts modulo the composite modulus.
pub fn poly_add(params: &Params, a: &Vec<u64>, b: &Vec<u64>) -> (r: Vec<u64>)
    requires
        params.wf(),
        ct_wf(a@, *params),
        ct_wf(b@, *params),
    ensures
        ct_wf(r@, *params),
        forall|j: int| 0 <= j < r@.len() ==> #[trigger] r@[j]
            == (a@[j] + b@[j]) % (params.modulus as int),
        r@ == poly_add_seq(a@, b@, params.modulus),
{
    let len = a.len();
    let mut r: Vec<u64> = Vec::new();
    let mut j: usize = 0;
    while j < len
        invariant
            j <= len,
            len == a@.len() == b@.len(),
            params.wf(),
            ct_wf(a@, *params),
            ct_wf(b@, *params),
            r@.len() == j,
            forall|i: int| 0 <= i < j ==> #[trigger] r@[i]
                == (a@[i] + b@[i]) % (params.modulus as int),
        decreases len - j,
    {
        r.push((a[j] + b[j]) % params.modulus);
        j = j + 1;
    }
    proof {
        assert(r@ =~= poly_add_seq(a@, b@, params.modulus));
    }
    r
}

/// Pointwise difference of two ciphertexts modulo the composite modulus.
pub fn poly_sub(params: &Params, a: &Vec<u64>, b: &Vec<u64>) -> (r: Vec<u64>)
    requires
        params.wf(),
        ct_wf(a@, *params),
        ct_wf(b@, *params),
    ensures
        ct_wf(r@, *params),
        forall|j: int| 0 <= j < r@.len() ==> #[trigger] r@[j]
            == (a@[j] + (params.modulus - b@[j])) % (params.modulus as int),
        r@ == poly_sub_seq(a@, b@, params.modulus),
{
    let len = a.len();
    let mut r: Vec<u64> = Vec::new();
    let mut j: usize = 0;
    while j < len
        invariant
            j <= len,
            len == a@.len() == b@.len(),
            params.wf(),
            ct_wf(a@, *params),
            ct_wf(b@, *params),
            r@.len() == j,
            forall|i: int| 0 <= i < j ==> #[trigger] r@[i]
                == (a@[i] + (params.modulus - b@[i])) % (params.modulus as int),
        decreases len - j,
    {
        r.push((a[j] + (params.modulus - b[j])) % params.modulus);
        j = j + 1;
    }
    proof {
        assert(r@ =~= poly_sub_seq(a@, b@, params.modulus));
    }
    r
}

/// The source slot an automorphism reads for target slot `j`: the slot
/// index is multiplied by the generator within each of the two
/// polynomials.
pub open spec fn automorph_src(j: int, n: int, g: int) -> int {
    (j / n) * n + ((j % n) * g) % n
}

/// Applies the ring automorphism of generator `g` in the transform
/// domain: within each polynomial, slot `j` is read from slot
/// `(j * g) mod n`.
pub fn automorph(params: &Params, ct: &Vec<u64>, g: usize) -> (r: Vec<u64>)
    requires
        params.wf(),
        ct_wf(ct@, *params),
        1 <= g <= 2 * params.poly_len + 1,
    ensures
        ct_wf(r@, *params),
        forall|j: int| 0 <= j < r@.len() ==> #[trigger] r@[j]
            == ct@[automorph_src(j, params.poly_len as int, g as int)],
        r@ == auto_seq(ct@, params.poly_len as int, g as int),
{
    let n = params.poly_len;
    let len = 2 * n;
    let mut r: Vec<u64> = Vec::new();
    let mut j: usize = 0;
    while j < len
        invariant
            j <= len,
            n == params.poly_len,
            len == 2 * n,
            params.wf(),
            ct_wf(ct@, *params),
            1 <= g <= 2 * n + 1,
            r@.len() == j,
            coeffs_reduced(r@, params.modulus),
            forall|i: int| 0 <= i < j ==> #[trigger] r@[i]
                == ct@[automorph_src(i, n as int, g as int)],
        decreases len - j,
    {
        let half: usize = if j < n {
            0
        } else {
            n
        };
        let slot = j - half;
        proof {
            lemma_mul_basics(n as int);
            if j < n {
                lemma_basic_div(j as int, n as int);
                lemma_small_mod(j as nat, n as nat);
            } else {
                lemma_fundamental_div_mod_converse(j as int, n as int, 1, j - n);
            }
            assert(j as int / n as int * n == half);
            assert(j as int % n as int == slot);
            lemma_mul_upper_bound(slot as int, 0x4000, g as int, 0x8001);
            lemma_mod_division_less_than_divisor(slot as int * g as int, n as int);
        }
        let src = half + (slot * g) % n;
        r.push(ct[src]);
        j = j + 1;
    }
    proof {
        assert(r@ =~= auto_seq(ct@, n as int, g as int));
    }
    r
}

/// One gadget-decomposed multiply-accumulate pass: each slot of the
/// accumulator gains the product of a plaintext slot and the matching
/// ciphertext slot, reduced.  The plaintext polynomial is read at offset
/// `poff` and is applied to both halves of the ciphertext.
pub fn mac_scaled(
    params: &Params,
    acc: &Vec<u64>,
    plain: &Vec<u64>,
    poff: usize,
    sel: &Vec<u64>,
) -> (r: Vec<u64>)
    requires
        params.wf(),
        ct_wf(acc@, *params),
        ct_wf(sel@, *params),
        poff + params.poly_len <= plain@.len(),
    ensures
        ct_wf(r@, *params),
        forall|j: int| 0 <= j < r@.len() ==> #[trigger] r@[j]
            == (acc@[j] + (plain@[poff + (j % (params.poly_len as int))] * sel@[j])
                % (params.modulus as int)) % (params.modulus as int),
{
    let n = params.poly_len;
    let len = 2 * n;
    let plain_len = plain.len();
    let mut r: Vec<u64> = Vec::new();
    let mut j: usize = 0;
    while j < len
        invariant
            j <= len,
            n == params.poly_len,
            len == 2 * n,
            params.wf(),
            ct_wf(acc@, *params),
            ct_wf(sel@, *params),
            poff + n <= plain@.len(),
            plain@.len() == plain_len,
            r@.len() == j,
            forall|i: int| 0 <= i < j ==> #[trigger] r@[i]
                == (acc@[i] + (plain@[poff + (i % (n as int))] * sel@[i])
                    % (params.modulus as int)) % (params.modulus as int),
        decreases len - j,
    {
        proof {
            lemma_mod_division_less_than_divisor(j as int, n as int);
        }
        let prod = multiply_uint_mod(plain[poff + j % n], sel[j], params.modulus);
        r.push((acc[j] + prod) % params.modulus);
        j = j + 1;
    }
    r
}

/// Per-session key material: the key-switching matrices registered at
/// setup, already structurally validated and reduced.  Opaque to the
/// server beyond this shape.
pub struct PublicParams {
    /// First-phase expansion keys: one matrix of `t_exp_left` ciphertext
    /// rows per expansion level.
    pub exp_left: Vec<u64>,
    /// Second-phase expansion keys: one matrix of `t_exp_right`
    /// ciphertext rows per GSW selector.
    pub exp_right: Vec<u64>,
    /// Conversion keys: one matrix of `t_conv` ciphertext rows.
    pub conv: Vec<u64>,
}

impl PublicParams {
    /// Structural well-formedness under a parameter model.
    pub open spec fn wf(self, params: Params) -> bool {
        &&& self.exp_left@.len() == params.nu_1 * params.t_exp_left * params.ct_words_spec()
        &&& self.exp_right@.len() == params.num_gsw_spec() * params.t_exp_right
            * params.ct_words_spec()
        &&& self.conv@.len() == params.t_conv * params.ct_words_spec()
        &&& coeffs_reduced(self.exp_left@, params.modulus)
        &&& coeffs_reduced(self.exp_right@, params.modulus)
        &&& coeffs_reduced(self.conv@, params.modulus)
    }
}

/// Slot `j` of a key switch: the multiply-accumulate of the first `k`
/// gadget digit polynomials of the ciphertext against the matching key
/// rows, starting from zero.
pub open spec fn key_switch_fold(
    ct: Seq<u64>,
    key: Seq<u64>,
    koff: int,
    zbits: nat,
    n: int,
    q: u64,
    k: int,
    j: int,
) -> int
    decreases k,
{
    if k <= 0 {
        0int
    } else {
        mac_cell(
            key_switch_fold(ct, key, koff, zbits, n, q, k - 1, j),
            digit_of(ct[j % n], zbits, (k - 1) as nat),
            key[koff + (k - 1) * (2 * n) + j],
            q,
        )
    }
}

/// The whole ciphertext a ring automorphism produces, slot by slot.
pub open spec fn auto_seq(ct: Seq<u64>, n: int, g: int) -> Seq<u64> {
    Seq::new(ct.len(), |j: int| ct[automorph_src(j, n, g)])
}

/// A key-switch fold stays a reduced residue.
pub proof fn lemma_key_switch_fold_range(
    ct: Seq<u64>,
    key: Seq<u64>,
    koff: int,
    zbits: nat,
    n: int,
    q: u64,
    k: int,
    j: int,
)
    requires
        q >= 1,
    ensures
        0 <= key_switch_fold(ct, key, koff, zbits, n, q, k, j) < q,
{
}

/// The whole ciphertext a key switch produces, slot by slot.
pub open spec fn key_switch_seq(
    ct: Seq<u64>,
    key: Seq<u64>,
    koff: int,
    zbits: nat,
    n: int,
    q: u64,
    t: int,
) -> Seq<u64> {
    Seq::new(ct.len(), |j: int| key_switch_fold(ct, key, koff, zbits, n, q, t, j) as u64)
}

/// Key switching: the first polynomial of the ciphertext is
/// gadget-decomposed into `t` digit polynomials, and each digit polynomial
/// is multiplied onto the matching key row and accumulated, pinned slot by
/// slot as the fold of `mac_cell`.
pub fn key_switch(
    params: &Params,
    ct: &Vec<u64>,
    key: &Vec<u64>,
    koff: usize,
    t: usize,
) -> (r: Vec<u64>)
    requires
        params.wf(),
        ct_wf(ct@, *params),
        1 <= t <= 64,
        koff + t * params.ct_words_spec() <= key@.len(),
        coeffs_reduced(key@, params.modulus),
    ensures
        ct_wf(r@, *params),
        forall|j: int| 0 <= j < r@.len() ==> #[trigger] r@[j] == key_switch_fold(
            ct@,
            key@,
            koff as int,
            gadget_bits(t as int) as nat,
            params.poly_len as int,
            params.modulus,
            t as int,
            j,
        ),
        r@ == key_switch_seq(
            ct@,
            key@,
            koff as int,
            gadget_bits(t as int) as nat,
            params.poly_len as int,
            params.modulus,
            t as int,
        ),
{
    let n = params.poly_len;
    let cw = 2 * n;
    let key_len = key.len();
    // gadget digit width: wide enough that 64 digits always suffice
    let zbits: usize = if 64 / t >= 1 {
        if 64 / t <= 56 {
            64 / t
        } else {
            56
        }
    } else {
        1
    };
    proof {
        assert(zbits == gadget_bits(t as int));
    }
    let base = crate::params::pow2_u64(zbits);
    proof {
        lemma_pow2_pos(zbits as nat);
    }
    // current shifted-down copy of the first polynomial
    let mut cur: Vec<u64> = Vec::new();
    let mut i: usize = 0;
    while i < n
        invariant
            i <= n,
            n == params.poly_len,
            ct_wf(ct@, *params),
            params.wf(),
            cur@.len() == i,
            forall|x: int| 0 <= x < i ==> #[trigger] cur@[x] == ct@[x],
        decreases n - i,
    {
        cur.push(ct[i]);
        i = i + 1;
    }
    let mut out = zero_ct(params);
    proof {
        lemma2_to64();
        lemma_mul_basics(zbits as int);
        assert forall|x: int| 0 <= x < n implies cur@[x] == ct@[x] as int / pow2(
            ((0 * zbits) as nat),
        ) as int by {
            lemma_div_basics(ct@[x] as int);
        }
    }
    let mut k: usize = 0;
    while k < t
        invariant
            k <= t <= 64,
            n == params.poly_len,
            cw == 2 * n,
            params.wf(),
            ct_wf(ct@, *params),
            zbits == gadget_bits(t as int),
            1 <= zbits <= 56,
            base == pow2(zbits as nat),
            base >= 1,
            cur@.len() == n,
            forall|x: int| 0 <= x < n ==> #[trigger] cur@[x] == ct@[x] as int / pow2(
                (k * zbits) as nat,
            ) as int,
            key@.len() == key_len,
            koff + t * params.ct_words_spec() <= key@.len(),
            coeffs_reduced(key@, params.modulus),
            ct_wf(out@, *params),
            forall|j: int| 0 <= j < out@.len() ==> #[trigger] out@[j] == key_switch_fold(
                ct@,
                key@,
                koff as int,
                zbits as nat,
                n as int,
                params.modulus,
                k as int,
                j,
            ),
        decreases t - k,
    {
        proof {
            assert((k + 1) * (cw as int) <= t * (cw as int)) by {
                lemma_mul_inequality(k + 1, t as int, cw as int);
            }
            assert((k + 1) * (cw as int) == k * (cw as int) + cw) by {
                lemma_mul_is_distributive_add_other_way(cw as int, k as int, 1);
                lemma_mul_basics(cw as int);
            }
            assert(params.ct_words_spec() == cw);
        }
        let row_off = koff + k * cw;
        // digit polynomial of this round
        let mut digit: Vec<u64> = Vec::new();
        let mut i2: usize = 0;
        while i2 < n
            invariant
                i2 <= n,
                n == params.poly_len,
                base >= 1,
                base == pow2(zbits as nat),
                cur@.len() == n,
                forall|x: int| 0 <= x < n ==> #[trigger] cur@[x] == ct@[x] as int / pow2(
                    (k * zbits) as nat,
                ) as int,
                digit@.len() == i2,
                forall|x: int| 0 <= x < i2 ==> #[trigger] digit@[x] == digit_of(
                    ct@[x],
                    zbits as nat,
                    k as nat,
                ),
            decreases n - i2,
        {
            digit.push(cur[i2] % base);
            i2 = i2 + 1;
        }
        // accumulate digit times key row
        let mut next: Vec<u64> = Vec::new();
        let mut j: usize = 0;
        while j < cw
            invariant
                j <= cw,
                k < t,
                n == params.poly_len,
                cw == 2 * n,
                params.wf(),
                ct_wf(ct@, *params),
                digit@.len() == n,
                forall|x: int| 0 <= x < n ==> #[trigger] digit@[x] == digit_of(
                    ct@[x],
                    zbits as nat,
                    k as nat,
                ),
                key@.len() == key_len,
                row_off == koff + k * (cw as int),
                row_off + cw <= key@.len(),
                coeffs_reduced(key@, params.modulus),
                ct_wf(out@, *params),
                forall|x: int| 0 <= x < out@.len() ==> #[trigger] out@[x] == key_switch_fold(
                    ct@,
                    key@,
                    koff as int,
                    zbits as nat,
                    n as int,
                    params.modulus,
                    k as int,
                    x,
                ),
                next@.len() == j,
                forall|x: int| 0 <= x < j ==> #[trigger] next@[x] == key_switch_fold(
                    ct@,
                    key@,
                    koff as int,
                    zbits as nat,
                    n as int,
                    params.modulus,
                    k + 1,
                    x,
                ),
            decreases cw - j,
        {
            proof {
                lemma_mod_division_less_than_divisor(j as int, n as int);
            }
            let prod = multiply_uint_mod(digit[j % n], key[row_off + j], params.modulus);
            let ghost prev_len = next@.len();
            next.push((out[j] + prod) % params.modulus);
            proof {
                assert(next@[prev_len as int] == key_switch_fold(
                    ct@,
                    key@,
                    koff as int,
                    zbits as nat,
                    n as int,
                    params.modulus,
                    k + 1,
                    j as int,
                ));
            }
            j = j + 1;
        }
        out = next;
        // shift the carried polynomial down one digit
        let mut shifted: Vec<u64> = Vec::new();
        let mut i3: usize = 0;
        while i3 < n
            invariant
                i3 <= n,
                base >= 1,
                cur@.len() == n,
                shifted@.len() == i3,
                forall|x: int| 0 <= x < i3 ==> #[trigger] shifted@[x] == cur@[x] as int / (
                base as int),
            decreases n - i3,
        {
            shifted.push(cur[i3] / base);
            i3 = i3 + 1;
        }
        proof {
            assert forall|x: int| 0 <= x < n implies shifted@[x] == ct@[x] as int / pow2(
                (((k + 1) * zbits) as nat),
            ) as int by {
                lemma_pow2_pos((k * zbits) as nat);
                lemma_pow2_pos(zbits as nat);
                lemma_div_denominator(ct@[x] as int, pow2((k * zbits) as nat) as int, base as int);
                lemma_pow2_adds((k * zbits) as nat, zbits as nat);
                assert((k + 1) * zbits == k * zbits + zbits) by {
                    lemma_mul_is_distributive_add_other_way(zbits as int, k as int, 1);
                    lemma_mul_basics(zbits as int);
                }
            }
        }
        cur = shifted;
        k = k + 1;
    }
    proof {
        assert forall|j: int| 0 <= j < out@.len() implies out@[j] == key_switch_seq(
            ct@,
            key@,
            koff as int,
            zbits as nat,
            n as int,
            params.modulus,
            t as int,
        )[j] by {
            lemma_key_switch_fold_range(
                ct@,
                key@,
                koff as int,
                zbits as nat,
                n as int,
                params.modulus,
                t as int,
                j,
            );
        }
        assert(out@ =~= key_switch_seq(
            ct@,
            key@,
            koff as int,
            zbits as nat,
            n as int,
            params.modulus,
            t as int,
        ));
    }
    out
}

/// An exact copy of a ciphertext.
pub fn copy_ct(ct: &Vec<u64>) -> (r: Vec<u64>)
    ensures
        r@ == ct@,
{
    let len = ct.len();
    let mut r: Vec<u64> = Vec::new();
    let mut j: usize = 0;
    while j < len
        invariant
            j <= len,
            len == ct@.len(),
            r@ == ct@.subrange(0, j as int),
        decreases len - j,
    {
        let ghost prev = r@;
        r.push(ct[j]);
        proof {
            assert(prev.push(ct@[j as int]) =~= ct@.subrange(0, j + 1));
        }
        j = j + 1;
    }
    proof {
        assert(ct@.subrange(0, len as int) =~= ct@);
    }
    r
}

/// Slot `j` of a GSW external product: the multiply-accumulate of the
/// first `k` gadget digit polynomials of the difference ciphertext
/// against the matching GSW selection ciphertexts, starting from zero.
pub open spec fn ext_product_fold(
    ct: Seq<u64>,
    gsw: Seq<Seq<u64>>,
    goff: int,
    zbits: nat,
    n: int,
    q: u64,
    k: int,
    j: int,
) -> int
    decreases k,
{
    if k <= 0 {
        0int
    } else {
        mac_cell(
            ext_product_fold(ct, gsw, goff, zbits, n, q, k - 1, j),
            digit_of(ct[j % n], zbits, (k - 1) as nat),
            gsw[goff + k - 1][j],
            q,
        )
    }
}

/// An external-product fold stays a reduced residue.
pub proof fn lemma_ext_product_fold_range(
    ct: Seq<u64>,
    gsw: Seq<Seq<u64>>,
    goff: int,
    zbits: nat,
    n: int,
    q: u64,
    k: int,
    j: int,
)
    requires
        q >= 1,
    ensures
        0 <= ext_product_fold(ct, gsw, goff, zbits, n, q, k, j) < q,
{
}

/// The whole ciphertext an external product produces, slot by slot.
pub open spec fn ext_product_seq(
    ct: Seq<u64>,
    gsw: Seq<Seq<u64>>,
    goff: int,
    zbits: nat,
    n: int,
    q: u64,
    t: int,
) -> Seq<u64> {
    Seq::new(ct.len(), |j: int| ext_product_fold(ct, gsw, goff, zbits, n, q, t, j) as u64)
}

/// GSW external product: the difference ciphertext is gadget-decomposed
/// with `t` digits and accumulated against `t` consecutive GSW selection
/// ciphertexts starting at `goff`, pinned slot by slot as the fold of
/// `mac_cell`.
pub fn ext_product(
    params: &Params,
    diff: &Vec<u64>,
    gsw: &Vec<Vec<u64>>,
    goff: usize,
    t: usize,
) -> (r: Vec<u64>)
    requires
        params.wf(),
        ct_wf(diff@, *params),
        1 <= t <= 64,
        goff + t <= gsw@.len(),
        forall|i: int| 0 <= i < gsw@.len() ==> ct_wf(#[trigger] gsw@[i]@, *params),
    ensures
        ct_wf(r@, *params),
        forall|j: int| 0 <= j < r@.len() ==> #[trigger] r@[j] == ext_product_fold(
            diff@,
            ct_views(gsw@),
            goff as int,
            gadget_bits(t as int) as nat,
            params.poly_len as int,
            params.modulus,
            t as int,
            j,
        ),
        r@ == ext_product_seq(
            diff@,
            ct_views(gsw@),
            goff as int,
            gadget_bits(t as int) as nat,
            params.poly_len as int,
            params.modulus,
            t as int,
        ),
{
    let n = params.poly_len;
    let zbits: usize = if 64 / t >= 1 {
        if 64 / t <= 56 {
            64 / t
        } else {
            56
        }
    } else {
        1
    };
    proof {
        assert(zbits == gadget_bits(t as int));
    }
    let base = crate::params::pow2_u64(zbits);
    proof {
        lemma_pow2_pos(zbits as nat);
    }
    let mut cur: Vec<u64> = Vec::new();
    let mut i: usize = 0;
    while i < n
        invariant
            i <= n,
            n == params.poly_len,
            ct_wf(diff@, *params),
            params.wf(),
            cur@.len() == i,
            forall|x: int| 0 <= x < i ==> #[trigger] cur@[x] == diff@[x],
        decreases n - i,
    {
        cur.push(diff[i]);
        i = i + 1;
    }
    let mut out = zero_ct(params);
    proof {
        lemma2_to64();
        lemma_mul_basics(zbits as int);
        assert forall|x: int| 0 <= x < n implies cur@[x] == diff@[x] as int / pow2(
            ((0 * zbits) as nat),
        ) as int by {
            lemma_div_basics(diff@[x] as int);
        }
    }
    let gsw_len = gsw.len();
    let mut k: usize = 0;
    while k < t
        invariant
            k <= t <= 64,
            n == params.poly_len,
            params.wf(),
            ct_wf(diff@, *params),
            zbits == gadget_bits(t as int),
            1 <= zbits <= 56,
            base == pow2(zbits as nat),
            base >= 1,
            cur@.len() == n,
            forall|x: int| 0 <= x < n ==> #[trigger] cur@[x] == diff@[x] as int / pow2(
                (k * zbits) as nat,
            ) as int,
            gsw@.len() == gsw_len,
            goff + t <= gsw@.len(),
            forall|x: int| 0 <= x < gsw@.len() ==> ct_wf(#[trigger] gsw@[x]@, *params),
            ct_wf(out@, *params),
            forall|j: int| 0 <= j < out@.len() ==> #[trigger] out@[j] == ext_product_fold(
                diff@,
                ct_views(gsw@),
                goff as int,
                zbits as nat,
                n as int,
                params.modulus,
                k as int,
                j,
            ),
        decreases t - k,
    {
        let mut digit: Vec<u64> = Vec::new();
        let mut i2: usize = 0;
        while i2 < n
            invariant
                i2 <= n,
                n == params.poly_len,
                base >= 1,
                base == pow2(zbits as nat),
                cur@.len() == n,
                forall|x: int| 0 <= x < n ==> #[trigger] cur@[x] == diff@[x] as int / pow2(
                    (k * zbits) as nat,
                ) as int,
                digit@.len() == i2,
                forall|x: int| 0 <= x < i2 ==> #[trigger] digit@[x] == digit_of(
                    diff@[x],
                    zbits as nat,
                    k as nat,
                ),
            decreases n - i2,
        {
            digit.push(cur[i2] % base);
            i2 = i2 + 1;
        }
        let ghost prev_out = out@;
        out = mac_scaled(params, &out, &digit, 0, &gsw[goff + k]);
        proof {
            assert forall|j: int| 0 <= j < out@.len() implies #[trigger] out@[j]
                == ext_product_fold(
                diff@,
                ct_views(gsw@),
                goff as int,
                zbits as nat,
                n as int,
                params.modulus,
                k + 1,
                j,
            ) by {
                lemma_mod_division_less_than_divisor(j, n as int);
                assert(out@[j] == mac_cell(
                    prev_out[j] as int,
                    digit@[j % (n as int)] as int,
                    gsw@[goff + k]@[j],
                    params.modulus,
                ));
            }
        }
        let mut shifted: Vec<u64> = Vec::new();
        let mut i3: usize = 0;
        while i3 < n
            invariant
                i3 <= n,
                base >= 1,
                cur@.len() == n,
                shifted@.len() == i3,
                forall|x: int| 0 <= x < i3 ==> #[trigger] shifted@[x] == cur@[x] as int / (
                base as int),
            decreases n - i3,
        {
            shifted.push(cur[i3] / base);
            i3 = i3 + 1;
        }
        proof {
            assert forall|x: int| 0 <= x < n implies shifted@[x] == diff@[x] as int / pow2(
                (((k + 1) * zbits) as nat),
            ) as int by {
                lemma_pow2_pos((k * zbits) as nat);
                lemma_pow2_pos(zbits as nat);
                lemma_div_denominator(
                    diff@[x] as int,
                    pow2((k * zbits) as nat) as int,
                    base as int,
                );
                lemma_pow2_adds((k * zbits) as nat, zbits as nat);
                assert((k + 1) * zbits == k * zbits + zbits) by {
                    lemma_mul_is_distributive_add_other_way(zbits as int, k as int, 1);
                    lemma_mul_basics(zbits as int);
                }
            }
        }
        cur = shifted;
        k = k + 1;
    }
    proof {
        assert forall|j: int| 0 <= j < out@.len() implies out@[j] == ext_product_seq(
            diff@,
            ct_views(gsw@),
            goff as int,
            zbits as nat,
            n as int,
            params.modulus,
            t as int,
        )[j] by {
            lemma_ext_product_fold_range(
                diff@,
                ct_views(gsw@),
                goff as int,
                zbits as nat,
                n as int,
                params.modulus,
                t as int,
                j,
            );
        }
        assert(out@ =~= ext_product_seq(
            diff@,
            ct_views(gsw@),
            goff as int,
            zbits as nat,
            n as int,
            params.modulus,
            t as int,
        ));
    }
    out
}

/// Reads `count` little-endian words starting at word offset `word_off`
/// and reduces each modulo the composite modulus.
pub fn read_words_reduced(
    params: &Params,
    data: &Vec<u8>,
    word_off: usize,
    count: usize,
) -> (r: Vec<u64>)
    requires
        params.wf(),
        8 * (word_off + count) <= data@.len(),
    ensures
        r@.len() == count,
        coeffs_reduced(r@, params.modulus),
        forall|w: int| 0 <= w < count ==> #[trigger] r@[w]
            == le_word_at(data@, word_off + w) % (params.modulus as int),
{
    let data_len = data.len();
    let mut r: Vec<u64> = Vec::new();
    let mut w: usize = 0;
    while w < count
        invariant
            w <= count,
            params.wf(),
            8 * (word_off + count) <= data@.len(),
            data@.len() == data_len,
            r@.len() == w,
            coeffs_reduced(r@, params.modulus),
            forall|x: int| 0 <= x < w ==> #[trigger] r@[x]
                == le_word_at(data@, word_off + x) % (params.modulus as int),
        decreases count - w,
    {
        let v = read_word_le(data, 8 * (word_off + w));
        r.push(v % params.modulus);
        w = w + 1;
    }
    r
}

/// The ciphertext a query blob deserializes to: its little-endian words,
/// each reduced into the composite modulus.
pub open spec fn query_ct_spec(params: Params, data: Seq<u8>) -> Seq<u64> {
    Seq::new(
        (2 * params.poly_len) as nat,
        |w: int| (le_word_at(data, w) % (params.modulus as int)) as u64,
    )
}

/// Deserializes a query: exactly one ciphertext of little-endian words,
/// each reduced into the composite modulus.
pub fn deserialize_query(params: &Params, data: &Vec<u8>) -> (r: Vec<u64>)
    requires
        params.wf(),
        data@.len() == params.query_bytes_spec(),
    ensures
        ct_wf(r@, *params),
        forall|w: int| 0 <= w < r@.len() ==> #[trigger] r@[w]
            == le_word_at(data@, w) % (params.modulus as int),
        r@ == query_ct_spec(*params, data@),
{
    let r = read_words_reduced(params, data, 0, 2 * params.poly_len);
    proof {
        assert(r@ =~= query_ct_spec(*params, data@));
    }
    r
}

/// The reduced little-endian words of a buffer: `count` of them, starting
/// at word offset `off`.
pub open spec fn words_reduced_spec(params: Params, data: Seq<u8>, off: int, count: int) -> Seq<
    u64,
> {
    Seq::new(count as nat, |w: int| (le_word_at(data, off + w) % (params.modulus as int)) as u64)
}

/// Whether key material is exactly the deserialization of a setup blob:
/// the three key segments hold the blob's reduced little-endian words, in
/// order, word for word.
pub open spec fn pp_of_blob(params: Params, pp: PublicParams, data: Seq<u8>) -> bool {
    let left_words = params.nu_1 * params.t_exp_left * params.ct_words_spec();
    let right_words = params.num_gsw_spec() * params.t_exp_right * params.ct_words_spec();
    let conv_words = params.t_conv * params.ct_words_spec();
    &&& pp.exp_left@ == words_reduced_spec(params, data, 0, left_words)
    &&& pp.exp_right@ == words_reduced_spec(params, data, left_words, right_words)
    &&& pp.conv@ == words_reduced_spec(params, data, left_words + right_words, conv_words)
}

/// Deserializes a session key blob.  Succeeds exactly on blobs of the
/// derived setup length; the three key segments are read in order and
/// every word is reduced.
pub fn deserialize_public(params: &Params, data: &Vec<u8>) -> (r: Option<PublicParams>)
    requires
        params.wf(),
    ensures
        r is Some <==> data@.len() == params.setup_bytes_spec(),
        r is Some ==> r.unwrap().wf(*params),
        r is Some ==> {
            let left_words = params.nu_1 * params.t_exp_left * params.ct_words_spec();
            let right_words = params.num_gsw_spec() * params.t_exp_right
                * params.ct_words_spec();
            &&& (forall|w: int| 0 <= w < r.unwrap().exp_left@.len()
                ==> #[trigger] r.unwrap().exp_left@[w]
                    == le_word_at(data@, w) % (params.modulus as int))
            &&& (forall|w: int| 0 <= w < r.unwrap().exp_right@.len()
                ==> #[trigger] r.unwrap().exp_right@[w]
                    == le_word_at(data@, left_words + w) % (params.modulus as int))
            &&& (forall|w: int| 0 <= w < r.unwrap().conv@.len()
                ==> #[trigger] r.unwrap().conv@[w]
                    == le_word_at(data@, left_words + right_words + w)
                        % (params.modulus as int))
        },
        r is Some ==> pp_of_blob(*params, r.unwrap(), data@),
{
    if data.len() != params.setup_bytes() {
        return None;
    }
    let cw = 2 * params.poly_len;
    proof {
        lemma_mul_upper_bound(params.nu_1 as int, 14, params.t_exp_left as int, 64);
        lemma_mul_upper_bound(params.nu_2 as int, 24, params.t_gsw as int, 64);
        lemma_mul_upper_bound(
            params.nu_2 as int * params.t_gsw as int,
            1536,
            params.t_exp_right as int,
            64,
        );
    }
    let lw_rows = params.nu_1 * params.t_exp_left;
    let rw_rows = (params.nu_2 * params.t_gsw) * params.t_exp_right;
    proof {
        // the three segments partition the blob
        assert((lw_rows + rw_rows + params.t_conv) * (cw as int)
            == lw_rows * (cw as int) + rw_rows * (cw as int) + params.t_conv * (cw as int))
            by {
            lemma_mul_is_distributive_add_other_way(
                cw as int,
                lw_rows as int + rw_rows as int,
                params.t_conv as int,
            );
            lemma_mul_is_distributive_add_other_way(cw as int, lw_rows as int, rw_rows as int);
        }
        assert(params.setup_words_spec() == (lw_rows + rw_rows + params.t_conv) * (cw as int));
    }
    let left_words = lw_rows * cw;
    let right_words = rw_rows * cw;
    let conv_words = params.t_conv * cw;
    let exp_left = read_words_reduced(params, data, 0, left_words);
    let exp_right = read_words_reduced(params, data, left_words, right_words);
    let conv = read_words_reduced(params, data, left_words + right_words, conv_words);
    proof {
        lemma_mul_is_associative(params.nu_1 as int, params.t_exp_left as int, cw as int);
        lemma_mul_is_associative(
            params.nu_2 as int * params.t_gsw as int,
            params.t_exp_right as int,
            cw as int,
        );
        assert(exp_left@ =~= words_reduced_spec(*params, data@, 0, left_words as int));
        assert(exp_right@ =~= words_reduced_spec(
            *params,
            data@,
            left_words as int,
            right_words as int,
        ));
        assert(conv@ =~= words_reduced_spec(
            *params,
            data@,
            left_words + right_words,
            conv_words as int,
        ));
    }
    Some(PublicParams { exp_left, exp_right, conv })
}

/// GSW selector `i` of an expansion: the query ciphertext rotated by the
/// automorphism of generator `2 * (i mod n) + 1`, key-switched through the
/// matching second-phase key block, then through the conversion keys.
pub open spec fn gsw_selector_spec(
    params: Params,
    pp: PublicParams,
    ct: Seq<u64>,
    i: int,
) -> Seq<u64> {
    let n = params.poly_len as int;
    let rot = auto_seq(ct, n, 2 * (i % n) + 1);
    let ks = key_switch_seq(
        rot,
        pp.exp_right@,
        i * (params.t_exp_right * (2 * n)),
        gadget_bits(params.t_exp_right as int) as nat,
        n,
        params.modulus,
        params.t_exp_right as int,
    );
    key_switch_seq(
        ks,
        pp.conv@,
        0,
        gadget_bits(params.t_conv as int) as nat,
        n,
        params.modulus,
        params.t_conv as int,
    )
}

/// The row selectors after `l` doubling levels: each ciphertext of the
/// previous level is rotated by the automorphism of generator
/// `2^(l-1) * 2 + 1`, key-switched through level `l - 1`'s first-phase key
/// block, and split into the sum and the difference with its source.
pub open spec fn expand_tree(params: Params, pp: PublicParams, ct: Seq<u64>, l: int) -> Seq<
    Seq<u64>,
>
    decreases l,
{
    if l <= 0 {
        seq![ct]
    } else {
        let prev = expand_tree(params, pp, ct, l - 1);
        let n = params.poly_len as int;
        let q = params.modulus;
        Seq::new(
            2 * prev.len(),
            |i: int|
                {
                    let c = prev[i / 2];
                    let rot = auto_seq(c, n, 2 * pow2((l - 1) as nat) as int + 1);
                    let ks = key_switch_seq(
                        rot,
                        pp.exp_left@,
                        (l - 1) * (params.t_exp_left * (2 * n)),
                        gadget_bits(params.t_exp_left as int) as nat,
                        n,
                        q,
                        params.t_exp_left as int,
                    );
                    if i % 2 == 0 {
                        Seq::new(c.len(), |j: int| ((c[j] + ks[j]) % (q as int)) as u64)
                    } else {
                        Seq::new(c.len(), |j: int| ((c[j] + (q - ks[j])) % (q as int)) as u64)
                    }
                },
        )
    }
}

/// Expands one compact query ciphertext into the full ordered set of
/// selection ciphertexts: `2^nu_1` first-dimension row selectors by
/// logarithmic doubling through automorphisms and key switching, then
/// `nu_2 * t_gsw` GSW column selectors through the second-phase and
/// conversion keys.  One-shot per query.
pub fn expand_query(params: &Params, pp: &PublicParams, ct: &Vec<u64>) -> (r: (
    Vec<Vec<u64>>,
    Vec<Vec<u64>>,
))
    requires
        params.wf(),
        pp.wf(*params),
        ct_wf(ct@, *params),
    ensures
        r.0@.len() == params.num_first_dim_spec(),
        r.1@.len() == params.num_gsw_spec(),
        forall|i: int| 0 <= i < r.0@.len() ==> ct_wf(#[trigger] r.0@[i]@, *params),
        forall|i: int| 0 <= i < r.1@.len() ==> ct_wf(#[trigger] r.1@[i]@, *params),
        expand_tree(*params, *pp, ct@, params.nu_1 as int).len() == r.0@.len(),
        forall|i: int| 0 <= i < r.0@.len() ==> #[trigger] r.0@[i]@ == expand_tree(
            *params,
            *pp,
            ct@,
            params.nu_1 as int,
        )[i],
        forall|i: int| 0 <= i < r.1@.len() ==> #[trigger] r.1@[i]@ == gsw_selector_spec(
            *params,
            *pp,
            ct@,
            i,
        ),
{
    let n = params.poly_len;
    let cw = 2 * n;
    let mut cur: Vec<Vec<u64>> = Vec::new();
    cur.push(copy_ct(ct));
    proof {
        lemma2_to64();
    }
    let el_len = pp.exp_left.len();
    let mut level: usize = 0;
    while level < params.nu_1
        invariant
            level <= params.nu_1,
            n == params.poly_len,
            cw == 2 * n,
            params.wf(),
            pp.wf(*params),
            pp.exp_left@.len() == el_len,
            ct_wf(ct@, *params),
            cur@.len() == pow2(level as nat),
            expand_tree(*params, *pp, ct@, level as int).len() == cur@.len(),
            forall|i: int| 0 <= i < cur@.len() ==> ct_wf(#[trigger] cur@[i]@, *params),
            forall|i: int| 0 <= i < cur@.len() ==> #[trigger] cur@[i]@ == expand_tree(
                *params,
                *pp,
                ct@,
                level as int,
            )[i],
        decreases params.nu_1 - level,
    {
        proof {
            assert(pow2(level as nat) < pow2(params.poly_len_log2 as nat)) by {
                lemma_pow2_strictly_increases(level as nat, params.poly_len_log2 as nat);
            }
            assert(pow2(level as nat) <= pow2(13)) by {
                if level < 13 {
                    lemma_pow2_strictly_increases(level as nat, 13);
                }
            }
            lemma2_to64();
            // the key row block of this level lies inside the first-phase keys
            assert((level + 1) * (params.t_exp_left * (cw as int))
                <= params.nu_1 * (params.t_exp_left * (cw as int))) by {
                lemma_mul_inequality(
                    level + 1,
                    params.nu_1 as int,
                    params.t_exp_left * (cw as int),
                );
            }
            assert((level + 1) * (params.t_exp_left * (cw as int))
                == level * (params.t_exp_left * (cw as int)) + params.t_exp_left * (cw as int))
                by {
                lemma_mul_is_distributive_add_other_way(
                    params.t_exp_left * (cw as int),
                    level as int,
                    1,
                );
                lemma_mul_basics(params.t_exp_left * (cw as int));
            }
            assert(params.nu_1 * (params.t_exp_left * (cw as int))
                == params.nu_1 * params.t_exp_left * (cw as int)) by {
                lemma_mul_is_associative(params.nu_1 as int, params.t_exp_left as int, cw as int);
            }
            lemma_mul_upper_bound(params.t_exp_left as int, 64, cw as int, 0x8000);
        }
        let g = 2 * (crate::params::pow2_u64(level) as usize) + 1;
        let koff = level * (params.t_exp_left * cw);
        let mut next: Vec<Vec<u64>> = Vec::new();
        let mut idx: usize = 0;
        let cur_len = cur.len();
        while idx < cur_len
            invariant
                idx <= cur_len,
                cur@.len() == cur_len,
                n == params.poly_len,
                cw == 2 * n,
                params.wf(),
                pp.wf(*params),
                1 <= g <= 2 * n + 1,
                koff + params.t_exp_left * params.ct_words_spec() <= pp.exp_left@.len(),
                koff == level * (params.t_exp_left * (cw as int)),
                g == 2 * pow2(level as nat) + 1,
                level < params.nu_1,
                ct_wf(ct@, *params),
                forall|i: int| 0 <= i < cur@.len() ==> ct_wf(#[trigger] cur@[i]@, *params),
                expand_tree(*params, *pp, ct@, level as int).len() == cur_len,
                forall|i: int| 0 <= i < cur@.len() ==> #[trigger] cur@[i]@ == expand_tree(
                    *params,
                    *pp,
                    ct@,
                    level as int,
                )[i],
                next@.len() == 2 * idx,
                forall|i: int| 0 <= i < next@.len() ==> ct_wf(#[trigger] next@[i]@, *params),
                forall|i: int| 0 <= i < next@.len() ==> #[trigger] next@[i]@ == expand_tree(
                    *params,
                    *pp,
                    ct@,
                    level + 1,
                )[i],
            decreases cur_len - idx,
        {
            let rot = automorph(params, &cur[idx], g);
            let ks = key_switch(params, &rot, &pp.exp_left, koff, params.t_exp_left);
            let ct_sum = poly_add(params, &cur[idx], &ks);
            let ct_diff = poly_sub(params, &cur[idx], &ks);
            proof {
                let tree1 = expand_tree(*params, *pp, ct@, level + 1);
                let prev = expand_tree(*params, *pp, ct@, level as int);
                lemma_div_multiples_vanish(idx as int, 2);
                lemma_mod_multiples_basic(idx as int, 2);
                lemma_fundamental_div_mod_converse(2 * idx + 1, 2, idx as int, 1);
                assert((2 * idx) / 2 == idx && (2 * idx) % 2 == 0);
                assert((2 * idx + 1) / 2 == idx && (2 * idx + 1) % 2 == 1);
                assert(ct_sum@ =~= tree1[2 * idx]);
                assert(ct_diff@ =~= tree1[2 * idx + 1]);
            }
            next.push(ct_sum);
            next.push(ct_diff);
            idx = idx + 1;
        }
        proof {
            lemma_pow2_adds(level as nat, 1);
            lemma2_to64();
        }
        cur = next;
        level = level + 1;
    }

    let num_gsw = params.num_gsw();
    let mut gsw_out: Vec<Vec<u64>> = Vec::new();
    let er_len = pp.exp_right.len();
    let mut j2: usize = 0;
    while j2 < num_gsw
        invariant
            j2 <= num_gsw,
            num_gsw == params.num_gsw_spec(),
            n == params.poly_len,
            cw == 2 * n,
            params.wf(),
            pp.wf(*params),
            pp.exp_right@.len() == er_len,
            ct_wf(ct@, *params),
            gsw_out@.len() == j2,
            forall|i: int| 0 <= i < gsw_out@.len() ==> ct_wf(#[trigger] gsw_out@[i]@, *params),
            forall|i: int| 0 <= i < gsw_out@.len() ==> #[trigger] gsw_out@[i]@
                == gsw_selector_spec(*params, *pp, ct@, i),
        decreases num_gsw - j2,
    {
        proof {
            lemma_mod_division_less_than_divisor(j2 as int, n as int);
            assert((j2 + 1) * (params.t_exp_right * (cw as int))
                <= num_gsw * (params.t_exp_right * (cw as int))) by {
                lemma_mul_inequality(
                    j2 + 1,
                    num_gsw as int,
                    params.t_exp_right * (cw as int),
                );
            }
            assert((j2 + 1) * (params.t_exp_right * (cw as int))
                == j2 * (params.t_exp_right * (cw as int)) + params.t_exp_right * (cw as int))
                by {
                lemma_mul_is_distributive_add_other_way(
                    params.t_exp_right * (cw as int),
                    j2 as int,
                    1,
                );
                lemma_mul_basics(params.t_exp_right * (cw as int));
            }
            assert(num_gsw * (params.t_exp_right * (cw as int))
                == params.num_gsw_spec() * params.t_exp_right * (cw as int)) by {
                lemma_mul_is_associative(num_gsw as int, params.t_exp_right as int, cw as int);
            }
            lemma_mul_upper_bound(params.t_exp_right as int, 64, cw as int, 0x8000);
            lemma_mul_upper_bound(params.nu_2 as int, 24, params.t_gsw as int, 64);
            lemma_mul_upper_bound(
                num_gsw as int,
                1536,
                params.t_exp_right * (cw as int),
                0x20_0000,
            );
        }
        let g = 2 * (j2 % n) + 1;
        let rot = automorph(params, ct, g);
        let koff = j2 * (params.t_exp_right * cw);
        let ks = key_switch(params, &rot, &pp.exp_right, koff, params.t_exp_right);
        let sel = key_switch(params, &ks, &pp.conv, 0, params.t_conv);
        proof {
            assert(sel@ == gsw_selector_spec(*params, *pp, ct@, j2 as int));
        }
        gsw_out.push(sel);
        j2 = j2 + 1;
    }
    (cur, gsw_out)
}

/// One reduced multiply-accumulate step on a single slot.
pub open spec fn mac_cell(acc: int, plain: int, sel: u64, q: u64) -> int {
    (acc + (plain * sel) % (q as int)) % (q as int)
}

/// The width of one gadget digit for a decomposition into `t` digits.
pub open spec fn gadget_bits(t: int) -> int {
    if 64int / t >= 1 {
        if 64int / t <= 56 {
            64int / t
        } else {
            56int
        }
    } else {
        1int
    }
}

/// Digit `k` of a coefficient under a gadget base of `zbits` bits.
pub open spec fn digit_of(x: u64, zbits: nat, k: nat) -> int {
    (x as int / pow2(k * zbits) as int) % pow2(zbits) as int
}

/// The views of a vector of ciphertexts.
pub open spec fn ct_views(s: Seq<Vec<u64>>) -> Seq<Seq<u64>> {
    Seq::new(s.len(), |i: int| s[i]@)
}

/// Slot `j` of the first-dimension selection: the multiply-accumulate of
/// the first `rows` database rows of one column against the row
/// selectors, starting from zero.
pub open spec fn first_dim_fold(
    db: Seq<u64>,
    sels: Seq<Seq<u64>>,
    col_base: int,
    row_stride: int,
    n: int,
    q: u64,
    rows: int,
    j: int,
) -> int
    decreases rows,
{
    if rows <= 0 {
        0int
    } else {
        mac_cell(
            first_dim_fold(db, sels, col_base, row_stride, n, q, rows - 1, j),
            db[col_base + (rows - 1) * row_stride + (j % n)] as int,
            sels[rows - 1][j],
            q,
        )
    }
}

/// A first-dimension fold stays a reduced residue.
pub proof fn lemma_first_dim_fold_range(
    db: Seq<u64>,
    sels: Seq<Seq<u64>>,
    col_base: int,
    row_stride: int,
    n: int,
    q: u64,
    rows: int,
    j: int,
)
    requires
        q >= 1,
    ensures
        0 <= first_dim_fold(db, sels, col_base, row_stride, n, q, rows, j) < q,
{
}

/// The whole first-dimension selection of one column, slot by slot.
pub open spec fn select_column_seq(
    db: Seq<u64>,
    sels: Seq<Seq<u64>>,
    col_base: int,
    row_stride: int,
    n: int,
    q: u64,
    rows: int,
) -> Seq<u64> {
    Seq::new(
        (2 * n) as nat,
        |j: int| first_dim_fold(db, sels, col_base, row_stride, n, q, rows, j) as u64,
    )
}

/// The first-dimension selection of one column: a plaintext-ciphertext
/// multiply-accumulate over all `2^nu_1` rows, pinned slot by slot as the
/// fold of `mac_cell`.
fn select_column(
    params: &Params,
    db: &Vec<u64>,
    first: &Vec<Vec<u64>>,
    col_base: usize,
    row_stride: usize,
    nrows: usize,
) -> (acc: Vec<u64>)
    requires
        params.wf(),
        first@.len() == nrows,
        forall|i: int| 0 <= i < first@.len() ==> ct_wf(#[trigger] first@[i]@, *params),
        nrows >= 1,
        row_stride >= params.poly_len,
        col_base + (nrows - 1) * (row_stride as int) + params.poly_len <= db@.len(),
    ensures
        ct_wf(acc@, *params),
        forall|j: int| 0 <= j < acc@.len() ==> #[trigger] acc@[j] == first_dim_fold(
            db@,
            ct_views(first@),
            col_base as int,
            row_stride as int,
            params.poly_len as int,
            params.modulus,
            nrows as int,
            j,
        ),
        acc@ == select_column_seq(
            db@,
            ct_views(first@),
            col_base as int,
            row_stride as int,
            params.poly_len as int,
            params.modulus,
            nrows as int,
        ),
{
    let n = params.poly_len;
    let db_len = db.len();
    let mut acc = zero_ct(params);
    let mut row: usize = 0;
    proof {
        lemma_mul_nonnegative(nrows as int, row_stride as int);
    }
    while row < nrows
        invariant
            row <= nrows,
            n == params.poly_len,
            params.wf(),
            first@.len() == nrows,
            forall|i: int| 0 <= i < first@.len() ==> ct_wf(#[trigger] first@[i]@, *params),
            row_stride >= n,
            col_base + (nrows - 1) * (row_stride as int) + n <= db@.len(),
            db@.len() == db_len,
            ct_wf(acc@, *params),
            forall|j: int| 0 <= j < acc@.len() ==> #[trigger] acc@[j] == first_dim_fold(
                db@,
                ct_views(first@),
                col_base as int,
                row_stride as int,
                n as int,
                params.modulus,
                row as int,
                j,
            ),
        decreases nrows - row,
    {
        proof {
            assert(row * (row_stride as int) <= (nrows - 1) * (row_stride as int)) by {
                lemma_mul_inequality(row as int, nrows - 1, row_stride as int);
            }
            lemma_mul_nonnegative(row as int, row_stride as int);
        }
        let cell = col_base + row * row_stride;
        acc = mac_scaled(params, &acc, db, cell, &first[row]);
        row = row + 1;
    }
    proof {
        assert forall|j: int| 0 <= j < acc@.len() implies acc@[j] == select_column_seq(
            db@,
            ct_views(first@),
            col_base as int,
            row_stride as int,
            n as int,
            params.modulus,
            nrows as int,
        )[j] by {
            lemma_first_dim_fold_range(
                db@,
                ct_views(first@),
                col_base as int,
                row_stride as int,
                n as int,
                params.modulus,
                nrows as int,
                j,
            );
        }
        assert(acc@ =~= select_column_seq(
            db@,
            ct_views(first@),
            col_base as int,
            row_stride as int,
            n as int,
            params.modulus,
            nrows as int,
        ));
    }
    acc
}

/// The first-dimension selections of one instance, column by column.
pub open spec fn eval_cols_spec(
    params: Params,
    db: Seq<u64>,
    first: Seq<Seq<u64>>,
    inst: int,
) -> Seq<Seq<u64>> {
    let n = params.poly_len as int;
    let rs = pow2(params.nu_2 as nat) as int * n;
    let is_stride = pow2(params.nu_1 as nat) as int * rs;
    Seq::new(
        pow2(params.nu_2 as nat),
        |c: int| select_column_seq(
            db,
            first,
            inst * is_stride + c * n,
            rs,
            n,
            params.modulus,
            pow2(params.nu_1 as nat) as int,
        ),
    )
}

/// One second-dimension folding level: each low column gains the GSW
/// external product of its difference with the matching high column.
pub open spec fn merge_level_spec(
    params: Params,
    gsw: Seq<Seq<u64>>,
    cols: Seq<Seq<u64>>,
    level: int,
) -> Seq<Seq<u64>> {
    let q = params.modulus;
    let n = params.poly_len as int;
    let half = cols.len() as int / 2;
    Seq::new(
        half as nat,
        |k: int| poly_add_seq(
            cols[k],
            ext_product_seq(
                poly_sub_seq(cols[k + half], cols[k], q),
                gsw,
                level * params.t_gsw,
                gadget_bits(params.t_gsw as int) as nat,
                n,
                q,
                params.t_gsw as int,
            ),
            q,
        ),
    )
}

/// The second-dimension folds from `level` up to the full depth.
pub open spec fn fold_levels_spec(
    params: Params,
    gsw: Seq<Seq<u64>>,
    cols: Seq<Seq<u64>>,
    level: int,
) -> Seq<Seq<u64>>
    decreases params.nu_2 - level,
{
    if level >= params.nu_2 || level < 0 {
        cols
    } else {
        fold_levels_spec(params, gsw, merge_level_spec(params, gsw, cols, level), level + 1)
    }
}

/// The evaluation result of one instance: its first-dimension selections
/// folded through every second-dimension level.
pub open spec fn eval_result_spec(
    params: Params,
    db: Seq<u64>,
    first: Seq<Seq<u64>>,
    gsw: Seq<Seq<u64>>,
    inst: int,
) -> Seq<u64> {
    fold_levels_spec(params, gsw, eval_cols_spec(params, db, first, inst), 0)[0]
}

/// Evaluates the expanded query against the database, entirely under
/// encryption: a plaintext-ciphertext multiply-accumulate over the
/// `2^nu_1` rows selects the target row, then `nu_2` levels of GSW
/// external products narrow it to the target column.  One aggregate
/// ciphertext per instance.
pub fn evaluate(
    params: &Params,
    first: &Vec<Vec<u64>>,
    gsw: &Vec<Vec<u64>>,
    db: &Vec<u64>,
) -> (r: Vec<Vec<u64>>)
    requires
        params.wf(),
        first@.len() == params.num_first_dim_spec(),
        gsw@.len() == params.num_gsw_spec(),
        forall|i: int| 0 <= i < first@.len() ==> ct_wf(#[trigger] first@[i]@, *params),
        forall|i: int| 0 <= i < gsw@.len() ==> ct_wf(#[trigger] gsw@[i]@, *params),
        db@.len() == params.db_words_spec(),
    ensures
        r@.len() == params.instances,
        forall|i: int| 0 <= i < r@.len() ==> ct_wf(#[trigger] r@[i]@, *params),
        forall|i: int| 0 <= i < r@.len() ==> #[trigger] r@[i]@ == eval_result_spec(
            *params,
            db@,
            ct_views(first@),
            ct_views(gsw@),
            i,
        ),
{
    let n = params.poly_len;
    let nrows = params.num_first_dim();
    proof {
        assert(pow2(params.nu_2 as nat) <= pow2(24)) by {
            if params.nu_2 < 24 {
                lemma_pow2_strictly_increases(params.nu_2 as nat, 24);
            }
        }
        assert(pow2(params.nu_1 as nat) <= pow2(14)) by {
            if params.nu_1 < 14 {
                lemma_pow2_strictly_increases(params.nu_1 as nat, 14);
            }
        }
        lemma2_to64();
    }
    let ncols = crate::params::pow2_u64(params.nu_2) as usize;
    proof {
        // the column stride divides the database size, which is capped
        lemma_pow2_adds(params.nu_1 as nat, params.nu_2 as nat);
        lemma_pow2_pos(params.nu_1 as nat);
        lemma_mul_nonnegative(pow2((params.nu_1 + params.nu_2) as nat) as int, n as int);
        assert(pow2(params.nu_2 as nat) <= pow2((params.nu_1 + params.nu_2) as nat)) by {
            lemma_pow2_strictly_increases(
                params.nu_2 as nat,
                (params.nu_1 + params.nu_2) as nat,
            );
        }
        lemma_mul_inequality(
            pow2(params.nu_2 as nat) as int,
            pow2((params.nu_1 + params.nu_2) as nat) as int,
            n as int,
        );
        lemma_mul_is_associative(
            params.instances as int,
            pow2((params.nu_1 + params.nu_2) as nat) as int,
            n as int,
        );
        assert(params.db_words_spec()
            == params.instances * (pow2((params.nu_1 + params.nu_2) as nat) * n));
        lemma_mul_inequality(
            1,
            params.instances as int,
            pow2((params.nu_1 + params.nu_2) as nat) * n,
        );
        lemma_mul_basics(pow2((params.nu_1 + params.nu_2) as nat) * n);
        assert(pow2(params.nu_2 as nat) * (n as int) <= params.db_words_spec());
    }
    let row_stride = ncols * n;
    proof {
        // rows * cols is the middle factor of the database shape
        lemma_mul_is_associative(nrows as int, ncols as int, n as int);
        assert(nrows * (row_stride as int) == pow2((params.nu_1 + params.nu_2) as nat) * n);
    }
    let inst_stride = nrows * row_stride;
    let db_len = db.len();
    let mut out: Vec<Vec<u64>> = Vec::new();
    let mut inst: usize = 0;
    while inst < params.instances
        invariant
            inst <= params.instances,
            n == params.poly_len,
            params.wf(),
            nrows == params.num_first_dim_spec(),
            ncols == pow2(params.nu_2 as nat),
            row_stride == ncols * n,
            inst_stride == nrows * (row_stride as int),
            params.instances * (inst_stride as int) == params.db_words_spec(),
            first@.len() == params.num_first_dim_spec(),
            gsw@.len() == params.num_gsw_spec(),
            forall|i: int| 0 <= i < first@.len() ==> ct_wf(#[trigger] first@[i]@, *params),
            forall|i: int| 0 <= i < gsw@.len() ==> ct_wf(#[trigger] gsw@[i]@, *params),
            db@.len() == params.db_words_spec(),
            db@.len() == db_len,
            nrows == pow2(params.nu_1 as nat),
            out@.len() == inst,
            forall|i: int| 0 <= i < out@.len() ==> ct_wf(#[trigger] out@[i]@, *params),
            forall|i: int| 0 <= i < out@.len() ==> #[trigger] out@[i]@ == eval_result_spec(
                *params,
                db@,
                ct_views(first@),
                ct_views(gsw@),
                i,
            ),
        decreases params.instances - inst,
    {
        proof {
            assert((inst + 1) * (inst_stride as int) <= params.instances * (inst_stride as int))
                by {
                lemma_mul_inequality(inst + 1, params.instances as int, inst_stride as int);
            }
            assert((inst + 1) * (inst_stride as int)
                == inst * (inst_stride as int) + inst_stride) by {
                lemma_mul_is_distributive_add_other_way(inst_stride as int, inst as int, 1);
                lemma_mul_basics(inst_stride as int);
            }
            lemma_mul_nonnegative(inst as int, inst_stride as int);
        }
        let base_inst = inst * inst_stride;

        // first dimension: select the target row of every column
        let mut cols: Vec<Vec<u64>> = Vec::new();
        let mut c: usize = 0;
        while c < ncols
            invariant
                c <= ncols,
                n == params.poly_len,
                params.wf(),
                nrows == params.num_first_dim_spec(),
                row_stride == ncols * n,
                base_inst + nrows * (row_stride as int) <= db@.len(),
                first@.len() == params.num_first_dim_spec(),
                forall|i: int| 0 <= i < first@.len() ==> ct_wf(#[trigger] first@[i]@, *params),
                db@.len() == db_len,
                ncols == pow2(params.nu_2 as nat),
                nrows == pow2(params.nu_1 as nat),
                base_inst == inst * (inst_stride as int),
                inst_stride == nrows * (row_stride as int),
                cols@.len() == c,
                forall|i: int| 0 <= i < cols@.len() ==> ct_wf(#[trigger] cols@[i]@, *params),
                forall|i: int| 0 <= i < cols@.len() ==> #[trigger] cols@[i]@ == eval_cols_spec(
                    *params,
                    db@,
                    ct_views(first@),
                    inst as int,
                )[i],
            decreases ncols - c,
        {
            proof {
                assert((c + 1) * (n as int) <= ncols * (n as int)) by {
                    lemma_mul_inequality(c + 1, ncols as int, n as int);
                }
                assert((c + 1) * (n as int) == c * (n as int) + n) by {
                    lemma_mul_is_distributive_add_other_way(n as int, c as int, 1);
                    lemma_mul_basics(n as int);
                }
                lemma_mul_nonnegative(c as int, n as int);
                lemma_mul_nonnegative(nrows as int, row_stride as int);
                assert(nrows * (row_stride as int)
                    == (nrows - 1) * (row_stride as int) + row_stride) by {
                    lemma_mul_is_distributive_sub_other_way(
                        row_stride as int,
                        nrows as int,
                        1,
                    );
                    lemma_mul_basics(row_stride as int);
                }
                assert(pow2(params.nu_1 as nat) >= 1) by {
                    lemma_pow2_pos(params.nu_1 as nat);
                }
            }
            let col_base = base_inst + c * n;
            let acc = select_column(params, db, first, col_base, row_stride, nrows);
            proof {
                assert(acc@ == eval_cols_spec(*params, db@, ct_views(first@), inst as int)[c as int]);
            }
            cols.push(acc);
            c = c + 1;
        }
        proof {
            assert(ct_views(cols@) =~= eval_cols_spec(*params, db@, ct_views(first@), inst as int));
        }

        // second dimension: fold column pairs with GSW external products
        let mut width = ncols;
        let mut level: usize = 0;
        while width > 1
            invariant
                level <= params.nu_2,
                width == pow2((params.nu_2 - level) as nat),
                n == params.poly_len,
                params.wf(),
                gsw@.len() == params.num_gsw_spec(),
                forall|i: int| 0 <= i < gsw@.len() ==> ct_wf(#[trigger] gsw@[i]@, *params),
                cols@.len() == width,
                forall|i: int| 0 <= i < cols@.len() ==> ct_wf(#[trigger] cols@[i]@, *params),
                fold_levels_spec(*params, ct_views(gsw@), ct_views(cols@), level as int)
                    == fold_levels_spec(
                    *params,
                    ct_views(gsw@),
                    eval_cols_spec(*params, db@, ct_views(first@), inst as int),
                    0,
                ),
            decreases width,
        {
            proof {
                if params.nu_2 - level == 0 {
                    lemma2_to64();
                    assert(false);
                }
                lemma_pow2_adds((params.nu_2 - level - 1) as nat, 1);
                lemma2_to64();
                lemma_mul_upper_bound(level as int, 24, params.t_gsw as int, 64);
                assert((level + 1) * (params.t_gsw as int)
                    <= params.nu_2 * (params.t_gsw as int)) by {
                    lemma_mul_inequality(level + 1, params.nu_2 as int, params.t_gsw as int);
                }
                assert((level + 1) * (params.t_gsw as int)
                    == level * (params.t_gsw as int) + params.t_gsw) by {
                    lemma_mul_is_distributive_add_other_way(
                        params.t_gsw as int,
                        level as int,
                        1,
                    );
                    lemma_mul_basics(params.t_gsw as int);
                }
                lemma_mul_nonnegative(level as int, params.t_gsw as int);
            }
            let half = width / 2;
            let goff = level * params.t_gsw;
            let mut merged: Vec<Vec<u64>> = Vec::new();
            let mut k2: usize = 0;
            while k2 < half
                invariant
                    k2 <= half,
                    half * 2 == width,
                    n == params.poly_len,
                    params.wf(),
                    goff + params.t_gsw <= gsw@.len(),
                    gsw@.len() == params.num_gsw_spec(),
                    forall|i: int| 0 <= i < gsw@.len() ==> ct_wf(#[trigger] gsw@[i]@, *params),
                    cols@.len() == width,
                    forall|i: int| 0 <= i < cols@.len()
                        ==> ct_wf(#[trigger] cols@[i]@, *params),
                    goff == level * (params.t_gsw as int),
                    level < params.nu_2,
                    merged@.len() == k2,
                    forall|i: int| 0 <= i < merged@.len()
                        ==> ct_wf(#[trigger] merged@[i]@, *params),
                    forall|i: int| 0 <= i < merged@.len() ==> #[trigger] merged@[i]@
                        == merge_level_spec(*params, ct_views(gsw@), ct_views(cols@), level as int)[i],
                decreases half - k2,
            {
                let diff = poly_sub(params, &cols[k2 + half], &cols[k2]);
                let prod = ext_product(params, &diff, gsw, goff, params.t_gsw);
                let summed = poly_add(params, &cols[k2], &prod);
                proof {
                    assert(summed@ == merge_level_spec(
                        *params,
                        ct_views(gsw@),
                        ct_views(cols@),
                        level as int,
                    )[k2 as int]);
                }
                merged.push(summed);
                k2 = k2 + 1;
            }
            proof {
                assert(ct_views(merged@) =~= merge_level_spec(
                    *params,
                    ct_views(gsw@),
                    ct_views(cols@),
                    level as int,
                ));
                assert(fold_levels_spec(*params, ct_views(gsw@), ct_views(cols@), level as int)
                    == fold_levels_spec(*params, ct_views(gsw@), ct_views(merged@), level + 1));
            }
            cols = merged;
            width = half;
            level = level + 1;
        }
        proof {
            lemma2_to64();
            if params.nu_2 - level > 0 {
                lemma_pow2_strictly_increases(0, (params.nu_2 - level) as nat);
                assert(false);
            }
            assert(fold_levels_spec(*params, ct_views(gsw@), ct_views(cols@), level as int)
                == ct_views(cols@));
            assert(cols@[0]@ == eval_result_spec(
                *params,
                db@,
                ct_views(first@),
                ct_views(gsw@),
                inst as int,
            ));
        }
        let result = copy_ct(&cols[0]);
        out.push(result);
        inst = inst + 1;
    }
    out
}

/// The little-endian value stored for switched coefficient `p` of a
/// response buffer, `qb` bytes per coefficient.
pub open spec fn switched_at(bytes: Seq<u8>, qb: int, p: int) -> int {
    le_bytes_val(bytes.subrange(qb * p, qb * p + qb))
}

/// Modulus-switches every coefficient of the evaluation result down to
/// the narrower response modulus via `recenter`, and serializes the
/// switched words as fixed-width little-endian bytes.
pub fn switch_and_encode(params: &Params, cts: &Vec<Vec<u64>>) -> (r: Vec<u8>)
    requires
        params.wf(),
        cts@.len() == params.instances,
        forall|i: int| 0 <= i < cts@.len() ==> ct_wf(#[trigger] cts@[i]@, *params),
    ensures
        r@.len() == params.response_bytes_spec(),
        forall|p: int| 0 <= p < params.instances * params.ct_words_spec()
            ==> #[trigger] switched_at(r@, params.q2_bytes_spec(), p)
                == recentered(
                    cts@[p / params.ct_words_spec()]@[p % params.ct_words_spec()],
                    params.modulus,
                    pow2(params.q2_bits as nat) as u64,
                ),
{
    let n = params.poly_len;
    let cw = 2 * n;
    let qb = params.q2_bytes();
    let q2 = crate::params::pow2_u64(params.q2_bits);
    proof {
        lemma_pow2_pos(params.q2_bits as nat);
        // the byte width covers the switched modulus
        lemma_fundamental_div_mod(params.q2_bits + 7, 8);
        lemma_mod_division_less_than_divisor(params.q2_bits + 7, 8);
        assert(8 * (qb as int) >= params.q2_bits);
        assert(pow2(params.q2_bits as nat) <= pow2((8 * qb) as nat)) by {
            if params.q2_bits < 8 * qb {
                lemma_pow2_strictly_increases(params.q2_bits as nat, (8 * qb) as nat);
            }
        }
        lemma_mul_upper_bound(params.instances as int, 1024, cw as int, 0x8000);
    }
    let mut out: Vec<u8> = Vec::new();
    proof {
        lemma_mul_basics(cw as int);
        lemma_mul_basics(qb as int);
    }
    let mut i: usize = 0;
    while i < params.instances
        invariant
            i <= params.instances,
            n == params.poly_len,
            cw == 2 * n,
            qb == params.q2_bytes_spec(),
            1 <= qb <= 8,
            q2 == pow2(params.q2_bits as nat),
            pow2(params.q2_bits as nat) <= pow2((8 * qb) as nat),
            params.wf(),
            cts@.len() == params.instances,
            forall|x: int| 0 <= x < cts@.len() ==> ct_wf(#[trigger] cts@[x]@, *params),
            out@.len() == qb * (i * (cw as int)),
            forall|p: int| 0 <= p < i * (cw as int)
                ==> #[trigger] switched_at(out@, qb as int, p)
                    == recentered(
                        cts@[p / (cw as int)]@[p % (cw as int)],
                        params.modulus,
                        pow2(params.q2_bits as nat) as u64,
                    ),
        decreases params.instances - i,
    {
        proof {
            lemma_mul_nonnegative(i as int, cw as int);
            assert((i + 1) * (cw as int) == i * (cw as int) + cw) by {
                lemma_mul_is_distributive_add_other_way(cw as int, i as int, 1);
                lemma_mul_basics(cw as int);
            }
            assert((i + 1) * (cw as int) <= params.instances * (cw as int)) by {
                lemma_mul_inequality(i + 1, params.instances as int, cw as int);
            }
        }
        let mut j: usize = 0;
        while j < cw
            invariant
                j <= cw,
                i < params.instances,
                n == params.poly_len,
                cw == 2 * n,
                qb == params.q2_bytes_spec(),
                1 <= qb <= 8,
                q2 == pow2(params.q2_bits as nat),
                pow2(params.q2_bits as nat) <= pow2((8 * qb) as nat),
                params.wf(),
                cts@.len() == params.instances,
                forall|x: int| 0 <= x < cts@.len() ==> ct_wf(#[trigger] cts@[x]@, *params),
                out@.len() == qb * (i * (cw as int) + j),
                forall|p: int| 0 <= p < i * (cw as int) + j
                    ==> #[trigger] switched_at(out@, qb as int, p)
                        == recentered(
                            cts@[p / (cw as int)]@[p % (cw as int)],
                            params.modulus,
                            pow2(params.q2_bits as nat) as u64,
                        ),
            decreases cw - j,
        {
            let ghost p0: int = i * (cw as int) + j;
            let ghost old_view = out@;
            proof {
                lemma_pow2_pos(params.q2_bits as nat);
            }
            let v = recenter(cts[i][j], params.modulus, q2);
            proof {
                assert(v < pow2((8 * qb) as nat));
                lemma_mul_nonnegative(qb as int, p0);
            }
            push_le_bytes(&mut out, v, qb);
            proof {
                lemma_fundamental_div_mod_converse(p0, cw as int, i as int, j as int);
                assert(qb * (p0 + 1) == qb * p0 + qb) by {
                    lemma_mul_is_distributive_add(qb as int, p0, 1);
                    lemma_mul_basics(qb as int);
                }
                // the freshly appended bytes hold the switched coefficient
                assert(out@.subrange(qb * p0, qb * p0 + qb)
                    =~= out@.subrange(old_view.len() as int, out@.len() as int));
                assert(switched_at(out@, qb as int, p0) == v);
                // earlier coefficients are untouched
                assert forall|p: int| 0 <= p < p0 implies #[trigger] switched_at(
                    out@,
                    qb as int,
                    p,
                ) == switched_at(old_view, qb as int, p) by {
                    assert(qb * p + qb == qb * (p + 1)) by {
                        lemma_mul_is_distributive_add(qb as int, p, 1);
                        lemma_mul_basics(qb as int);
                    }
                    assert(qb * (p + 1) <= qb * p0) by {
                        lemma_mul_left_inequality(qb as int, p + 1, p0);
                    }
                    lemma_mul_nonnegative(qb as int, p);
                    assert(out@.subrange(qb * p, qb * p + qb)
                        =~= old_view.subrange(qb * p, qb * p + qb));
                }
            }
            j = j + 1;
        }
        i = i + 1;
    }
    proof {
        assert(params.response_bytes_spec()
            == qb * (params.instances * (cw as int))) by {
            lemma_mul_is_commutative(qb as int, params.instances * (cw as int));
            lemma_mul_is_associative(params.instances as int, cw as int, qb as int);
        }
    }
    out
}

/// All GSW selectors of an expansion, in order.
pub open spec fn gsw_selectors_spec(params: Params, pp: PublicParams, query: Seq<u64>) -> Seq<
    Seq<u64>,
> {
    Seq::new(params.num_gsw_spec() as nat, |i: int| gsw_selector_spec(params, pp, query, i))
}

/// The evaluation results one query produces under one session: the
/// expanded selectors applied to the database, one ciphertext per
/// instance.
pub open spec fn response_cts_spec(
    params: Params,
    pp: PublicParams,
    query: Seq<u64>,
    db: Seq<u64>,
) -> Seq<Seq<u64>> {
    Seq::new(
        params.instances as nat,
        |i: int| eval_result_spec(
            params,
            db,
            expand_tree(params, pp, query, params.nu_1 as int),
            gsw_selectors_spec(params, pp, query),
            i,
        ),
    )
}

/// The query orchestrator: a pure function from the parameter model, the
/// session key material, one deserialized query ciphertext and the
/// database to the serialized response.  Expansion, then evaluation, then
/// modulus switching and encoding; the response bytes are pinned
/// coefficient by coefficient, so identical inputs give identical
/// outputs — nothing here draws on randomness, time or the environment.
pub fn process_query(
    params: &Params,
    pp: &PublicParams,
    query_ct: &Vec<u64>,
    db: &Vec<u64>,
) -> (r: Vec<u8>)
    requires
        params.wf(),
        pp.wf(*params),
        ct_wf(query_ct@, *params),
        db@.len() == params.db_words_spec(),
    ensures
        r@.len() == params.response_bytes_spec(),
        forall|p: int| 0 <= p < params.instances * params.ct_words_spec()
            ==> #[trigger] switched_at(r@, params.q2_bytes_spec(), p) == recentered(
                response_cts_spec(*params, *pp, query_ct@, db@)[p / params.ct_words_spec()][p
                    % params.ct_words_spec()],
                params.modulus,
                pow2(params.q2_bits as nat) as u64,
            ),
{
    let expanded = expand_query(params, pp, query_ct);
    let result = evaluate(params, &expanded.0, &expanded.1, db);
    proof {
        assert(ct_views(expanded.0@) =~= expand_tree(
            *params,
            *pp,
            query_ct@,
            params.nu_1 as int,
        ));
        assert(ct_views(expanded.1@) =~= gsw_selectors_spec(*params, *pp, query_ct@));
        assert forall|i: int| 0 <= i < result@.len() implies #[trigger] result@[i]@
            == response_cts_spec(*params, *pp, query_ct@, db@)[i] by {
            assert(response_cts_spec(*params, *pp, query_ct@, db@)[i] == eval_result_spec(
                *params,
                db@,
                expand_tree(*params, *pp, query_ct@, params.nu_1 as int),
                gsw_selectors_spec(*params, *pp, query_ct@),
                i,
            ));
        }
    }
    let encoded = switch_and_encode(params, &result);
    proof {
        assert forall|p: int| 0 <= p < params.instances * params.ct_words_spec()
            implies #[trigger] switched_at(encoded@, params.q2_bytes_spec(), p) == recentered(
            response_cts_spec(*params, *pp, query_ct@, db@)[p / params.ct_words_spec()][p
                % params.ct_words_spec()],
            params.modulus,
            pow2(params.q2_bits as nat) as u64,
        ) by {
            lemma_mul_is_commutative(params.instances as int, params.ct_words_spec());
            lemma_multiply_divide_lt(p, params.ct_words_spec(), params.instances as int);
            lemma_mod_division_less_than_divisor(p, params.ct_words_spec());
            lemma_div_pos_is_pos(p, params.ct_words_spec());
            assert(result@[p / params.ct_words_spec()]@ == response_cts_spec(
                *params,
                *pp,
                query_ct@,
                db@,
            )[p / params.ct_words_spec()]);
        }
    }
    encoded
}

} // verus!
