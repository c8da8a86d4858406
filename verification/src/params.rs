//! The parameter model: a single validated, immutable description of the
//! cryptographic instance.  Every derived size (serialized query length,
//! ciphertext widths, database shape) is a pure function of its fields.

use vstd::prelude::*;
use vstd::arithmetic::mul::*;
use vstd::arithmetic::power2::pow2;

verus! {

/// Product of a sequence of CRT moduli, as a mathematical integer.
pub open spec fn product_of(s: Seq<u64>) -> int
    decreases s.len(),
{
    if s.len() == 0 {
        1int
    } else {
        s[0] * product_of(s.skip(1))
    }
}

/// Appending a factor multiplies the product.
pub proof fn lemma_product_push(s: Seq<u64>, v: u64)
    ensures
        product_of(s.push(v)) == product_of(s) * v,
    decreases s.len(),
{
    if s.len() == 0 {
        assert(s.push(v).skip(1) =~= Seq::<u64>::empty());
        assert(product_of(Seq::<u64>::empty()) == 1);
        assert(product_of(s.push(v)) == v * 1);
        lemma_mul_basics(v as int);
    } else {
        assert(s.push(v).skip(1) =~= s.skip(1).push(v));
        lemma_product_push(s.skip(1), v);
        assert(product_of(s.push(v)) == s[0] * (product_of(s.skip(1)) * v));
        lemma_mul_is_associative(s[0] as int, product_of(s.skip(1)), v as int);
    }
}

/// A product of factors that are all at least one is at least one.
pub proof fn lemma_product_at_least_one(s: Seq<u64>)
    requires
        forall|j: int| 0 <= j < s.len() ==> 1 <= #[trigger] s[j],
    ensures
        product_of(s) >= 1,
    decreases s.len(),
{
    if s.len() > 0 {
        assert(forall|j: int| 0 <= j < s.skip(1).len() ==> 1 <= #[trigger] s.skip(1)[j]);
        lemma_product_at_least_one(s.skip(1));
        lemma_mul_inequality(1, s[0] as int, product_of(s.skip(1)));
        lemma_mul_is_commutative(s[0] as int, product_of(s.skip(1)));
    }
}

/// With every remaining factor at least one, the product of a prefix never
/// exceeds the product of the whole sequence.
pub proof fn lemma_product_prefix_le(s: Seq<u64>, i: int)
    requires
        0 <= i <= s.len(),
        forall|j: int| 0 <= j < s.len() ==> 1 <= #[trigger] s[j],
    ensures
        product_of(s.take(i)) <= product_of(s),
        product_of(s.take(i)) >= 1,
    decreases s.len() - i,
{
    assert(forall|j: int| 0 <= j < s.take(i).len() ==> 1 <= #[trigger] s.take(i)[j]);
    lemma_product_at_least_one(s.take(i));
    if i == s.len() {
        assert(s.take(i) =~= s);
    } else {
        assert(s.take(i + 1) =~= s.take(i).push(s[i]));
        lemma_product_push(s.take(i), s[i]);
        lemma_mul_left_inequality(product_of(s.take(i)), 1, s[i] as int);
        lemma_mul_basics(product_of(s.take(i)));
        lemma_product_prefix_le(s, i + 1);
    }
}

/// Immutable description of one cryptographic instance.  Constructed once,
/// validated, then shared read-only by every component.
pub struct Params {
    /// Ring dimension (a power of two).
    pub poly_len: usize,
    /// Base-two logarithm of the ring dimension.
    pub poly_len_log2: usize,
    /// Pairwise-coprime CRT components of the ciphertext modulus.
    pub moduli: Vec<u64>,
    /// The composite ciphertext modulus: the product of `moduli`.
    pub modulus: u64,
    /// Plaintext modulus.
    pub pt_modulus: u64,
    /// Bit width of the narrower modulus used when switching the response.
    pub q2_bits: usize,
    /// Gadget digit count for the GSW external product.
    pub t_gsw: usize,
    /// Gadget digit count for key-switching conversion.
    pub t_conv: usize,
    /// Gadget digit count for the first expansion phase.
    pub t_exp_left: usize,
    /// Gadget digit count for the second expansion phase.
    pub t_exp_right: usize,
    /// First-dimension depth: the database has `2^nu_1` rows.
    pub nu_1: usize,
    /// Second-dimension depth: the database has `2^nu_2` columns.
    pub nu_2: usize,
    /// Number of parallel independent databases sharing one query.
    pub instances: usize,
    /// Size of one database item, in bytes.
    pub db_item_size: usize,
}

impl Params {
    /// Well-formedness of a parameter set.  Each numeric cap is a machine
    /// limit: the ring cap keeps slot-index products inside a 32-bit
    /// machine word; the depth and instance caps keep the database word
    /// count computable in a word before the exact size caps are checked;
    /// a gadget digit is at least one bit wide, so 64 digits always cover
    /// a 64-bit coefficient and more would only add all-zero rows; and the
    /// composite modulus stays below `2^61` so the kernel's signed
    /// intermediates in `recenter` cannot overflow.
    pub open spec fn wf(self) -> bool {
        &&& 1 <= self.poly_len_log2 <= 14
        &&& self.poly_len == pow2(self.poly_len_log2 as nat)
        &&& 2 <= self.poly_len <= 0x4000
        &&& 1 <= self.moduli@.len()
        &&& (forall|i: int| 0 <= i < self.moduli@.len() ==> 2 <= #[trigger] self.moduli@[i])
        &&& self.modulus == product_of(self.moduli@)
        &&& 2 <= self.modulus < 0x2000_0000_0000_0000u64
        &&& 2 <= self.pt_modulus
        &&& 1 <= self.q2_bits <= 32
        &&& pow2(self.q2_bits as nat) <= self.modulus
        &&& 1 <= self.t_gsw <= 64
        &&& 1 <= self.t_conv <= 64
        &&& 1 <= self.t_exp_left <= 64
        &&& 1 <= self.t_exp_right <= 64
        &&& 1 <= self.nu_1 <= self.poly_len_log2
        &&& 1 <= self.nu_2 <= 24
        &&& 1 <= self.instances <= 1024
        &&& 1 <= self.db_item_size
        &&& self.db_words_spec() <= 0x7fff_ffff
        &&& self.setup_words_spec() <= 0x7ff_ffff
    }

    /// Words of one serialized ciphertext: two polynomials of ring size.
    pub open spec fn ct_words_spec(self) -> int {
        2 * self.poly_len
    }

    /// Exact serialized length of one query, in bytes: one ciphertext,
    /// eight bytes per coefficient.
    pub open spec fn query_bytes_spec(self) -> int {
        8 * self.ct_words_spec()
    }

    /// Number of first-dimension selection ciphertexts: one per row.
    pub open spec fn num_first_dim_spec(self) -> int {
        pow2(self.nu_1 as nat) as int
    }

    /// Number of second-dimension GSW selection ciphertexts.
    pub open spec fn num_gsw_spec(self) -> int {
        self.nu_2 * self.t_gsw
    }

    /// Total count of selection ciphertexts produced by query expansion.
    pub open spec fn num_expanded_spec(self) -> int {
        self.num_first_dim_spec() + self.num_gsw_spec()
    }

    /// Words of the database: instances times rows times columns times
    /// ring size.
    pub open spec fn db_words_spec(self) -> int {
        self.instances * pow2((self.nu_1 + self.nu_2) as nat) * self.poly_len
    }

    /// Words of a serialized session key blob: one key-switching matrix of
    /// `t_exp_left` digit rows per first-phase expansion level, one of
    /// `t_exp_right` digit rows per GSW selector, and one conversion
    /// matrix of `t_conv` digit rows.
    pub open spec fn setup_words_spec(self) -> int {
        (self.nu_1 * self.t_exp_left + self.num_gsw_spec() * self.t_exp_right + self.t_conv)
            * self.ct_words_spec()
    }

    /// Bytes of a serialized session key blob.
    pub open spec fn setup_bytes_spec(self) -> int {
        8 * self.setup_words_spec()
    }

    /// Bytes carrying one switched coefficient in a response.
    pub open spec fn q2_bytes_spec(self) -> int {
        (self.q2_bits + 7) / 8
    }

    /// Exact serialized length of one response, in bytes: one switched
    /// ciphertext per instance.
    pub open spec fn response_bytes_spec(self) -> int {
        self.instances * self.ct_words_spec() * self.q2_bytes_spec()
    }
}

/// A power of two small enough for a machine word.
pub fn pow2_u64(e: usize) -> (r: u64)
    requires
        e <= 62,
    ensures
        r == pow2(e as nat),
{
    let mut r: u64 = 1;
    let mut i: usize = 0;
    proof {
        vstd::arithmetic::power2::lemma2_to64();
    }
    while i < e
        invariant
            i <= e <= 62,
            r == pow2(i as nat),
        decreases e - i,
    {
        proof {
            vstd::arithmetic::power2::lemma_pow2_adds(i as nat, 1);
            vstd::arithmetic::power2::lemma2_to64();
            assert(pow2((i + 1) as nat) == pow2(i as nat) * 2);
            assert(pow2(i as nat) <= pow2(61)) by {
                if i < 61 {
                    vstd::arithmetic::power2::lemma_pow2_strictly_increases(i as nat, 61);
                }
            }
            vstd::arithmetic::power2::lemma2_to64_rest();
        }
        r = r * 2;
        i = i + 1;
    }
    r
}

/// Whether a declarative configuration describes a well-formed instance.
pub open spec fn config_ok(
    poly_len_log2: int,
    moduli: Seq<u64>,
    pt_modulus: u64,
    q2_bits: int,
    t_gsw: int,
    t_conv: int,
    t_exp_left: int,
    t_exp_right: int,
    nu_1: int,
    nu_2: int,
    instances: int,
    db_item_size: int,
) -> bool {
    &&& 1 <= poly_len_log2 <= 14
    &&& 1 <= moduli.len()
    &&& (forall|i: int| 0 <= i < moduli.len() ==> 2 <= #[trigger] moduli[i])
    &&& 2 <= product_of(moduli) < 0x2000_0000_0000_0000
    &&& 2 <= pt_modulus
    &&& 1 <= q2_bits <= 32
    &&& pow2(q2_bits as nat) <= product_of(moduli)
    &&& 1 <= t_gsw <= 64
    &&& 1 <= t_conv <= 64
    &&& 1 <= t_exp_left <= 64
    &&& 1 <= t_exp_right <= 64
    &&& 1 <= nu_1 <= poly_len_log2
    &&& 1 <= nu_2 <= 24
    &&& 1 <= instances <= 1024
    &&& 1 <= db_item_size
    &&& instances * pow2((nu_1 + nu_2) as nat) * pow2(poly_len_log2 as nat) <= 0x7fff_ffff
    &&& (nu_1 * t_exp_left + (nu_2 * t_gsw) * t_exp_right + t_conv)
        * (2 * pow2(poly_len_log2 as nat)) <= 0x7ff_ffff
}

impl Params {
    /// Builds and validates the parameter model from the declarative
    /// configuration.  Returns the model exactly when the configuration
    /// describes a well-formed instance.
    pub fn new(
        poly_len_log2: usize,
        moduli: Vec<u64>,
        pt_modulus: u64,
        q2_bits: usize,
        t_gsw: usize,
        t_conv: usize,
        t_exp_left: usize,
        t_exp_right: usize,
        nu_1: usize,
        nu_2: usize,
        instances: usize,
        db_item_size: usize,
    ) -> (r: Option<Params>)
        ensures
            r is Some <==> config_ok(
                poly_len_log2 as int,
                moduli@,
                pt_modulus,
                q2_bits as int,
                t_gsw as int,
                t_conv as int,
                t_exp_left as int,
                t_exp_right as int,
                nu_1 as int,
                nu_2 as int,
                instances as int,
                db_item_size as int,
            ),
            r is Some ==> {
                let p = r.unwrap();
                &&& p.wf()
                &&& p.poly_len_log2 == poly_len_log2
                &&& p.poly_len == pow2(poly_len_log2 as nat)
                &&& p.moduli@ == moduli@
                &&& p.modulus == product_of(moduli@)
                &&& p.pt_modulus == pt_modulus
                &&& p.q2_bits == q2_bits
                &&& p.t_gsw == t_gsw
                &&& p.t_conv == t_conv
                &&& p.t_exp_left == t_exp_left
                &&& p.t_exp_right == t_exp_right
                &&& p.nu_1 == nu_1
                &&& p.nu_2 == nu_2
                &&& p.instances == instances
                &&& p.db_item_size == db_item_size
            },
    {
        if !(1 <= poly_len_log2 && poly_len_log2 <= 14) {
            return None;
        }
        if moduli.len() < 1 {
            return None;
        }
        if !(2 <= pt_modulus) {
            return None;
        }
        if !(1 <= q2_bits && q2_bits <= 32) {
            return None;
        }
        if !(1 <= t_gsw && t_gsw <= 64) || !(1 <= t_conv && t_conv <= 64) {
            return None;
        }
        if !(1 <= t_exp_left && t_exp_left <= 64) || !(1 <= t_exp_right && t_exp_right <= 64) {
            return None;
        }
        if !(1 <= nu_1 && nu_1 <= poly_len_log2) || !(1 <= nu_2 && nu_2 <= 24) {
            return None;
        }
        if !(1 <= instances && instances <= 1024) || db_item_size < 1 {
            return None;
        }

        // every CRT component must be a genuine modulus
        let mut i: usize = 0;
        while i < moduli.len()
            invariant
                i <= moduli@.len(),
                forall|j: int| 0 <= j < i ==> 2 <= #[trigger] moduli@[j],
            decreases moduli@.len() - i,
        {
            if moduli[i] < 2 {
                return None;
            }
            i = i + 1;
        }

        // the composite modulus: the product of the components, which must
        // stay inside the range the kernel's intermediates tolerate
        let mut prod: u64 = 1;
        let mut k: usize = 0;
        proof {
            assert(moduli@.take(0) =~= Seq::<u64>::empty());
        }
        while k < moduli.len()
            invariant
                k <= moduli@.len(),
                forall|j: int| 0 <= j < moduli@.len() ==> 2 <= #[trigger] moduli@[j],
                prod == product_of(moduli@.take(k as int)),
                prod < 0x2000_0000_0000_0000,
            decreases moduli@.len() - k,
        {
            proof {
                assert(moduli@.take(k + 1) =~= moduli@.take(k as int).push(moduli@[k as int]));
                lemma_product_push(moduli@.take(k as int), moduli@[k as int]);
                lemma_product_prefix_le(moduli@, k + 1);
            }
            let next = match prod.checked_mul(moduli[k]) {
                Some(p) => p,
                None => {
                    return None;
                },
            };
            if next >= 0x2000_0000_0000_0000 {
                return None;
            }
            prod = next;
            k = k + 1;
        }
        proof {
            assert(moduli@.take(moduli@.len() as int) =~= moduli@);
            assert(product_of(moduli@.skip(1)) >= 1) by {
                lemma_product_at_least_one(moduli@.skip(1));
            }
            assert(product_of(moduli@) >= 2) by {
                lemma_mul_inequality(1, product_of(moduli@.skip(1)), product_of(moduli@.skip(1)));
                lemma_mul_left_inequality(moduli@[0] as int, 1, product_of(moduli@.skip(1)));
                lemma_mul_basics(moduli@[0] as int);
            }
        }

        let poly_len_u64 = pow2_u64(poly_len_log2);
        proof {
            assert(pow2(poly_len_log2 as nat) >= pow2(1)) by {
                if poly_len_log2 > 1 {
                    vstd::arithmetic::power2::lemma_pow2_strictly_increases(
                        1,
                        poly_len_log2 as nat,
                    );
                }
            }
            assert(pow2(poly_len_log2 as nat) <= pow2(14)) by {
                if poly_len_log2 < 14 {
                    vstd::arithmetic::power2::lemma_pow2_strictly_increases(
                        poly_len_log2 as nat,
                        14,
                    );
                }
            }
            vstd::arithmetic::power2::lemma2_to64();
        }
        let poly_len = poly_len_u64 as usize;

        // the narrower response modulus must fit under the composite one
        let q2 = pow2_u64(q2_bits);
        if q2 > prod {
            return None;
        }

        // derived sizes must fit the machine word
        let rows_cols = pow2_u64(nu_1 + nu_2);
        proof {
            assert(pow2((nu_1 + nu_2) as nat) <= pow2(38)) by {
                if nu_1 + nu_2 < 38 {
                    vstd::arithmetic::power2::lemma_pow2_strictly_increases(
                        (nu_1 + nu_2) as nat,
                        38,
                    );
                }
            }
            vstd::arithmetic::power2::lemma2_to64_rest();
            lemma_mul_upper_bound(instances as int, 1024, rows_cols as int, 0x40_0000_0000);
            lemma_mul_upper_bound(
                instances as int * rows_cols as int,
                0x1_0000_0000_0000,
                poly_len as int,
                0x4000,
            );
        }
        let dw: u64 = (instances as u64) * rows_cols * poly_len_u64;
        if dw > 0x7fff_ffff {
            return None;
        }
        proof {
            lemma_mul_upper_bound(nu_1 as int, 14, t_exp_left as int, 64);
            lemma_mul_upper_bound(nu_2 as int, 24, t_gsw as int, 64);
            lemma_mul_upper_bound(nu_2 as int * t_gsw as int, 1536, t_exp_right as int, 64);
        }
        let inner: u64 = (nu_1 as u64) * (t_exp_left as u64)
            + ((nu_2 as u64) * (t_gsw as u64)) * (t_exp_right as u64)
            + (t_conv as u64);
        proof {
            lemma_mul_upper_bound(inner as int, 0x1_0000_0000, 2 * poly_len as int, 0x8000);
        }
        let sw: u64 = inner * (2 * poly_len_u64);
        if sw > 0x7ff_ffff {
            return None;
        }

        Some(
            Params {
                poly_len,
                poly_len_log2,
                moduli,
                modulus: prod,
                pt_modulus,
                q2_bits,
                t_gsw,
                t_conv,
                t_exp_left,
                t_exp_right,
                nu_1,
                nu_2,
                instances,
                db_item_size,
            },
        )
    }

    /// Words of one serialized ciphertext.
    pub fn ct_words(&self) -> (r: usize)
        requires
            self.wf(),
        ensures
            r == self.ct_words_spec(),
    {
        2 * self.poly_len
    }

    /// Exact serialized length of one query, in bytes.
    pub fn query_bytes(&self) -> (r: usize)
        requires
            self.wf(),
        ensures
            r == self.query_bytes_spec(),
    {
        8 * (2 * self.poly_len)
    }

    /// Number of first-dimension selection ciphertexts.
    pub fn num_first_dim(&self) -> (r: usize)
        requires
            self.wf(),
        ensures
            r == self.num_first_dim_spec(),
    {
        proof {
            assert(pow2(self.nu_1 as nat) <= pow2(14)) by {
                if self.nu_1 < 14 {
                    vstd::arithmetic::power2::lemma_pow2_strictly_increases(self.nu_1 as nat, 14);
                }
            }
            vstd::arithmetic::power2::lemma2_to64();
        }
        pow2_u64(self.nu_1) as usize
    }

    /// Number of second-dimension GSW selection ciphertexts.
    pub fn num_gsw(&self) -> (r: usize)
        requires
            self.wf(),
        ensures
            r == self.num_gsw_spec(),
    {
        proof {
            lemma_mul_upper_bound(self.nu_2 as int, 24, self.t_gsw as int, 64);
        }
        self.nu_2 * self.t_gsw
    }

    /// Total count of selection ciphertexts produced by query expansion.
    pub fn num_expanded(&self) -> (r: usize)
        requires
            self.wf(),
        ensures
            r == self.num_expanded_spec(),
    {
        proof {
            assert(pow2(self.nu_1 as nat) <= pow2(14)) by {
                if self.nu_1 < 14 {
                    vstd::arithmetic::power2::lemma_pow2_strictly_increases(self.nu_1 as nat, 14);
                }
            }
            vstd::arithmetic::power2::lemma2_to64();
            lemma_mul_upper_bound(self.nu_2 as int, 24, self.t_gsw as int, 64);
        }
        self.num_first_dim() + self.num_gsw()
    }

    /// Words of the database the model describes.
    pub fn db_words(&self) -> (r: usize)
        requires
            self.wf(),
        ensures
            r == self.db_words_spec(),
    {
        proof {
            assert(pow2((self.nu_1 + self.nu_2) as nat) <= pow2(38)) by {
                if self.nu_1 + self.nu_2 < 38 {
                    vstd::arithmetic::power2::lemma_pow2_strictly_increases(
                        (self.nu_1 + self.nu_2) as nat,
                        38,
                    );
                }
            }
            vstd::arithmetic::power2::lemma2_to64();
            vstd::arithmetic::power2::lemma2_to64_rest();
            lemma_mul_upper_bound(
                self.instances as int,
                1024,
                pow2((self.nu_1 + self.nu_2) as nat) as int,
                0x40_0000_0000,
            );
            lemma_mul_upper_bound(
                self.instances as int * pow2((self.nu_1 + self.nu_2) as nat) as int,
                0x1_0000_0000_0000,
                self.poly_len as int,
                0x4000,
            );
        }
        let dw: u64 = (self.instances as u64) * pow2_u64(self.nu_1 + self.nu_2)
            * (self.poly_len as u64);
        dw as usize
    }

    /// Words of a serialized session key blob.
    pub fn setup_words(&self) -> (r: usize)
        requires
            self.wf(),
        ensures
            r == self.setup_words_spec(),
    {
        proof {
            lemma_mul_upper_bound(self.nu_1 as int, 14, self.t_exp_left as int, 64);
            lemma_mul_upper_bound(self.nu_2 as int, 24, self.t_gsw as int, 64);
            lemma_mul_upper_bound(
                self.nu_2 as int * self.t_gsw as int,
                1536,
                self.t_exp_right as int,
                64,
            );
        }
        let inner: u64 = (self.nu_1 as u64) * (self.t_exp_left as u64)
            + ((self.nu_2 as u64) * (self.t_gsw as u64)) * (self.t_exp_right as u64)
            + (self.t_conv as u64);
        proof {
            lemma_mul_upper_bound(inner as int, 0x1_0000_0000, 2 * self.poly_len as int, 0x8000);
        }
        let sw: u64 = inner * (2 * (self.poly_len as u64));
        sw as usize
    }

    /// Bytes of a serialized session key blob.
    pub fn setup_bytes(&self) -> (r: usize)
        requires
            self.wf(),
        ensures
            r == self.setup_bytes_spec(),
    {
        8 * self.setup_words()
    }

    /// Bytes carrying one switched coefficient in a response.
    pub fn q2_bytes(&self) -> (r: usize)
        requires
            self.wf(),
        ensures
            r == self.q2_bytes_spec(),
            1 <= r <= 8,
    {
        (self.q2_bits + 7) / 8
    }

    /// Exact serialized length of one response, in bytes.
    pub fn response_bytes(&self) -> (r: usize)
        requires
            self.wf(),
        ensures
            r == self.response_bytes_spec(),
    {
        proof {
            lemma_mul_upper_bound(self.instances as int, 1024, 2 * self.poly_len as int, 0x8000);
            lemma_mul_upper_bound(
                self.instances as int * (2 * self.poly_len as int),
                0x200_0000,
                (self.q2_bits + 7) as int / 8,
                8,
            );
        }
        self.instances * (2 * self.poly_len) * ((self.q2_bits + 7) / 8)
    }
}

} // verus!
