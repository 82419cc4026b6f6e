//! Prime fields with Barrett reduction, and polynomials, vectors and matrices over
//! them in the normal and in the NTT domain.
use core::marker::PhantomData;
use vstd::arithmetic::div_mod::*;
use vstd::arithmetic::mul::*;
use vstd::arithmetic::power2::*;
use vstd::bits::*;
use vstd::prelude::*;

use super::util::Truncate;

verus! {

/// Number of bits needed to write `q` in binary.
pub open spec fn bit_length(q: nat) -> nat
    decreases q,
{
    if q == 0 {
        0
    } else {
        1 + bit_length(q / 2)
    }
}

/// The Barrett shift for modulus `q`: twice its bit length.
pub open spec fn barrett_shift_of(q: nat) -> nat {
    2 * bit_length(q)
}

/// The Barrett multiplier for modulus `q`: `floor(2^shift / q)`.
pub open spec fn barrett_multiplier_of(q: nat) -> nat {
    pow2(barrett_shift_of(q)) / q
}

/// Moduli this library can work with: the doubled modulus fits in 32 bits.
pub open spec fn valid_modulus(q: nat) -> bool {
    1 < q < 0x8000_0000
}

proof fn lemma_bit_length_bounds(q: nat, k: nat)
    requires
        q < pow2(k),
    ensures
        q < pow2(bit_length(q)),
        bit_length(q) <= k,
    decreases q,
{
    lemma2_to64();
    if q == 0 {
    } else {
        lemma2_to64();
        if k == 0 {
            assert(false);
        }
        let h = q / 2;
        lemma_pow2_unfold(k);
        lemma_bit_length_bounds(h, (k - 1) as nat);
        assert(bit_length(q) == 1 + bit_length(h));
        lemma_pow2_unfold(bit_length(q));
        assert(pow2(bit_length(q)) == 2 * pow2(bit_length(h)));
    }
}

/// A prime-order field `Z_q`, fixed at compile time: the modulus and the constants of
/// Barrett reduction derived from it. Elements are held as `u32`, products as `u64`
/// and the intermediate values of Barrett reduction as `u128`.
pub trait Field: Copy + Clone + core::fmt::Debug + Default + PartialEq {
    /// The prime modulus `q`.
    spec fn modulus() -> nat;

    /// The modulus lies in the range this library supports.
    proof fn lemma_modulus_valid()
        ensures
            valid_modulus(Self::modulus()),
    ;

    /// The modulus `q`.
    fn q() -> (r: u32)
        ensures
            r == Self::modulus(),
            valid_modulus(r as nat),
    ;

    /// The shift of Barrett reduction, `2 * bit_length(q)`.
    fn barrett_shift() -> (r: u32)
        ensures
            r == barrett_shift_of(Self::modulus()),
    ;

    /// The multiplier of Barrett reduction, `floor(2^shift / q)`.
    fn barrett_multiplier() -> (r: u128)
        ensures
            r == barrett_multiplier_of(Self::modulus()),
    ;

    /// Reduces a value below `2q` to its residue in `[0, q)`.
    fn small_reduce(x: u32) -> (r: u32)
        requires
            x < 2 * Self::modulus(),
        ensures
            r == x as nat % Self::modulus(),
    {
        let q = Self::q();
        if x < q {
            proof {
                lemma_small_mod(x as nat, q as nat);
            }
            x
        } else {
            proof {
                lemma_mod_sub_multiples_vanish(x as int, q as int);
                lemma_small_mod((x - q) as nat, q as nat);
            }
            x - q
        }
    }

    /// Reduces a value below `q^2` (a product of two residues) to its residue in
    /// `[0, q)` by Barrett reduction: the quotient is approximated with one
    /// multiplication and one shift, and the remainder, which lies in `[0, 2q)`, is
    /// finished by `small_reduce`.
    fn barrett_reduce(x: u64) -> (r: u32)
        requires
            x < Self::modulus() * Self::modulus(),
        ensures
            r == x as nat % Self::modulus(),
    {
        let q = Self::q();
        let shift = Self::barrett_shift();
        let m = Self::barrett_multiplier();
        let ghost b = bit_length(q as nat);
        proof {
            lemma_barrett_bounds(q as nat, x as nat, m as nat, b);
        }
        let xl: u128 = x as u128;
        let product: u128 = xl * m;
        let quotient: u128 = product >> (shift as u128);
        proof {
            lemma_u128_shr_is_div(product, shift as u128);
            lemma_barrett_quotient(q as nat, x as nat, m as nat, b);
        }
        let remainder: u128 = xl - quotient * (q as u128);
        let t: u32 = u32::truncate(remainder);
        proof {
            lemma_mod_multiples_vanish_sub(x as nat, quotient as nat, q as nat);
        }
        Self::small_reduce(t)
    }
}

proof fn lemma_mod_multiples_vanish_sub(x: nat, k: nat, q: nat)
    requires
        q > 0,
        k * q <= x,
    ensures
        (x - k * q) as nat % q == x % q,
{
    lemma_mod_multiples_vanish(-(k as int), x as int, q as int);
    lemma_mul_is_commutative(-(k as int), q as int);
    assert((q as int) * -(k as int) + x == x - k * q) by (nonlinear_arith);
    lemma_mul_unary_negation(q as int, k as int);
    lemma_mul_is_commutative(q as int, k as int);
}

/// The sizes that Barrett reduction relies on: `x * m` fits in 128 bits and the
/// shift fits in a `u128` shift amount.
proof fn lemma_barrett_bounds(q: nat, x: nat, m: nat, b: nat)
    requires
        valid_modulus(q),
        x < q * q,
        b == bit_length(q),
        m == barrett_multiplier_of(q),
    ensures
        q < pow2(b),
        b <= 31,
        x < pow2(2 * b),
        m * q <= pow2(2 * b),
        x * m <= u128::MAX,
        2 * b < 128,
{
    lemma2_to64();
    lemma_bit_length_bounds(q, 31);
    let p = pow2(2 * b);
    lemma_pow2_adds(b, b);
    lemma_mul_strict_inequality(q as int, pow2(b) as int, q as int);
    lemma_mul_strict_inequality(q as int, pow2(b) as int, pow2(b) as int);
    lemma_mul_is_commutative(q as int, pow2(b) as int);
    lemma_fundamental_div_mod(p as int, q as int);
    lemma_mod_bound(p as int, q as int);
    assert(m * q <= p);
    if 2 * b < 62 {
        lemma_pow2_strictly_increases(2 * b, 62);
    }
    lemma_pow2_adds(31, 62);
    let p62 = pow2(62);
    let p31 = pow2(31);
    lemma_pow2_pos(62);
    lemma_mul_inequality(x as int, (q * q) as int, m as int);
    assert(q * q * m == (m * q) * q) by (nonlinear_arith);
    lemma_mul_inequality((m * q) as int, p as int, q as int);
    lemma_mul_inequality(p as int, p62 as int, q as int);
    lemma_mul_strict_inequality(q as int, p31 as int, p62 as int);
    lemma_pow2_adds(64, 29);
}

/// The approximate quotient of Barrett reduction is the true quotient or one less,
/// so that the remainder lies in `[0, 2q)`.
proof fn lemma_barrett_quotient(q: nat, x: nat, m: nat, b: nat)
    requires
        valid_modulus(q),
        x < q * q,
        b == bit_length(q),
        m == barrett_multiplier_of(q),
        x < pow2(2 * b),
        q < pow2(b),
    ensures
        (x * m / pow2(2 * b)) * q <= x,
        x < (x * m / pow2(2 * b)) * q + 2 * q,
{
    let p = pow2(2 * b);
    lemma_pow2_pos(2 * b);
    let qh = x * m / p;
    lemma_fundamental_div_mod(p as int, q as int);
    let rp = p % q;
    assert(p == q * m + rp);
    lemma_mod_bound(p as int, q as int);
    lemma_fundamental_div_mod((x * m) as int, p as int);
    lemma_mod_bound((x * m) as int, p as int);
    let e = (x * m) % p;
    assert(x * m == p * qh + e);
    // qh * q * p <= x * m * q = x * (p - rp) <= x * p
    assert(qh * q * p <= x * p) by (nonlinear_arith)
        requires
            x * m == p * qh + e,
            p == q * m + rp,
            e >= 0,
            rp >= 0,
    ;
    lemma_mul_inequality_converse((qh * q) as int, x as int, p as int);
    // x * p = x * q * m + x * rp < q * (x * m) + x * q = q * (p * qh + e) + x * q
    //       < q * p * qh + q * p + q * p
    assert(x * p < (qh * q + 2 * q) * p) by (nonlinear_arith)
        requires
            x * m == p * qh + e,
            p == q * m + rp,
            e < p,
            rp < q,
            x < p,
            q > 0,
    ;
    lemma_mul_strict_inequality_converse(x as int, (qh * q + 2 * q) as int, p as int);
}

/// The field of ML-DSA: `q = 2^23 - 2^13 + 1 = 8380417`.
#[derive(Clone, Copy, Debug, Default, PartialEq)]
pub struct MlDsaField;

impl Field for MlDsaField {
    open spec fn modulus() -> nat {
        8380417
    }

    proof fn lemma_modulus_valid() {
    }

    fn q() -> (r: u32) {
        8380417
    }

    fn barrett_shift() -> (r: u32) {
        assert(bit_length(8380417) == 23) by {
            reveal_with_fuel(bit_length, 24);
        }
        46
    }

    fn barrett_multiplier() -> (r: u128) {
        assert(bit_length(8380417) == 23) by {
            reveal_with_fuel(bit_length, 24);
        }
        proof {
            lemma2_to64();
            lemma2_to64_rest();
            lemma_fundamental_div_mod_converse(70368744177664, 8380417, 8396807, 49145);
        }
        8396807
    }
}

/// The field of ML-KEM: `q = 3329`.
#[derive(Clone, Copy, Debug, Default, PartialEq)]
pub struct MlKemField;

impl Field for MlKemField {
    open spec fn modulus() -> nat {
        3329
    }

    proof fn lemma_modulus_valid() {
    }

    fn q() -> (r: u32) {
        3329
    }

    fn barrett_shift() -> (r: u32) {
        assert(bit_length(3329) == 12) by {
            reveal_with_fuel(bit_length, 13);
        }
        24
    }

    fn barrett_multiplier() -> (r: u128) {
        assert(bit_length(3329) == 12) by {
            reveal_with_fuel(bit_length, 13);
        }
        proof {
            lemma2_to64();
        }
        5039
    }
}

/// A small field, `q = 17`, in which worked examples can be followed by hand.
#[derive(Clone, Copy, Debug, Default, PartialEq)]
pub struct ToyField;

impl Field for ToyField {
    open spec fn modulus() -> nat {
        17
    }

    proof fn lemma_modulus_valid() {
    }

    fn q() -> (r: u32) {
        17
    }

    fn barrett_shift() -> (r: u32) {
        assert(bit_length(17) == 5) by {
            reveal_with_fuel(bit_length, 6);
        }
        10
    }

    fn barrett_multiplier() -> (r: u128) {
        assert(bit_length(17) == 5) by {
            reveal_with_fuel(bit_length, 6);
        }
        proof {
            lemma2_to64();
        }
        60
    }
}

/// Sum of two residues modulo `q`.
pub open spec fn field_add(a: int, b: int, q: int) -> int {
    (a + b) % q
}

/// Difference of two residues modulo `q`.
pub open spec fn field_sub(a: int, b: int, q: int) -> int {
    (a - b) % q
}

/// Additive inverse of a residue modulo `q`.
pub open spec fn field_neg(a: int, q: int) -> int {
    (-a) % q
}

/// Product of two residues modulo `q`.
pub open spec fn field_mul(a: int, b: int, q: int) -> int {
    (a * b) % q
}

/// Residues modulo `q` form a commutative ring: addition is commutative and
/// associative, every element has an additive inverse, and multiplication
/// distributes over addition.
pub proof fn lemma_field_laws(a: int, b: int, c: int, q: int)
    requires
        q > 0,
        0 <= a < q,
        0 <= b < q,
        0 <= c < q,
    ensures
        field_add(a, b, q) == field_add(b, a, q),
        field_add(field_add(a, b, q), c, q) == field_add(a, field_add(b, c, q), q),
        field_add(a, field_neg(a, q), q) == 0,
        field_mul(a, field_add(b, c, q), q) == field_add(
            field_mul(a, b, q),
            field_mul(a, c, q),
            q,
        ),
{
    lemma_add_mod_noop(a + b, c, q);
    lemma_add_mod_noop(a, b + c, q);
    lemma_mod_twice(a + b, q);
    lemma_mod_twice(b + c, q);
    lemma_small_mod(a as nat, q as nat);
    lemma_small_mod(c as nat, q as nat);
    assert(a + b + c == a + (b + c));
    lemma_add_mod_noop(a, -a, q);
    lemma_small_mod(0, q as nat);
    lemma_mod_self_0(q);
    lemma_mul_mod_noop_right(a, b + c, q);
    lemma_mul_is_distributive_add(a, b, c);
    lemma_add_mod_noop(a * b, a * c, q);
}

/// Relies on `zeroize::Zeroize` for `u32`, a volatile write of zero: the word is
/// zero afterwards.
#[verifier::external_body]
fn zeroize_word(x: &mut u32)
    ensures
        *final(x) == 0,
{
    zeroize::Zeroize::zeroize(x);
}

/// An element of the field `F`: a residue held as a `u32`. Its value is in
/// `[0, q)` whenever it was made by an operation of this library or by `new`.
#[derive(Copy, Debug, Default, PartialEq)]
pub struct Elem<F: Field>(pub u32, pub PhantomData<F>);

impl<F: Field> Clone for Elem<F> {
    fn clone(&self) -> (r: Self)
        ensures
            r == *self,
    {
        *self
    }
}

impl<F: Field> Elem<F> {
    /// The residue lies in `[0, q)`.
    pub open spec fn wf(self) -> bool {
        self.0 < F::modulus()
    }

    /// The element with residue `x`, which must already be reduced.
    pub fn new(x: u32) -> (r: Self)
        requires
            x < F::modulus(),
        ensures
            r.0 == x,
            r.wf(),
    {
        Elem(x, PhantomData)
    }

    /// Overwrites the residue with zero, in a way the compiler does not elide.
    pub fn zeroize(&mut self)
        ensures
            final(self).0 == 0,
    {
        zeroize_word(&mut self.0);
    }

    /// The sum `self + rhs` in the field.
    pub fn add(self, rhs: Self) -> (r: Self)
        requires
            self.wf(),
            rhs.wf(),
        ensures
            r.wf(),
            r.0 as int == field_add(self.0 as int, rhs.0 as int, F::modulus() as int),
    {
        proof {
            F::lemma_modulus_valid();
        }
        Elem(F::small_reduce(self.0 + rhs.0), PhantomData)
    }

    /// The difference `self - rhs` in the field.
    pub fn sub(self, rhs: Self) -> (r: Self)
        requires
            self.wf(),
            rhs.wf(),
        ensures
            r.wf(),
            r.0 as int == field_sub(self.0 as int, rhs.0 as int, F::modulus() as int),
    {
        proof {
            F::lemma_modulus_valid();
        }
        let q = F::q();
        let r = F::small_reduce(self.0 + q - rhs.0);
        proof {
            lemma_mod_add_multiples_vanish(self.0 as int - rhs.0 as int, q as int);
        }
        Elem(r, PhantomData)
    }

    /// The additive inverse `-self` in the field.
    pub fn neg(self) -> (r: Self)
        requires
            self.wf(),
        ensures
            r.wf(),
            r.0 as int == field_neg(self.0 as int, F::modulus() as int),
    {
        proof {
            F::lemma_modulus_valid();
        }
        let q = F::q();
        let r = F::small_reduce(q - self.0);
        proof {
            lemma_mod_add_multiples_vanish(-(self.0 as int), q as int);
        }
        Elem(r, PhantomData)
    }

    /// The product `self * rhs` in the field, reduced by Barrett reduction.
    pub fn mul(self, rhs: Self) -> (r: Self)
        requires
            self.wf(),
            rhs.wf(),
        ensures
            r.wf(),
            r.0 as int == field_mul(self.0 as int, rhs.0 as int, F::modulus() as int),
    {
        proof {
            F::lemma_modulus_valid();
            assert((self.0 as int) * (rhs.0 as int) < F::modulus() * F::modulus()
                <= 0x4000_0000_0000_0000) by (nonlinear_arith)
                requires
                    self.0 < F::modulus(),
                    rhs.0 < F::modulus(),
                    F::modulus() < 0x8000_0000,
            ;
        }
        let prod: u64 = (self.0 as u64) * (rhs.0 as u64);
        Elem(F::barrett_reduce(prod), PhantomData)
    }
}

/// The residues of an array of 256 field elements.
pub open spec fn residues<F: Field>(a: [Elem<F>; 256]) -> Seq<int> {
    Seq::new(256, |i: int| a[i].0 as int)
}

/// Every entry of `a` is a residue in `[0, q)`.
pub open spec fn canonical(a: Seq<int>, q: int) -> bool {
    forall|i: int| 0 <= i < a.len() ==> 0 <= #[trigger] a[i] < q
}

/// The 256 zero residues.
pub open spec fn zeros() -> Seq<int> {
    Seq::new(256, |i: int| 0)
}

/// Entrywise sum modulo `q`.
pub open spec fn seq_add(a: Seq<int>, b: Seq<int>, q: int) -> Seq<int> {
    Seq::new(a.len(), |i: int| field_add(a[i], b[i], q))
}

/// Entrywise difference modulo `q`.
pub open spec fn seq_sub(a: Seq<int>, b: Seq<int>, q: int) -> Seq<int> {
    Seq::new(a.len(), |i: int| field_sub(a[i], b[i], q))
}

/// Entrywise negation modulo `q`.
pub open spec fn seq_neg(a: Seq<int>, q: int) -> Seq<int> {
    Seq::new(a.len(), |i: int| field_neg(a[i], q))
}

/// Every entry multiplied by `c`, modulo `q`.
pub open spec fn seq_scale(c: int, a: Seq<int>, q: int) -> Seq<int> {
    Seq::new(a.len(), |i: int| field_mul(c, a[i], q))
}

/// Entrywise product modulo `q`.
pub open spec fn seq_mul(a: Seq<int>, b: Seq<int>, q: int) -> Seq<int> {
    Seq::new(a.len(), |i: int| field_mul(a[i], b[i], q))
}

fn add_coeffs<F: Field>(a: &[Elem<F>; 256], b: &[Elem<F>; 256]) -> (r: [Elem<F>; 256])
    requires
        canonical(residues(*a), F::modulus() as int),
        canonical(residues(*b), F::modulus() as int),
    ensures
        canonical(residues(r), F::modulus() as int),
        residues(r) == seq_add(residues(*a), residues(*b), F::modulus() as int),
{
    let mut r = *a;
    let mut i: usize = 0;
    while i < 256
        invariant
            i <= 256,
            canonical(residues(*a), F::modulus() as int),
            canonical(residues(*b), F::modulus() as int),
            forall|j: int|
                0 <= j < i ==> (#[trigger] r[j]).wf() && r[j].0 as int == field_add(
                    a[j].0 as int,
                    b[j].0 as int,
                    F::modulus() as int,
                ),
        decreases 256 - i,
    {
        assert(residues(*a)[i as int] == a[i as int].0);
        assert(residues(*b)[i as int] == b[i as int].0);
        r[i] = a[i].add(b[i]);
        i += 1;
    }
    assert(residues(r) =~= seq_add(residues(*a), residues(*b), F::modulus() as int));
    r
}

fn sub_coeffs<F: Field>(a: &[Elem<F>; 256], b: &[Elem<F>; 256]) -> (r: [Elem<F>; 256])
    requires
        canonical(residues(*a), F::modulus() as int),
        canonical(residues(*b), F::modulus() as int),
    ensures
        canonical(residues(r), F::modulus() as int),
        residues(r) == seq_sub(residues(*a), residues(*b), F::modulus() as int),
{
    let mut r = *a;
    let mut i: usize = 0;
    while i < 256
        invariant
            i <= 256,
            canonical(residues(*a), F::modulus() as int),
            canonical(residues(*b), F::modulus() as int),
            forall|j: int|
                0 <= j < i ==> (#[trigger] r[j]).wf() && r[j].0 as int == field_sub(
                    a[j].0 as int,
                    b[j].0 as int,
                    F::modulus() as int,
                ),
        decreases 256 - i,
    {
        assert(residues(*a)[i as int] == a[i as int].0);
        assert(residues(*b)[i as int] == b[i as int].0);
        r[i] = a[i].sub(b[i]);
        i += 1;
    }
    assert(residues(r) =~= seq_sub(residues(*a), residues(*b), F::modulus() as int));
    r
}

fn mul_coeffs<F: Field>(a: &[Elem<F>; 256], b: &[Elem<F>; 256]) -> (r: [Elem<F>; 256])
    requires
        canonical(residues(*a), F::modulus() as int),
        canonical(residues(*b), F::modulus() as int),
    ensures
        canonical(residues(r), F::modulus() as int),
        residues(r) == seq_mul(residues(*a), residues(*b), F::modulus() as int),
{
    let mut r = *a;
    let mut i: usize = 0;
    while i < 256
        invariant
            i <= 256,
            canonical(residues(*a), F::modulus() as int),
            canonical(residues(*b), F::modulus() as int),
            forall|j: int|
                0 <= j < i ==> (#[trigger] r[j]).wf() && r[j].0 as int == field_mul(
                    a[j].0 as int,
                    b[j].0 as int,
                    F::modulus() as int,
                ),
        decreases 256 - i,
    {
        assert(residues(*a)[i as int] == a[i as int].0);
        assert(residues(*b)[i as int] == b[i as int].0);
        r[i] = a[i].mul(b[i]);
        i += 1;
    }
    assert(residues(r) =~= seq_mul(residues(*a), residues(*b), F::modulus() as int));
    r
}

fn neg_coeffs<F: Field>(a: &[Elem<F>; 256]) -> (r: [Elem<F>; 256])
    requires
        canonical(residues(*a), F::modulus() as int),
    ensures
        canonical(residues(r), F::modulus() as int),
        residues(r) == seq_neg(residues(*a), F::modulus() as int),
{
    let mut r = *a;
    let mut i: usize = 0;
    while i < 256
        invariant
            i <= 256,
            canonical(residues(*a), F::modulus() as int),
            forall|j: int|
                0 <= j < i ==> (#[trigger] r[j]).wf() && r[j].0 as int == field_neg(
                    a[j].0 as int,
                    F::modulus() as int,
                ),
        decreases 256 - i,
    {
        assert(residues(*a)[i as int] == a[i as int].0);
        r[i] = a[i].neg();
        i += 1;
    }
    assert(residues(r) =~= seq_neg(residues(*a), F::modulus() as int));
    r
}

fn scale_coeffs<F: Field>(c: Elem<F>, a: &[Elem<F>; 256]) -> (r: [Elem<F>; 256])
    requires
        c.wf(),
        canonical(residues(*a), F::modulus() as int),
    ensures
        canonical(residues(r), F::modulus() as int),
        residues(r) == seq_scale(c.0 as int, residues(*a), F::modulus() as int),
{
    let mut r = *a;
    let mut i: usize = 0;
    while i < 256
        invariant
            i <= 256,
            c.wf(),
            canonical(residues(*a), F::modulus() as int),
            forall|j: int|
                0 <= j < i ==> (#[trigger] r[j]).wf() && r[j].0 as int == field_mul(
                    c.0 as int,
                    a[j].0 as int,
                    F::modulus() as int,
                ),
        decreases 256 - i,
    {
        assert(residues(*a)[i as int] == a[i as int].0);
        r[i] = c.mul(a[i]);
        i += 1;
    }
    assert(residues(r) =~= seq_scale(c.0 as int, residues(*a), F::modulus() as int));
    r
}

/// A member of `R_q = Z_q[X] / (X^256 + 1)`: 256 coefficients in the field `F`.
/// Polynomials can be added, subtracted, negated and multiplied by field elements;
/// multiplication of two polynomials is left to the NTT domain.
#[derive(Copy, Debug, PartialEq)]
pub struct Polynomial<F: Field>(pub [Elem<F>; 256]);

impl<F: Field> Clone for Polynomial<F> {
    fn clone(&self) -> (r: Self)
        ensures
            r == *self,
    {
        *self
    }
}

impl<F: Field> View for Polynomial<F> {
    type V = Seq<int>;

    /// The residues of the 256 coefficients.
    open spec fn view(&self) -> Seq<int> {
        residues(self.0)
    }
}

impl<F: Field> Polynomial<F> {
    /// Every coefficient is a residue in `[0, q)`.
    pub open spec fn wf(&self) -> bool {
        canonical(self@, F::modulus() as int)
    }

    /// The polynomial with the given coefficients.
    pub fn new(x: [Elem<F>; 256]) -> (r: Self)
        ensures
            r.0 == x,
    {
        Polynomial(x)
    }

    /// The polynomial whose coefficients are all zero.
    pub fn zero() -> (r: Self)
        ensures
            r.wf(),
            r@ == zeros(),
    {
        proof {
            F::lemma_modulus_valid();
        }
        let r = Polynomial([Elem::new(0); 256]);
        assert(r@ =~= zeros());
        r
    }

    /// Overwrites every coefficient with zero.
    pub fn zeroize(&mut self)
        ensures
            final(self)@ == zeros(),
    {
        let mut i: usize = 0;
        while i < 256
            invariant
                i <= 256,
                forall|j: int| 0 <= j < i ==> (#[trigger] self.0[j]).0 == 0,
            decreases 256 - i,
        {
            self.0[i].zeroize();
            i += 1;
        }
        assert(self@ =~= zeros());
    }

    /// The coefficientwise sum `self + rhs`.
    pub fn add(&self, rhs: &Self) -> (r: Self)
        requires
            self.wf(),
            rhs.wf(),
        ensures
            r.wf(),
            r@ == seq_add(self@, rhs@, F::modulus() as int),
    {
        Polynomial(add_coeffs(&self.0, &rhs.0))
    }

    /// The coefficientwise difference `self - rhs`.
    pub fn sub(&self, rhs: &Self) -> (r: Self)
        requires
            self.wf(),
            rhs.wf(),
        ensures
            r.wf(),
            r@ == seq_sub(self@, rhs@, F::modulus() as int),
    {
        Polynomial(sub_coeffs(&self.0, &rhs.0))
    }

    /// The coefficientwise negation `-self`.
    pub fn neg(&self) -> (r: Self)
        requires
            self.wf(),
        ensures
            r.wf(),
            r@ == seq_neg(self@, F::modulus() as int),
    {
        Polynomial(neg_coeffs(&self.0))
    }

    /// The product `c * self` of a field element and the polynomial.
    pub fn scale(&self, c: Elem<F>) -> (r: Self)
        requires
            self.wf(),
            c.wf(),
        ensures
            r.wf(),
            r@ == seq_scale(c.0 as int, self@, F::modulus() as int),
    {
        Polynomial(scale_coeffs(c, &self.0))
    }
}

/// A member of the NTT algebra `T_q = Z_q^256`: a polynomial in the evaluation
/// domain. Besides the operations of `Polynomial`, NTT polynomials are multiplied
/// coefficientwise. The two domains are distinct types and never mix.
#[derive(Copy, Debug, PartialEq)]
pub struct NttPolynomial<F: Field>(pub [Elem<F>; 256]);

impl<F: Field> Clone for NttPolynomial<F> {
    fn clone(&self) -> (r: Self)
        ensures
            r == *self,
    {
        *self
    }
}

impl<F: Field> View for NttPolynomial<F> {
    type V = Seq<int>;

    /// The residues of the 256 coefficients.
    open spec fn view(&self) -> Seq<int> {
        residues(self.0)
    }
}

impl<F: Field> NttPolynomial<F> {
    /// Every coefficient is a residue in `[0, q)`.
    pub open spec fn wf(&self) -> bool {
        canonical(self@, F::modulus() as int)
    }

    /// The NTT polynomial with the given coefficients.
    pub fn new(x: [Elem<F>; 256]) -> (r: Self)
        ensures
            r.0 == x,
    {
        NttPolynomial(x)
    }

    /// The NTT polynomial whose coefficients are all zero.
    pub fn zero() -> (r: Self)
        ensures
            r.wf(),
            r@ == zeros(),
    {
        proof {
            F::lemma_modulus_valid();
        }
        let r = NttPolynomial([Elem::new(0); 256]);
        assert(r@ =~= zeros());
        r
    }

    /// Overwrites every coefficient with zero.
    pub fn zeroize(&mut self)
        ensures
            final(self)@ == zeros(),
    {
        let mut i: usize = 0;
        while i < 256
            invariant
                i <= 256,
                forall|j: int| 0 <= j < i ==> (#[trigger] self.0[j]).0 == 0,
            decreases 256 - i,
        {
            self.0[i].zeroize();
            i += 1;
        }
        assert(self@ =~= zeros());
    }

    /// The coefficientwise sum `self + rhs`.
    pub fn add(&self, rhs: &Self) -> (r: Self)
        requires
            self.wf(),
            rhs.wf(),
        ensures
            r.wf(),
            r@ == seq_add(self@, rhs@, F::modulus() as int),
    {
        NttPolynomial(add_coeffs(&self.0, &rhs.0))
    }

    /// The coefficientwise difference `self - rhs`.
    pub fn sub(&self, rhs: &Self) -> (r: Self)
        requires
            self.wf(),
            rhs.wf(),
        ensures
            r.wf(),
            r@ == seq_sub(self@, rhs@, F::modulus() as int),
    {
        NttPolynomial(sub_coeffs(&self.0, &rhs.0))
    }

    /// The coefficientwise negation `-self`.
    pub fn neg(&self) -> (r: Self)
        requires
            self.wf(),
        ensures
            r.wf(),
            r@ == seq_neg(self@, F::modulus() as int),
    {
        NttPolynomial(neg_coeffs(&self.0))
    }

    /// The product `c * self` of a field element and the NTT polynomial.
    pub fn scale(&self, c: Elem<F>) -> (r: Self)
        requires
            self.wf(),
            c.wf(),
        ensures
            r.wf(),
            r@ == seq_scale(c.0 as int, self@, F::modulus() as int),
    {
        NttPolynomial(scale_coeffs(c, &self.0))
    }
}

impl<F: Field> NttPolynomial<F> {
    /// The coefficientwise product `self * rhs`, which is ring multiplication in
    /// the NTT domain.
    pub fn mul(&self, rhs: &Self) -> (r: Self)
        requires
            self.wf(),
            rhs.wf(),
        ensures
            r.wf(),
            r@ == seq_mul(self@, rhs@, F::modulus() as int),
    {
        NttPolynomial(mul_coeffs(&self.0, &rhs.0))
    }
}


/// Polynomialwise sum of two vectors modulo `q`.
pub open spec fn vec_add(a: Seq<Seq<int>>, b: Seq<Seq<int>>, q: int) -> Seq<Seq<int>> {
    Seq::new(a.len(), |k: int| seq_add(a[k], b[k], q))
}

/// Polynomialwise difference of two vectors modulo `q`.
pub open spec fn vec_sub(a: Seq<Seq<int>>, b: Seq<Seq<int>>, q: int) -> Seq<Seq<int>> {
    Seq::new(a.len(), |k: int| seq_sub(a[k], b[k], q))
}

/// Polynomialwise negation of a vector modulo `q`.
pub open spec fn vec_neg(a: Seq<Seq<int>>, q: int) -> Seq<Seq<int>> {
    Seq::new(a.len(), |k: int| seq_neg(a[k], q))
}

/// A vector with every coefficient multiplied by `c`, modulo `q`.
pub open spec fn vec_scale(c: int, a: Seq<Seq<int>>, q: int) -> Seq<Seq<int>> {
    Seq::new(a.len(), |k: int| seq_scale(c, a[k], q))
}

/// The dot product of the first `n` polynomials of `a` and `b` in the NTT domain:
/// the zero polynomial plus, in order, the coefficientwise products `a[k] * b[k]`.
pub open spec fn dot(a: Seq<Seq<int>>, b: Seq<Seq<int>>, q: int, n: nat) -> Seq<int>
    decreases n,
{
    if n == 0 {
        zeros()
    } else {
        seq_add(dot(a, b, q, (n - 1) as nat), seq_mul(a[n - 1], b[n - 1], q), q)
    }
}

/// The product of a matrix, given by its rows of length `l`, with a vector.
pub open spec fn matrix_apply(m: Seq<Seq<Seq<int>>>, v: Seq<Seq<int>>, q: int, l: nat) -> Seq<
    Seq<int>,
> {
    Seq::new(m.len(), |k: int| dot(m[k], v, q, l))
}

/// A vector of `K` polynomials of `R_q`. Vectors can be added, subtracted,
/// negated and multiplied by field elements.
#[derive(Copy, Debug, PartialEq)]
pub struct Vector<F: Field, const K: usize>(pub [Polynomial<F>; K]);

impl<F: Field, const K: usize> Clone for Vector<F, K> {
    fn clone(&self) -> (r: Self)
        ensures
            r == *self,
    {
        *self
    }
}

impl<F: Field, const K: usize> View for Vector<F, K> {
    type V = Seq<Seq<int>>;

    /// The residues of each of the `K` polynomials.
    open spec fn view(&self) -> Seq<Seq<int>> {
        Seq::new(K as nat, |k: int| self.0[k]@)
    }
}

impl<F: Field, const K: usize> Vector<F, K> {
    /// Every polynomial is well formed.
    pub open spec fn wf(&self) -> bool {
        forall|k: int| 0 <= k < K ==> (#[trigger] self.0[k]).wf()
    }

    /// The vector with the given polynomials.
    pub fn new(x: [Polynomial<F>; K]) -> (r: Self)
        ensures
            r.0 == x,
    {
        Vector(x)
    }

    /// Overwrites every coefficient of every polynomial with zero.
    pub fn zeroize(&mut self)
        ensures
            forall|k: int| 0 <= k < K ==> #[trigger] final(self)@[k] == zeros(),
    {
        let mut i: usize = 0;
        while i < K
            invariant
                i <= K,
                forall|j: int| 0 <= j < i ==> (#[trigger] self.0[j])@ == zeros(),
            decreases K - i,
        {
            self.0[i].zeroize();
            i += 1;
        }
    }

    /// The polynomialwise sum `self + rhs`.
    pub fn add(&self, rhs: &Self) -> (r: Self)
        requires
            self.wf(),
            rhs.wf(),
        ensures
            r.wf(),
            r@ == vec_add(self@, rhs@, F::modulus() as int),
    {
        let mut r = *self;
        let mut i: usize = 0;
        while i < K
            invariant
                i <= K,
                self.wf(),
                rhs.wf(),
                forall|j: int|
                    0 <= j < i ==> (#[trigger] r.0[j]).wf() && r.0[j]@ == seq_add(
                        self.0[j]@,
                        rhs.0[j]@,
                        F::modulus() as int,
                    ),
                forall|j: int| i <= j < K ==> #[trigger] r.0[j] == self.0[j],
            decreases K - i,
        {
            r.0[i] = self.0[i].add(&rhs.0[i]);
            i += 1;
        }
        assert(r@ =~= vec_add(self@, rhs@, F::modulus() as int));
        r
    }

    /// The polynomialwise difference `self - rhs`.
    pub fn sub(&self, rhs: &Self) -> (r: Self)
        requires
            self.wf(),
            rhs.wf(),
        ensures
            r.wf(),
            r@ == vec_sub(self@, rhs@, F::modulus() as int),
    {
        let mut r = *self;
        let mut i: usize = 0;
        while i < K
            invariant
                i <= K,
                self.wf(),
                rhs.wf(),
                forall|j: int|
                    0 <= j < i ==> (#[trigger] r.0[j]).wf() && r.0[j]@ == seq_sub(
                        self.0[j]@,
                        rhs.0[j]@,
                        F::modulus() as int,
                    ),
                forall|j: int| i <= j < K ==> #[trigger] r.0[j] == self.0[j],
            decreases K - i,
        {
            r.0[i] = self.0[i].sub(&rhs.0[i]);
            i += 1;
        }
        assert(r@ =~= vec_sub(self@, rhs@, F::modulus() as int));
        r
    }

    /// The polynomialwise negation `-self`.
    pub fn neg(&self) -> (r: Self)
        requires
            self.wf(),
        ensures
            r.wf(),
            r@ == vec_neg(self@, F::modulus() as int),
    {
        let mut r = *self;
        let mut i: usize = 0;
        while i < K
            invariant
                i <= K,
                self.wf(),
                forall|j: int|
                    0 <= j < i ==> (#[trigger] r.0[j]).wf() && r.0[j]@ == seq_neg(
                        self.0[j]@,
                        F::modulus() as int,
                    ),
                forall|j: int| i <= j < K ==> #[trigger] r.0[j] == self.0[j],
            decreases K - i,
        {
            r.0[i] = self.0[i].neg();
            i += 1;
        }
        assert(r@ =~= vec_neg(self@, F::modulus() as int));
        r
    }

    /// The product `c * self` of a field element and the vector.
    pub fn scale(&self, c: Elem<F>) -> (r: Self)
        requires
            self.wf(),
            c.wf(),
        ensures
            r.wf(),
            r@ == vec_scale(c.0 as int, self@, F::modulus() as int),
    {
        let mut r = *self;
        let mut i: usize = 0;
        while i < K
            invariant
                i <= K,
                self.wf(),
                c.wf(),
                forall|j: int|
                    0 <= j < i ==> (#[trigger] r.0[j]).wf() && r.0[j]@ == seq_scale(
                        c.0 as int,
                        self.0[j]@,
                        F::modulus() as int,
                    ),
                forall|j: int| i <= j < K ==> #[trigger] r.0[j] == self.0[j],
            decreases K - i,
        {
            r.0[i] = self.0[i].scale(c);
            i += 1;
        }
        assert(r@ =~= vec_scale(c.0 as int, self@, F::modulus() as int));
        r
    }
}

/// A vector of `K` polynomials of the NTT algebra `T_q`. NTT vectors can be added and
/// subtracted, multiplied by an NTT polynomial, and multiplied with each other to
/// give their dot product.
#[derive(Copy, Debug, PartialEq)]
pub struct NttVector<F: Field, const K: usize>(pub [NttPolynomial<F>; K]);

impl<F: Field, const K: usize> Clone for NttVector<F, K> {
    fn clone(&self) -> (r: Self)
        ensures
            r == *self,
    {
        *self
    }
}

impl<F: Field, const K: usize> View for NttVector<F, K> {
    type V = Seq<Seq<int>>;

    /// The residues of each of the `K` polynomials.
    open spec fn view(&self) -> Seq<Seq<int>> {
        Seq::new(K as nat, |k: int| self.0[k]@)
    }
}

impl<F: Field, const K: usize> NttVector<F, K> {
    /// Every polynomial is well formed.
    pub open spec fn wf(&self) -> bool {
        forall|k: int| 0 <= k < K ==> (#[trigger] self.0[k]).wf()
    }

    /// The vector with the given polynomials.
    pub fn new(x: [NttPolynomial<F>; K]) -> (r: Self)
        ensures
            r.0 == x,
    {
        NttVector(x)
    }

    /// Overwrites every coefficient of every polynomial with zero.
    pub fn zeroize(&mut self)
        ensures
            forall|k: int| 0 <= k < K ==> #[trigger] final(self)@[k] == zeros(),
    {
        let mut i: usize = 0;
        while i < K
            invariant
                i <= K,
                forall|j: int| 0 <= j < i ==> (#[trigger] self.0[j])@ == zeros(),
            decreases K - i,
        {
            self.0[i].zeroize();
            i += 1;
        }
    }

    /// The polynomialwise sum `self + rhs`.
    pub fn add(&self, rhs: &Self) -> (r: Self)
        requires
            self.wf(),
            rhs.wf(),
        ensures
            r.wf(),
            r@ == vec_add(self@, rhs@, F::modulus() as int),
    {
        let mut r = *self;
        let mut i: usize = 0;
        while i < K
            invariant
                i <= K,
                self.wf(),
                rhs.wf(),
                forall|j: int|
                    0 <= j < i ==> (#[trigger] r.0[j]).wf() && r.0[j]@ == seq_add(
                        self.0[j]@,
                        rhs.0[j]@,
                        F::modulus() as int,
                    ),
                forall|j: int| i <= j < K ==> #[trigger] r.0[j] == self.0[j],
            decreases K - i,
        {
            r.0[i] = self.0[i].add(&rhs.0[i]);
            i += 1;
        }
        assert(r@ =~= vec_add(self@, rhs@, F::modulus() as int));
        r
    }

    /// The polynomialwise difference `self - rhs`.
    pub fn sub(&self, rhs: &Self) -> (r: Self)
        requires
            self.wf(),
            rhs.wf(),
        ensures
            r.wf(),
            r@ == vec_sub(self@, rhs@, F::modulus() as int),
    {
        let mut r = *self;
        let mut i: usize = 0;
        while i < K
            invariant
                i <= K,
                self.wf(),
                rhs.wf(),
                forall|j: int|
                    0 <= j < i ==> (#[trigger] r.0[j]).wf() && r.0[j]@ == seq_sub(
                        self.0[j]@,
                        rhs.0[j]@,
                        F::modulus() as int,
                    ),
                forall|j: int| i <= j < K ==> #[trigger] r.0[j] == self.0[j],
            decreases K - i,
        {
            r.0[i] = self.0[i].sub(&rhs.0[i]);
            i += 1;
        }
        assert(r@ =~= vec_sub(self@, rhs@, F::modulus() as int));
        r
    }

    /// The product of `p` with every polynomial of the vector.
    pub fn mul_poly(&self, p: &NttPolynomial<F>) -> (r: Self)
        requires
            self.wf(),
            p.wf(),
        ensures
            r.wf(),
            r@ == Seq::new(K as nat, |k: int| seq_mul(p@, self@[k], F::modulus() as int)),
    {
        let mut r = *self;
        let mut i: usize = 0;
        while i < K
            invariant
                i <= K,
                self.wf(),
                p.wf(),
                forall|j: int|
                    0 <= j < i ==> (#[trigger] r.0[j]).wf() && r.0[j]@ == seq_mul(
                        p@,
                        self.0[j]@,
                        F::modulus() as int,
                    ),
                forall|j: int| i <= j < K ==> #[trigger] r.0[j] == self.0[j],
            decreases K - i,
        {
            r.0[i] = p.mul(&self.0[i]);
            i += 1;
        }
        assert(r@ =~= Seq::new(K as nat, |k: int| seq_mul(p@, self@[k], F::modulus() as int)));
        r
    }

    /// The dot product of `self` and `rhs`: the sum of the coefficientwise
    /// products of corresponding polynomials, starting from zero.
    pub fn mul(&self, rhs: &Self) -> (r: NttPolynomial<F>)
        requires
            self.wf(),
            rhs.wf(),
        ensures
            r.wf(),
            r@ == dot(self@, rhs@, F::modulus() as int, K as nat),
    {
        let mut acc = NttPolynomial::zero();
        let mut i: usize = 0;
        while i < K
            invariant
                i <= K,
                self.wf(),
                rhs.wf(),
                acc.wf(),
                acc@ == dot(self@, rhs@, F::modulus() as int, i as nat),
            decreases K - i,
        {
            let prod = self.0[i].mul(&rhs.0[i]);
            acc = acc.add(&prod);
            i += 1;
        }
        acc
    }
}

/// A `K x L` matrix over the NTT algebra, held as its `K` rows. The only operation
/// is multiplication on the right by a vector of length `L`.
#[derive(Copy, Debug, PartialEq)]
pub struct NttMatrix<F: Field, const K: usize, const L: usize>(pub [NttVector<F, L>; K]);

impl<F: Field, const K: usize, const L: usize> Clone for NttMatrix<F, K, L> {
    fn clone(&self) -> (r: Self)
        ensures
            r == *self,
    {
        *self
    }
}

impl<F: Field, const K: usize, const L: usize> View for NttMatrix<F, K, L> {
    type V = Seq<Seq<Seq<int>>>;

    /// The residues of each row.
    open spec fn view(&self) -> Seq<Seq<Seq<int>>> {
        Seq::new(K as nat, |k: int| self.0[k]@)
    }
}

impl<F: Field, const K: usize, const L: usize> NttMatrix<F, K, L> {
    /// Every row is well formed.
    pub open spec fn wf(&self) -> bool {
        forall|k: int| 0 <= k < K ==> (#[trigger] self.0[k]).wf()
    }

    /// The matrix with the given rows.
    pub fn new(x: [NttVector<F, L>; K]) -> (r: Self)
        ensures
            r.0 == x,
    {
        NttMatrix(x)
    }

    /// The matrix-vector product `self * v`: the dot product of each row with `v`.
    pub fn mul(&self, v: &NttVector<F, L>) -> (r: NttVector<F, K>)
        requires
            self.wf(),
            v.wf(),
        ensures
            r.wf(),
            r@ == matrix_apply(self@, v@, F::modulus() as int, L as nat),
    {
        let mut out = [NttPolynomial::zero();K];
        let mut i: usize = 0;
        while i < K
            invariant
                i <= K,
                self.wf(),
                v.wf(),
                forall|j: int|
                    0 <= j < i ==> (#[trigger] out[j]).wf() && out[j]@ == dot(
                        self.0[j]@,
                        v@,
                        F::modulus() as int,
                        L as nat,
                    ),
            decreases K - i,
        {
            out[i] = self.0[i].mul(v);
            i += 1;
        }
        let r = NttVector(out);
        assert(r@ =~= matrix_apply(self@, v@, F::modulus() as int, L as nat));
        r
    }
}

/// The NTT polynomial whose coefficients are all one: the multiplicative identity
/// of the NTT algebra.
pub open spec fn ones() -> Seq<int> {
    Seq::new(256, |i: int| 1)
}

/// Multiplication by the `1 x 1` matrix whose entry is the all-ones NTT polynomial
/// maps every vector of length one to itself.
pub proof fn lemma_identity_matrix(v: Seq<Seq<int>>, q: int)
    requires
        q > 1,
        v.len() == 1,
        v[0].len() == 256,
        canonical(v[0], q),
    ensures
        matrix_apply(seq![seq![ones()]], v, q, 1) == v,
{
    let m = seq![seq![ones()]];
    let d = dot(m[0], v, q, 1);
    assert(dot(m[0], v, q, 0) == zeros());
    assert forall|i: int| 0 <= i < 256 implies #[trigger] d[i] == v[0][i] by {
        lemma_small_mod(v[0][i] as nat, q as nat);
        assert(field_mul(1, v[0][i], q) == v[0][i]);
        assert(field_add(0, v[0][i], q) == v[0][i]);
    }
    assert(d =~= v[0]);
    assert(matrix_apply(m, v, q, 1) =~= v);
}

} // verus!
