//! Packing of polynomials into bytes at a fixed number of bits per coefficient
//! (`SimpleBitPack` / `SimpleBitUnpack` of FIPS 204, `ByteEncode` / `ByteDecode` of
//! FIPS 203), and of vectors of polynomials into one contiguous byte string.
use vstd::arithmetic::div_mod::*;
use vstd::arithmetic::mul::*;
use vstd::arithmetic::power2::*;
use vstd::bits::*;
use vstd::prelude::*;

use super::algebra;
use super::algebra::{Elem, Field, NttPolynomial, NttVector, Polynomial, Vector};
use super::util;
use super::util::Truncate;

verus! {

/// The greatest common divisor of `d` and 8.
pub open spec fn gcd8(d: nat) -> nat {
    if d % 8 == 0 {
        8
    } else if d % 4 == 0 {
        4
    } else if d % 2 == 0 {
        2
    } else {
        1
    }
}

/// Number of coefficients packed together into a whole number of bytes:
/// `lcm(d, 8) / d`.
pub open spec fn value_step(d: nat) -> nat {
    8nat / gcd8(d)
}

/// Number of bytes that `value_step(d)` coefficients occupy: `lcm(d, 8) / 8`.
pub open spec fn byte_step(d: nat) -> nat {
    d / gcd8(d)
}

/// Bit widths the codec handles: 1 to 20 bits, such that one group of coefficients
/// fits in a 128-bit accumulator.
pub open spec fn supported_width(d: nat) -> bool {
    1 <= d <= 20 && byte_step(d) <= 16
}

/// Size in bytes of a polynomial of 256 coefficients packed at `d` bits each.
pub open spec fn encoded_polynomial_size(d: nat) -> nat {
    32 * d
}

/// The number whose digits in base `2^w`, least significant first, are `ds`.
pub open spec fn pack(ds: Seq<int>, w: nat) -> int
    decreases ds.len(),
{
    if ds.len() == 0 {
        0
    } else {
        pack(ds.drop_last(), w) + ds.last() * pow2(w * (ds.len() - 1) as nat)
    }
}

/// The lowest `n` digits of `x` in base `2^w`, least significant first.
pub open spec fn unpack(x: int, w: nat, n: nat) -> Seq<int> {
    Seq::new(n, |i: int| (x / pow2(w * i as nat) as int) % pow2(w) as int)
}

/// Every entry of `ds` is a digit in base `2^w`.
pub open spec fn digits_fit(ds: Seq<int>, w: nat) -> bool {
    forall|i: int| 0 <= i < ds.len() ==> 0 <= #[trigger] ds[i] < pow2(w)
}

/// The `g`-th run of `n` consecutive entries of `s`.
pub open spec fn group(s: Seq<int>, g: int, n: nat) -> Seq<int> {
    s.subrange(g * n, g * n + n)
}

/// Bytes read as integers.
pub open spec fn byte_values(b: Seq<u8>) -> Seq<int> {
    Seq::new(b.len(), |i: int| b[i] as int)
}

/// The packing of 256 coefficients at `d` bits each: each group of
/// `value_step(d)` coefficients is read as one number with `d` bits per
/// coefficient, first coefficient lowest, and written as `byte_step(d)` bytes in
/// little-endian order.
pub open spec fn byte_encode_spec(vals: Seq<int>, d: nat) -> Seq<u8> {
    Seq::new(
        encoded_polynomial_size(d),
        |i: int|
            unpack(
                pack(group(vals, i / byte_step(d) as int, value_step(d)), d),
                8,
                byte_step(d),
            )[i % byte_step(d) as int] as u8,
    )
}

/// The unpacking of `32 * d` bytes into 256 values of `d` bits each, the inverse
/// layout of `byte_encode_spec`.
pub open spec fn byte_decode_spec(bytes: Seq<u8>, d: nat) -> Seq<int> {
    Seq::new(
        256,
        |i: int|
            unpack(
                pack(group(byte_values(bytes), i / value_step(d) as int, byte_step(d)), 8),
                d,
                value_step(d),
            )[i % value_step(d) as int],
    )
}

/// The decoded coefficients as residues: at width 12 a decoded value may reach
/// `q` and is reduced modulo `q`; at the other widths it is kept as it is.
pub open spec fn reduce_decoded(vals: Seq<int>, d: nat, q: int) -> Seq<int> {
    if d == 12 {
        Seq::new(vals.len(), |i: int| vals[i] % q)
    } else {
        vals
    }
}

proof fn lemma_width_facts(d: nat)
    requires
        supported_width(d),
    ensures
        value_step(d) * d == 8 * byte_step(d),
        value_step(d) == 1 || value_step(d) == 2 || value_step(d) == 4 || value_step(d) == 8,
        1 <= byte_step(d) <= 16,
        (256nat / value_step(d)) * value_step(d) == 256,
        (256nat / value_step(d)) * byte_step(d) == encoded_polynomial_size(d),
        value_step(d) * d <= 128,
{
    let g = gcd8(d);
    let vs = value_step(d);
    let bs = byte_step(d);
    lemma_fundamental_div_mod(d as int, g as int);
    assert(d % g == 0);
    assert(d == g * bs);
    assert(g == 1 || g == 2 || g == 4 || g == 8);
    assert(vs * g == 8);
    assert(vs * d == 8 * bs && (256nat / vs) * vs == 256 && (256nat / vs) * bs == 32 * d) by (
    nonlinear_arith)
        requires
            d == g * bs,
            vs * g == 8,
            g == 1 || g == 2 || g == 4 || g == 8,
    ;
}

proof fn lemma_pow2_mul_adds(w: nat, a: nat, b: nat)
    ensures
        pow2(w * a) * pow2(w * b) == pow2(w * (a + b)),
        w * (a + b) == w * a + w * b,
{
    lemma_mul_is_distributive_add(w as int, a as int, b as int);
    lemma_pow2_adds(w * a, w * b);
}

/// A packed number is below `2^(w * len)`.
pub proof fn lemma_pack_bound(ds: Seq<int>, w: nat)
    requires
        digits_fit(ds, w),
    ensures
        0 <= pack(ds, w) < pow2(w * ds.len()),
    decreases ds.len(),
{
    if ds.len() == 0 {
        lemma2_to64();
    } else {
        let n = (ds.len() - 1) as nat;
        let front = ds.drop_last();
        assert forall|i: int| 0 <= i < front.len() implies 0 <= #[trigger] front[i] < pow2(w) by {
            assert(front[i] == ds[i]);
        }
        lemma_pack_bound(front, w);
        let p = pow2(w * n);
        let last = ds.last();
        assert(0 <= last < pow2(w)) by {
            assert(ds[ds.len() - 1] == last);
        }
        lemma_pow2_mul_adds(w, n, 1);
        assert(pow2(w * n) * pow2(w) == pow2(w * ds.len()));
        lemma_pow2_pos(w * n);
        let x = pack(front, w);
        assert(0 <= x + last * p < pow2(w) * p) by (nonlinear_arith)
            requires
                0 <= x < p,
                0 <= last < pow2(w),
                p > 0,
        ;
        lemma_mul_is_commutative(p as int, pow2(w) as int);
    }
}

/// Reading the digits of a packed number gives back the digits it was made of.
pub proof fn lemma_unpack_pack(ds: Seq<int>, w: nat)
    requires
        digits_fit(ds, w),
    ensures
        unpack(pack(ds, w), w, ds.len()) == ds,
    decreases ds.len(),
{
    if ds.len() > 0 {
        let n = (ds.len() - 1) as nat;
        let front = ds.drop_last();
        assert forall|i: int| 0 <= i < front.len() implies 0 <= #[trigger] front[i] < pow2(w) by {
            assert(front[i] == ds[i]);
        }
        lemma_unpack_pack(front, w);
        lemma_pack_bound(front, w);
        let x = pack(front, w);
        let last = ds.last();
        assert(0 <= last < pow2(w)) by {
            assert(ds[ds.len() - 1] == last);
        }
        let p = pow2(w * n);
        lemma_pow2_pos(w * n);
        lemma_pow2_pos(w);
        let whole = pack(ds, w);
        assert(whole == x + last * p);
        assert forall|i: int| 0 <= i < ds.len() implies #[trigger] unpack(whole, w, ds.len())[i]
            == ds[i] by {
            let pi = pow2(w * i as nat);
            lemma_pow2_pos(w * i as nat);
            if i == n {
                lemma_fundamental_div_mod_converse(whole, p as int, last, x);
                lemma_small_mod(last as nat, pow2(w));
            } else {
                let k = (n - i) as nat;
                lemma_pow2_mul_adds(w, i as nat, k);
                assert(p == pi * pow2(w * k));
                lemma_hoist_over_denominator(x, last * pow2(w * k), pi);
                assert(last * pow2(w * k) * pi == last * p) by (nonlinear_arith)
                    requires
                        p == pi * pow2(w * k),
                ;
                assert(whole / pi as int == x / pi as int + last * pow2(w * k));
                lemma_pow2_mul_adds(w, 1, (k - 1) as nat);
                assert(w * 1 == w);
                assert(last * pow2(w * k) == pow2(w) * (last * pow2(w * (k - 1) as nat))) by (
                nonlinear_arith)
                    requires
                        pow2(w * k) == pow2(w) * pow2(w * (k - 1) as nat),
                ;
                lemma_mod_multiples_vanish(
                    last * pow2(w * (k - 1) as nat),
                    x / pi as int,
                    pow2(w) as int,
                );
                assert(unpack(x, w, n)[i] == front[i]);
            }
        }
        assert(unpack(whole, w, ds.len()) =~= ds);
    }
}

/// Packing the lowest `n` digits of `x` gives `x` modulo `2^(w * n)`.
pub proof fn lemma_pack_unpack(x: int, w: nat, n: nat)
    requires
        x >= 0,
    ensures
        pack(unpack(x, w, n), w) == x % pow2(w * n) as int,
    decreases n,
{
    lemma_pow2_pos(w * n);
    if n == 0 {
        lemma2_to64();
        assert(w * n == 0) by (nonlinear_arith)
            requires
                n == 0,
        ;
    } else {
        let m = (n - 1) as nat;
        let ds = unpack(x, w, n);
        assert(ds.drop_last() =~= unpack(x, w, m));
        lemma_pack_unpack(x, w, m);
        lemma_pow2_pos(w * m);
        lemma_pow2_pos(w);
        lemma_pow2_mul_adds(w, m, 1);
        assert(w * 1 == w);
        lemma_mod_breakdown(x, pow2(w * m) as int, pow2(w) as int);
        lemma_mul_is_commutative(
            pow2(w * m) as int,
            ((x / pow2(w * m) as int) % pow2(w) as int),
        );
    }
}

proof fn lemma_group_index(i: int, n: nat)
    requires
        n > 0,
        0 <= i,
    ensures
        i == (i / (n as int)) * n + i % (n as int),
        0 <= i % (n as int) < n,
        0 <= i / (n as int),
{
    lemma_fundamental_div_mod(i, n as int);
    lemma_mod_bound(i, n as int);
    lemma_div_pos_is_pos(i, n as int);
    lemma_mul_is_commutative(n as int, i / (n as int));
}

proof fn lemma_group_range(g: int, k: nat, n: nat, len: nat)
    requires
        0 <= g < k,
        k * n == len,
    ensures
        0 <= g * n,
        g * n + n <= len,
{
    assert(0 <= g * n && g * n + n <= len) by (nonlinear_arith)
        requires
            0 <= g < k,
            k * n == len,
    ;
}

/// The digits in base 256 of a number below `256^n` are bytes.
proof fn lemma_byte_digits(x: int, n: nat)
    ensures
        forall|t: int| 0 <= t < n ==> 0 <= #[trigger] unpack(x, 8, n)[t] < 256,
{
    lemma2_to64();
    assert forall|t: int| 0 <= t < n implies 0 <= #[trigger] unpack(x, 8, n)[t] < 256 by {
        lemma_mod_bound(x / pow2(8 * t as nat) as int, 256);
    }
}

/// Unpacking what was packed gives back the values, for values of `d` bits.
pub proof fn lemma_decode_encode(vals: Seq<int>, d: nat)
    requires
        supported_width(d),
        vals.len() == 256,
        digits_fit(vals, d),
    ensures
        byte_decode_spec(byte_encode_spec(vals, d), d) == vals,
{
    lemma_width_facts(d);
    let vs = value_step(d);
    let bs = byte_step(d);
    let k = 256nat / vs;
    let enc = byte_encode_spec(vals, d);
    let dec = byte_decode_spec(enc, d);
    assert forall|i: int| 0 <= i < 256 implies #[trigger] dec[i] == vals[i] by {
        lemma_group_index(i, vs);
        let g = i / vs as int;
        let j = i % vs as int;
        assert(g < k) by (nonlinear_arith)
            requires
                i == g * vs + j,
                0 <= j,
                i < 256,
                k * vs == 256,
                vs > 0,
                g >= 0,
        ;
        lemma_group_range(g, k, vs, 256);
        lemma_group_range(g, k, bs, encoded_polynomial_size(d));
        let gv = group(vals, g, vs);
        assert(digits_fit(gv, d)) by {
            assert forall|t: int| 0 <= t < gv.len() implies 0 <= #[trigger] gv[t] < pow2(d) by {
                assert(gv[t] == vals[g * vs + t]);
            }
        }
        let x = pack(gv, d);
        lemma_pack_bound(gv, d);
        lemma_byte_digits(x, bs);
        let ge = group(byte_values(enc), g, bs);
        assert forall|t: int| 0 <= t < bs implies #[trigger] ge[t] == unpack(x, 8, bs)[t] by {
            lemma_fundamental_div_mod_converse(g * bs + t, bs as int, g, t);
            assert(ge[t] == enc[g * bs + t] as int);
        }
        assert(ge =~= unpack(x, 8, bs));
        lemma_pack_unpack(x, 8, bs);
        assert(8 * bs == d * vs) by (nonlinear_arith)
            requires
                vs * d == 8 * bs,
        ;
        lemma_small_mod(x as nat, pow2(8 * bs));
        lemma_unpack_pack(gv, d);
        assert(dec[i] == unpack(x, d, vs)[j]);
        assert(gv[j] == vals[g * vs + j]);
    }
    assert(dec =~= vals);
}

/// Packing what was unpacked gives back the bytes.
pub proof fn lemma_encode_decode(bytes: Seq<u8>, d: nat)
    requires
        supported_width(d),
        bytes.len() == encoded_polynomial_size(d),
    ensures
        byte_encode_spec(byte_decode_spec(bytes, d), d) == bytes,
{
    lemma_width_facts(d);
    lemma2_to64();
    let vs = value_step(d);
    let bs = byte_step(d);
    let k = 256nat / vs;
    let bv = byte_values(bytes);
    let dec = byte_decode_spec(bytes, d);
    let enc = byte_encode_spec(dec, d);
    assert forall|i: int| 0 <= i < encoded_polynomial_size(d) implies #[trigger] enc[i]
        == bytes[i] by {
        lemma_group_index(i, bs);
        let g = i / bs as int;
        let t = i % bs as int;
        assert(g < k) by (nonlinear_arith)
            requires
                i == g * bs + t,
                0 <= t,
                i < k * bs,
                bs > 0,
                g >= 0,
        ;
        lemma_group_range(g, k, vs, 256);
        lemma_group_range(g, k, bs, encoded_polynomial_size(d));
        let gb = group(bv, g, bs);
        assert(digits_fit(gb, 8)) by {
            assert forall|u: int| 0 <= u < gb.len() implies 0 <= #[trigger] gb[u] < pow2(8) by {
                assert(gb[u] == bytes[g * bs + u] as int);
            }
        }
        let y = pack(gb, 8);
        lemma_pack_bound(gb, 8);
        let gd = group(dec, g, vs);
        assert forall|j: int| 0 <= j < vs implies #[trigger] gd[j] == unpack(y, d, vs)[j] by {
            lemma_fundamental_div_mod_converse(g * vs + j, vs as int, g, j);
        }
        assert(gd =~= unpack(y, d, vs));
        lemma_pack_unpack(y, d, vs);
        assert(d * vs == 8 * bs) by (nonlinear_arith)
            requires
                vs * d == 8 * bs,
        ;
        lemma_small_mod(y as nat, pow2(d * vs));
        lemma_unpack_pack(gb, 8);
        assert(gb[t] == bytes[g * bs + t] as int);
    }
    assert(enc =~= bytes);
}

proof fn lemma_u128_shl_is_mul(v: u128, s: u128)
    requires
        s < 128,
        v * pow2(s as nat) <= u128::MAX,
    ensures
        v << s == v * pow2(s as nat),
    decreases s,
{
    lemma_pow2_pos(s as nat);
    if s == 0 {
        assert(v << 0u128 == v) by (bit_vector);
        lemma2_to64();
    } else {
        let h = (s - 1) as u128;
        lemma_pow2_unfold(s as nat);
        lemma_pow2_pos(h as nat);
        lemma_mul_inequality(pow2(h as nat) as int, pow2(s as nat) as int, v as int);
        lemma_mul_is_commutative(pow2(h as nat) as int, v as int);
        lemma_mul_is_commutative(pow2(s as nat) as int, v as int);
        lemma_u128_shl_is_mul(v, h);
        assert(v << s == ((v << h) * 2) as u128) by (bit_vector)
            requires
                0 < s < 128,
                h == s - 1,
        ;
        assert((v << h) * 2 == v * pow2(s as nat)) by (nonlinear_arith)
            requires
                v << h == v * pow2(h as nat),
                pow2(s as nat) == 2 * pow2(h as nat),
        ;
    }
}

proof fn lemma_or_disjoint(x: u128, v: u128, s: u128)
    requires
        s < 128,
        x < (1u128 << s),
    ensures
        x | (v << s) == x + (v << s),
{
    assert(x | (v << s) == x + (v << s)) by (bit_vector)
        requires
            s < 128,
            x < (1u128 << s),
    ;
}

proof fn lemma_pow2_128()
    ensures
        pow2(128) == u128::MAX + 1,
{
    lemma2_to64();
    lemma_pow2_adds(64, 64);
}

/// Adding one more digit `v < 2^w` at position `j` keeps a number packed from `j`
/// digits below `2^(w * (j + 1))`.
proof fn lemma_pack_step(x: int, v: int, w: nat, j: nat)
    requires
        0 <= x < pow2(w * j),
        0 <= v < pow2(w),
    ensures
        0 <= x + v * pow2(w * j) < pow2(w * (j + 1)),
        v * pow2(w * j) < pow2(w * (j + 1)),
{
    lemma_pow2_mul_adds(w, j, 1);
    assert(w * 1 == w);
    lemma_pow2_pos(w * j);
    let p = pow2(w * j);
    assert(0 <= x + v * p < pow2(w) * p && v * p < pow2(w) * p) by (nonlinear_arith)
        requires
            0 <= x < p,
            0 <= v < pow2(w),
            p > 0,
    ;
    lemma_mul_is_commutative(p as int, pow2(w) as int);
}

fn steps<const D: usize>() -> (r: (usize, usize))
    requires
        supported_width(D as nat),
    ensures
        r.0 == value_step(D as nat),
        r.1 == byte_step(D as nat),
{
    let g: usize = if D % 8 == 0 {
        8
    } else if D % 4 == 0 {
        4
    } else if D % 2 == 0 {
        2
    } else {
        1
    };
    (8 / g, D / g)
}

/// Reads `n` coefficients from `start` as one number of `d` bits per coefficient,
/// the first coefficient lowest.
fn pack_coefficients<F: Field>(vals: &[Elem<F>; 256], start: usize, n: usize, d: usize) -> (x:
    u128)
    requires
        start + n <= 256,
        1 <= d,
        d * n <= 128,
        digits_fit(algebra::residues(*vals), d as nat),
    ensures
        x == pack(algebra::residues(*vals).subrange(start as int, start + n), d as nat),
        x < pow2((d * n) as nat),
{
    let ghost res = algebra::residues(*vals);
    let mut x: u128 = 0;
    let mut j: usize = 0;
    proof {
        lemma2_to64();
        assert(res.subrange(start as int, start as int) =~= Seq::<int>::empty());
        assert(d * 0 == 0);
    }
    while j < n
        invariant
            j <= n,
            start + n <= 256,
            1 <= d,
            d * n <= 128,
            res == algebra::residues(*vals),
            digits_fit(res, d as nat),
            x == pack(res.subrange(start as int, start + j), d as nat),
            x < pow2((d * j) as nat),
        decreases n - j,
    {
        let v = vals[start + j].0 as u128;
        proof {
            assert(d * j + d <= d * n) by (nonlinear_arith)
                requires
                    j < n,
            ;
            assert(d * (j + 1) == d * j + d) by (nonlinear_arith);
        }
        let s = (d * j) as u128;
        proof {
            let sub = res.subrange(start as int, start + j + 1);
            assert(sub.drop_last() =~= res.subrange(start as int, start + j));
            assert(res[start + j] == v);
            assert(sub.last() == v);
            lemma_pack_step(x as int, v as int, d as nat, j as nat);
            lemma_pow2_128();
            if d * j + d < 128 {
                lemma_pow2_strictly_increases((d * j + d) as nat, 128);
            }
            lemma_u128_shl_is_mul(v, s);
            lemma_mul_basics(pow2(s as nat) as int);
            lemma_pow2_strictly_increases(s as nat, 128);
            lemma_u128_shl_is_mul(1, s);
            lemma_or_disjoint(x, v, s);
        }
        x = x | (v << s);
        j += 1;
    }
    x
}

/// Reads `n <= 16` bytes from `start` as one little-endian number.
fn pack_bytes(bytes: &[u8], start: usize, n: usize) -> (y: u128)
    requires
        start + n <= bytes@.len(),
        n <= 16,
    ensures
        y == pack(byte_values(bytes@).subrange(start as int, start + n), 8),
        y < pow2((8 * n) as nat),
{
    let ghost bv = byte_values(bytes@);
    let len = bytes.len();
    let mut y: u128 = 0;
    let mut t: usize = 0;
    proof {
        lemma2_to64();
        assert(bv.subrange(start as int, start as int) =~= Seq::<int>::empty());
    }
    while t < n
        invariant
            t <= n,
            n <= 16,
            start + n <= bytes@.len(),
            len == bytes@.len(),
            bv == byte_values(bytes@),
            y == pack(bv.subrange(start as int, start + t), 8),
            y < pow2((8 * t) as nat),
        decreases n - t,
    {
        let b = bytes[start + t] as u128;
        let s = (8 * t) as u128;
        proof {
            let sub = bv.subrange(start as int, start + t + 1);
            assert(sub.drop_last() =~= bv.subrange(start as int, start + t));
            assert(sub.last() == b);
            lemma2_to64();
            lemma_pack_step(y as int, b as int, 8, t as nat);
            lemma_pow2_128();
            if 8 * t + 8 < 128 {
                lemma_pow2_strictly_increases((8 * t + 8) as nat, 128);
            }
            lemma_u128_shl_is_mul(b, s);
            lemma_mul_basics(pow2(s as nat) as int);
            lemma_pow2_strictly_increases(s as nat, 128);
            lemma_u128_shl_is_mul(1, s);
            lemma_or_disjoint(y, b, s);
        }
        y = y | (b << s);
        t += 1;
    }
    y
}

/// Packs 256 coefficients of at most `D` bits each into `32 * D` bytes
/// (`SimpleBitPack` of FIPS 204, `ByteEncode` of FIPS 203).
pub fn byte_encode<F: Field, const D: usize>(vals: &[Elem<F>; 256]) -> (r: Vec<u8>)
    requires
        supported_width(D as nat),
        digits_fit(algebra::residues(*vals), D as nat),
    ensures
        r@ == byte_encode_spec(algebra::residues(*vals), D as nat),
{
    let ghost res = algebra::residues(*vals);
    let ghost spec = byte_encode_spec(res, D as nat);
    proof {
        lemma_width_facts(D as nat);
        lemma2_to64();
    }
    let (vs, bs) = steps::<D>();
    let groups = 256 / vs;
    let mut bytes: Vec<u8> = Vec::new();
    let mut g: usize = 0;
    while g < groups
        invariant
            g <= groups,
            groups == 256nat / value_step(D as nat),
            vs == value_step(D as nat),
            bs == byte_step(D as nat),
            groups * vs == 256,
            groups * bs == encoded_polynomial_size(D as nat),
            vs * D <= 128,
            1 <= bs <= 16,
            supported_width(D as nat),
            res == algebra::residues(*vals),
            digits_fit(res, D as nat),
            spec == byte_encode_spec(res, D as nat),
            bytes@.len() == g * bs,
            spec.len() == encoded_polynomial_size(D as nat),
            forall|u: int| 0 <= u < bytes@.len() ==> #[trigger] bytes@[u] == spec[u],
        decreases groups - g,
    {
        proof {
            lemma_group_range(g as int, groups as nat, vs as nat, 256);
            lemma_group_range(g as int, groups as nat, bs as nat, encoded_polynomial_size(D as nat));
        }
        proof {
            lemma_mul_is_commutative(vs as int, D as int);
        }
        let x = pack_coefficients(vals, g * vs, vs, D);
        proof {
            assert(group(res, g as int, vs as nat) == res.subrange(g * vs, g * vs + vs));
        }
        let ghost base = bytes@.len();
        let mut t: usize = 0;
        while t < bs
            invariant
                t <= bs,
                bs == byte_step(D as nat),
                1 <= bs <= 16,
                base == g * bs,
                g * bs + bs <= encoded_polynomial_size(D as nat),
                bytes@.len() == base + t,
                spec.len() == encoded_polynomial_size(D as nat),
                x == pack(group(res, g as int, vs as nat), D as nat),
                spec == byte_encode_spec(res, D as nat),
                vs == value_step(D as nat),
                forall|u: int| 0 <= u < bytes@.len() ==> #[trigger] bytes@[u] == spec[u],
            decreases bs - t,
        {
            let sh = (8 * t) as u128;
            let b = ((x >> sh) & 0xff) as u8;
            proof {
                lemma_u128_shr_is_div(x, sh);
                let y = x >> sh;
                assert(y & 0xff == y % 256 && y & 0xff < 256) by (bit_vector);
                lemma2_to64();
                let u = (g * bs + t) as int;
                lemma_fundamental_div_mod_converse(u, bs as int, g as int, t as int);
                assert(spec[u] == unpack(x as int, 8, bs as nat)[t as int] as u8);
            }
            bytes.push(b);
            t += 1;
        }
        proof {
            assert((g + 1) * bs == g * bs + bs) by (nonlinear_arith);
        }
        g += 1;
    }
    assert(bytes@ =~= spec);
    bytes
}

/// Unpacks `32 * D` bytes into 256 coefficients of `D` bits each
/// (`SimpleBitUnpack` of FIPS 204, `ByteDecode` of FIPS 203). At width 12 each
/// value is reduced modulo `q`; at the other widths `2^D <= q` keeps it in range.
pub fn byte_decode<F: Field, const D: usize>(bytes: &[u8]) -> (r: [Elem<F>; 256])
    requires
        supported_width(D as nat),
        bytes@.len() == encoded_polynomial_size(D as nat),
        D == 12 || pow2(D as nat) <= F::modulus(),
    ensures
        algebra::canonical(algebra::residues(r), F::modulus() as int),
        algebra::residues(r) == reduce_decoded(
            byte_decode_spec(bytes@, D as nat),
            D as nat,
            F::modulus() as int,
        ),
{
    let ghost raw = byte_decode_spec(bytes@, D as nat);
    let ghost want = reduce_decoded(raw, D as nat, F::modulus() as int);
    proof {
        lemma_width_facts(D as nat);
        lemma2_to64();
        F::lemma_modulus_valid();
        lemma_u32_shl_is_mul(1, D as u32);
        lemma_u32_pow2_no_overflow(D as nat);
    }
    let q = F::q();
    let (vs, bs) = steps::<D>();
    let groups = 256 / vs;
    let mask: u32 = (1u32 << (D as u32)) - 1;
    let mut vals = [Elem::new(0); 256];
    let mut g: usize = 0;
    while g < groups
        invariant
            g <= groups,
            groups == 256nat / value_step(D as nat),
            vs == value_step(D as nat),
            bs == byte_step(D as nat),
            groups * vs == 256,
            groups * bs == encoded_polynomial_size(D as nat),
            vs * D == 8 * bs,
            1 <= bs <= 16,
            1 <= D <= 20,
            q == F::modulus(),
            q > 1,
            D == 12 || pow2(D as nat) <= F::modulus(),
            mask == pow2(D as nat) - 1,
            bytes@.len() == encoded_polynomial_size(D as nat),
            raw == byte_decode_spec(bytes@, D as nat),
            want == reduce_decoded(raw, D as nat, F::modulus() as int),
            forall|u: int|
                0 <= u < g * vs ==> (#[trigger] vals[u]).wf() && vals[u].0 == want[u],
        decreases groups - g,
    {
        proof {
            lemma_group_range(g as int, groups as nat, vs as nat, 256);
            lemma_group_range(g as int, groups as nat, bs as nat, encoded_polynomial_size(D as nat));
        }
        let y = pack_bytes(bytes, g * bs, bs);
        let mut j: usize = 0;
        while j < vs
            invariant
                j <= vs,
                vs == value_step(D as nat),
                bs == byte_step(D as nat),
                vs * D == 8 * bs,
                g * vs + vs <= 256,
                1 <= D <= 20,
                1 <= bs <= 16,
                q == F::modulus(),
                q > 1,
                D == 12 || pow2(D as nat) <= F::modulus(),
                mask == pow2(D as nat) - 1,
                y == pack(group(byte_values(bytes@), g as int, bs as nat), 8),
                raw == byte_decode_spec(bytes@, D as nat),
                want == reduce_decoded(raw, D as nat, F::modulus() as int),
                forall|u: int|
                    0 <= u < g * vs + j ==> (#[trigger] vals[u]).wf() && vals[u].0 == want[u],
            decreases vs - j,
        {
            proof {
                assert(D * j < 128) by (nonlinear_arith)
                    requires
                        j < vs,
                        vs * D == 8 * bs,
                        bs <= 16,
                        D >= 1,
                ;
            }
            let sh = (D * j) as u128;
            let t: u32 = u32::truncate(y >> sh);
            let val: u32 = t & mask;
            proof {
                lemma_u128_shr_is_div(y, sh);
                let z = (y as int) / (pow2(sh as nat) as int);
                lemma_u32_low_bits_mask_is_mod(t, D as nat);
                assert(mask == low_bits_mask(D as nat) as u32);
                assert(t == z % 0x1_0000_0000);
                assert(val == t % (pow2(D as nat) as u32));
                let e = (32 - D) as nat;
                lemma_pow2_adds(D as nat, e);
                assert(D as nat + e == 32);
                lemma2_to64();
                lemma_pow2_pos(D as nat);
                lemma_pow2_pos((32 - D) as nat);
                lemma_mod_mod(z, pow2(D as nat) as int, pow2((32 - D) as nat) as int);
                assert(pow2(D as nat) * pow2((32 - D) as nat) == 0x1_0000_0000);
                assert(val == z % (pow2(D as nat) as int));
                assert(val == unpack(y as int, D as nat, vs as nat)[j as int]);
                let u = (g * vs + j) as int;
                lemma_fundamental_div_mod_converse(u, vs as int, g as int, j as int);
                assert(raw[u] == val);
                lemma_mod_bound(z, pow2(D as nat) as int);
            }
            let v: u32 = if D == 12 {
                val % q
            } else {
                val
            };
            vals[g * vs + j] = Elem::new(v);
            j += 1;
        }
        proof {
            assert((g + 1) * vs == g * vs + vs) by (nonlinear_arith);
        }
        g += 1;
    }
    assert(algebra::residues(vals) =~= want);
    vals
}

/// The encodings of the polynomials of a vector at `d` bits each, laid end to end.
pub open spec fn vector_encode_spec(v: Seq<Seq<int>>, d: nat) -> Seq<u8> {
    util::concat_parts(
        Seq::new(v.len(), |k: int| byte_encode_spec(v[k], d)),
        encoded_polynomial_size(d),
    )
}

/// The `k` polynomials decoded one after the other from `bytes` at `d` bits each.
pub open spec fn vector_decode_spec(bytes: Seq<u8>, k: nat, d: nat, q: int) -> Seq<Seq<int>> {
    Seq::new(
        k,
        |i: int|
            reduce_decoded(
                byte_decode_spec(util::split_parts(bytes, k, encoded_polynomial_size(d))[i], d),
                d,
                q,
            ),
    )
}

impl<F: Field> Polynomial<F> {
    /// The `32 * D` bytes of the coefficients packed at `D` bits each.
    pub fn encode<const D: usize>(&self) -> (r: Vec<u8>)
        requires
            supported_width(D as nat),
            digits_fit(self@, D as nat),
        ensures
            r@ == byte_encode_spec(self@, D as nat),
    {
        byte_encode::<F, D>(&self.0)
    }

    /// The polynomial whose coefficients are packed at `D` bits each in `enc`.
    pub fn decode<const D: usize>(enc: &[u8]) -> (r: Self)
        requires
            supported_width(D as nat),
            enc@.len() == encoded_polynomial_size(D as nat),
            D == 12 || pow2(D as nat) <= F::modulus(),
        ensures
            r.wf(),
            r@ == reduce_decoded(byte_decode_spec(enc@, D as nat), D as nat, F::modulus() as int),
    {
        Polynomial(byte_decode::<F, D>(enc))
    }
}

impl<F: Field> NttPolynomial<F> {
    /// The `32 * D` bytes of the coefficients packed at `D` bits each.
    pub fn encode<const D: usize>(&self) -> (r: Vec<u8>)
        requires
            supported_width(D as nat),
            digits_fit(self@, D as nat),
        ensures
            r@ == byte_encode_spec(self@, D as nat),
    {
        byte_encode::<F, D>(&self.0)
    }

    /// The NTT polynomial whose coefficients are packed at `D` bits each in `enc`.
    pub fn decode<const D: usize>(enc: &[u8]) -> (r: Self)
        requires
            supported_width(D as nat),
            enc@.len() == encoded_polynomial_size(D as nat),
            D == 12 || pow2(D as nat) <= F::modulus(),
        ensures
            r.wf(),
            r@ == reduce_decoded(byte_decode_spec(enc@, D as nat), D as nat, F::modulus() as int),
    {
        NttPolynomial(byte_decode::<F, D>(enc))
    }
}

impl<F: Field, const K: usize> Vector<F, K> {
    /// The encodings of the `K` polynomials at `D` bits each, laid end to end.
    pub fn encode<const D: usize>(&self) -> (r: Vec<u8>)
        requires
            supported_width(D as nat),
            forall|k: int| 0 <= k < K ==> digits_fit(#[trigger] self@[k], D as nat),
            K * encoded_polynomial_size(D as nat) <= usize::MAX,
        ensures
            r@ == vector_encode_spec(self@, D as nat),
    {
        let mut polys: Vec<Vec<u8>> = Vec::new();
        let mut k: usize = 0;
        while k < K
            invariant
                k <= K,
                supported_width(D as nat),
                forall|i: int| 0 <= i < K ==> digits_fit(#[trigger] self@[i], D as nat),
                polys@.len() == k,
                forall|i: int|
                    0 <= i < k ==> (#[trigger] polys@[i])@ == byte_encode_spec(self@[i], D as nat),
            decreases K - k,
        {
            assert(self@[k as int] == self.0[k as int]@);
            polys.push(self.0[k].encode::<D>());
            k += 1;
        }
        let r = util::flatten(polys.as_slice(), 32 * D);
        assert(util::part_views(polys@) =~= Seq::new(
            K as nat,
            |i: int| byte_encode_spec(self@[i], D as nat),
        ));
        r
    }

    /// The vector whose `K` polynomials are packed at `D` bits each, one after the
    /// other, in `enc`.
    pub fn decode<const D: usize>(enc: &[u8]) -> (r: Self)
        requires
            supported_width(D as nat),
            enc@.len() == K * encoded_polynomial_size(D as nat),
            D == 12 || pow2(D as nat) <= F::modulus(),
        ensures
            r.wf(),
            r@ == vector_decode_spec(enc@, K as nat, D as nat, F::modulus() as int),
    {
        let ghost m = encoded_polynomial_size(D as nat);
        proof {
            lemma_mod_multiples_basic(K as int, m as int);
            lemma_div_multiples_vanish(K as int, m as int);
            lemma_mul_is_commutative(K as int, m as int);
        }
        let parts = util::unflatten(enc, 32 * D);
        assert(enc@.len() / m == K);
        assert(util::part_views(parts@).len() == parts@.len());
        let mut out = [Polynomial::zero();K];
        let mut k: usize = 0;
        while k < K
            invariant
                k <= K,
                supported_width(D as nat),
                D == 12 || pow2(D as nat) <= F::modulus(),
                m == encoded_polynomial_size(D as nat),
                util::part_views(parts@) == util::split_parts(enc@, K as nat, m),
                parts@.len() == K,
                enc@.len() == K * m,
                forall|i: int|
                    0 <= i < k ==> (#[trigger] out[i]).wf() && out[i]@ == reduce_decoded(
                        byte_decode_spec(util::split_parts(enc@, K as nat, m)[i], D as nat),
                        D as nat,
                        F::modulus() as int,
                    ),
            decreases K - k,
        {
            assert(util::part_views(parts@)[k as int] == parts@[k as int]@);
            assert(0 <= k * m && k * m + m <= K * m) by (nonlinear_arith)
                requires
                    k < K,
            ;
            out[k] = Polynomial::decode::<D>(parts[k].as_slice());
            k += 1;
        }
        let r = Vector(out);
        assert(r@ =~= vector_decode_spec(enc@, K as nat, D as nat, F::modulus() as int));
        r
    }
}

impl<F: Field, const K: usize> NttVector<F, K> {
    /// The encodings of the `K` polynomials at `D` bits each, laid end to end.
    pub fn encode<const D: usize>(&self) -> (r: Vec<u8>)
        requires
            supported_width(D as nat),
            forall|k: int| 0 <= k < K ==> digits_fit(#[trigger] self@[k], D as nat),
            K * encoded_polynomial_size(D as nat) <= usize::MAX,
        ensures
            r@ == vector_encode_spec(self@, D as nat),
    {
        let mut polys: Vec<Vec<u8>> = Vec::new();
        let mut k: usize = 0;
        while k < K
            invariant
                k <= K,
                supported_width(D as nat),
                forall|i: int| 0 <= i < K ==> digits_fit(#[trigger] self@[i], D as nat),
                polys@.len() == k,
                forall|i: int|
                    0 <= i < k ==> (#[trigger] polys@[i])@ == byte_encode_spec(self@[i], D as nat),
            decreases K - k,
        {
            assert(self@[k as int] == self.0[k as int]@);
            polys.push(self.0[k].encode::<D>());
            k += 1;
        }
        let r = util::flatten(polys.as_slice(), 32 * D);
        assert(util::part_views(polys@) =~= Seq::new(
            K as nat,
            |i: int| byte_encode_spec(self@[i], D as nat),
        ));
        r
    }

    /// The vector whose `K` polynomials are packed at `D` bits each, one after the
    /// other, in `enc`.
    pub fn decode<const D: usize>(enc: &[u8]) -> (r: Self)
        requires
            supported_width(D as nat),
            enc@.len() == K * encoded_polynomial_size(D as nat),
            D == 12 || pow2(D as nat) <= F::modulus(),
        ensures
            r.wf(),
            r@ == vector_decode_spec(enc@, K as nat, D as nat, F::modulus() as int),
    {
        let ghost m = encoded_polynomial_size(D as nat);
        proof {
            lemma_mod_multiples_basic(K as int, m as int);
            lemma_div_multiples_vanish(K as int, m as int);
            lemma_mul_is_commutative(K as int, m as int);
        }
        let parts = util::unflatten(enc, 32 * D);
        assert(enc@.len() / m == K);
        assert(util::part_views(parts@).len() == parts@.len());
        let mut out = [NttPolynomial::zero();K];
        let mut k: usize = 0;
        while k < K
            invariant
                k <= K,
                supported_width(D as nat),
                D == 12 || pow2(D as nat) <= F::modulus(),
                m == encoded_polynomial_size(D as nat),
                util::part_views(parts@) == util::split_parts(enc@, K as nat, m),
                parts@.len() == K,
                enc@.len() == K * m,
                forall|i: int|
                    0 <= i < k ==> (#[trigger] out[i]).wf() && out[i]@ == reduce_decoded(
                        byte_decode_spec(util::split_parts(enc@, K as nat, m)[i], D as nat),
                        D as nat,
                        F::modulus() as int,
                    ),
            decreases K - k,
        {
            assert(util::part_views(parts@)[k as int] == parts@[k as int]@);
            assert(0 <= k * m && k * m + m <= K * m) by (nonlinear_arith)
                requires
                    k < K,
            ;
            out[k] = NttPolynomial::decode::<D>(parts[k].as_slice());
            k += 1;
        }
        let r = NttVector(out);
        assert(r@ =~= vector_decode_spec(enc@, K as nat, D as nat, F::modulus() as int));
        r
    }
}

/// Encoding residues of at most `d` bits and decoding the bytes gives the
/// residues back.
pub proof fn lemma_polynomial_round_trip(vals: Seq<int>, d: nat, q: int)
    requires
        supported_width(d),
        vals.len() == 256,
        digits_fit(vals, d),
        algebra::canonical(vals, q),
    ensures
        reduce_decoded(byte_decode_spec(byte_encode_spec(vals, d), d), d, q) == vals,
{
    lemma_decode_encode(vals, d);
    if d == 12 {
        let back = reduce_decoded(vals, d, q);
        assert forall|i: int| 0 <= i < 256 implies #[trigger] back[i] == vals[i] by {
            lemma_small_mod(vals[i] as nat, q as nat);
        }
        assert(back =~= vals);
    }
}

/// Decoding a byte string and encoding the result gives the bytes back. At width
/// 12, where decoding reduces modulo `q`, this holds when every packed value is
/// already below `q`.
pub proof fn lemma_bytes_round_trip(bytes: Seq<u8>, d: nat, q: int)
    requires
        supported_width(d),
        q > 0,
        bytes.len() == encoded_polynomial_size(d),
        d == 12 ==> algebra::canonical(byte_decode_spec(bytes, d), q),
    ensures
        byte_encode_spec(reduce_decoded(byte_decode_spec(bytes, d), d, q), d) == bytes,
{
    lemma_encode_decode(bytes, d);
    if d == 12 {
        let raw = byte_decode_spec(bytes, d);
        let red = reduce_decoded(raw, d, q);
        assert forall|i: int| 0 <= i < 256 implies #[trigger] red[i] == raw[i] by {
            lemma_small_mod(raw[i] as nat, q as nat);
        }
        assert(red =~= raw);
    }
}

/// Encoding a vector of residues of at most `d` bits and decoding the bytes gives
/// the vector back.
pub proof fn lemma_vector_round_trip(v: Seq<Seq<int>>, d: nat, q: int)
    requires
        supported_width(d),
        forall|k: int|
            0 <= k < v.len() ==> (#[trigger] v[k]).len() == 256 && digits_fit(v[k], d)
                && algebra::canonical(v[k], q),
    ensures
        vector_decode_spec(vector_encode_spec(v, d), v.len(), d, q) == v,
{
    let m = encoded_polynomial_size(d);
    let parts = Seq::new(v.len(), |k: int| byte_encode_spec(v[k], d));
    assert forall|k: int| 0 <= k < parts.len() implies (#[trigger] parts[k]).len() == m by {}
    util::lemma_split_concat(parts, m);
    let back = vector_decode_spec(vector_encode_spec(v, d), v.len(), d, q);
    assert forall|k: int| 0 <= k < v.len() implies #[trigger] back[k] == v[k] by {
        lemma_polynomial_round_trip(v[k], d, q);
    }
    assert(back =~= v);
}

/// Decoding `k` polynomials from a byte string and encoding them gives the bytes
/// back. At width 12 this holds when every packed value is already below `q`.
pub proof fn lemma_vector_bytes_round_trip(bytes: Seq<u8>, k: nat, d: nat, q: int)
    requires
        supported_width(d),
        q > 0,
        bytes.len() == k * encoded_polynomial_size(d),
        d == 12 ==> forall|i: int|
            0 <= i < k ==> algebra::canonical(
                byte_decode_spec(
                    #[trigger] util::split_parts(bytes, k, encoded_polynomial_size(d))[i],
                    d,
                ),
                q,
            ),
    ensures
        vector_encode_spec(vector_decode_spec(bytes, k, d, q), d) == bytes,
{
    let m = encoded_polynomial_size(d);
    let split = util::split_parts(bytes, k, m);
    let dec = vector_decode_spec(bytes, k, d, q);
    let parts = Seq::new(k, |i: int| byte_encode_spec(dec[i], d));
    assert forall|i: int| 0 <= i < k implies #[trigger] parts[i] == split[i] by {
        assert(0 <= i * m && i * m + m <= k * m) by (nonlinear_arith)
            requires
                0 <= i < k,
        ;
        lemma_bytes_round_trip(split[i], d, q);
    }
    assert(parts =~= split);
    util::lemma_concat_split(bytes, k, m);
}

} // verus!
