use ml_dsa::module_lattice::algebra::{
    Elem, Field, MlDsaField, MlKemField, NttMatrix, NttPolynomial, NttVector, Polynomial,
    ToyField, Vector,
};

type TestField = ToyField;

fn elem(x: u32) -> Elem<TestField> {
    Elem::new(x)
}

#[test]
fn field_arithmetic() {
    let a = Elem::<TestField>::new(5);
    let b = Elem::<TestField>::new(7);

    let sum = a.add(b);
    assert_eq!(sum.0, 12);

    let diff = a.sub(b);
    assert_eq!(diff.0, 15);

    let prod = a.mul(b);
    assert_eq!(prod.0, 1);

    let neg_a = a.neg();
    assert_eq!(neg_a.0, 12);
}

#[test]
fn field_reduction() {
    assert_eq!(TestField::small_reduce(16), 16);
    assert_eq!(TestField::small_reduce(17), 0);
    assert_eq!(TestField::small_reduce(18), 1);

    assert_eq!(TestField::barrett_reduce(35), 1);
    assert_eq!(TestField::barrett_reduce(34), 0);
}

#[test]
fn polynomial_arithmetic() {
    let mut p1_coeffs = [elem(0); 256];
    let mut p2_coeffs = [elem(0); 256];

    p1_coeffs[0] = elem(1);
    p1_coeffs[1] = elem(2);
    p2_coeffs[0] = elem(3);
    p2_coeffs[1] = elem(4);

    let p1 = Polynomial::new(p1_coeffs);
    let p2 = Polynomial::new(p2_coeffs);

    let sum = p1.add(&p2);
    assert_eq!(sum.0[0].0, 4);
    assert_eq!(sum.0[1].0, 6);

    let diff = p1.sub(&p2);
    assert_eq!(diff.0[0].0, 15);
    assert_eq!(diff.0[1].0, 15);
}

#[test]
fn field_descriptors() {
    assert_eq!(MlDsaField::q(), 8380417);
    assert_eq!(MlDsaField::barrett_shift(), 46);
    assert_eq!(MlDsaField::barrett_multiplier(), (1u128 << 46) / 8380417);
    assert_eq!(MlKemField::q(), 3329);
    assert_eq!(MlKemField::barrett_shift(), 24);
    assert_eq!(MlKemField::barrett_multiplier(), (1u128 << 24) / 3329);
    assert_eq!(TestField::barrett_shift(), 10);
    assert_eq!(TestField::barrett_multiplier(), 60);
}

#[test]
fn barrett_reduce_matches_remainder() {
    let q = MlDsaField::q() as u64;
    let samples = [0u64, 1, q - 1, q, q + 1, 2 * q - 1, 123_456_789_012, (q - 1) * (q - 1)];
    for &x in samples.iter() {
        assert_eq!(MlDsaField::barrett_reduce(x) as u64, x % q);
    }
    let k = MlKemField::q() as u64;
    for x in [0u64, 3328, 3329, 6657, 3328 * 3328].iter() {
        assert_eq!(MlKemField::barrett_reduce(*x) as u64, *x % k);
    }
    for x in 0u64..289 {
        assert_eq!(TestField::barrett_reduce(x) as u64, x % 17);
    }
}

#[test]
fn small_reduce_whole_domain() {
    for x in 0u32..34 {
        assert_eq!(TestField::small_reduce(x), x % 17);
    }
    let q = MlDsaField::q();
    assert_eq!(MlDsaField::small_reduce(2 * q - 1), q - 1);
    assert_eq!(MlDsaField::small_reduce(q), 0);
}

#[test]
fn field_laws_on_values() {
    for a in 0u32..17 {
        for b in 0u32..17 {
            let (ea, eb) = (elem(a), elem(b));
            assert_eq!(ea.add(eb), eb.add(ea));
            assert_eq!(ea.add(ea.neg()).0, 0);
            for c in [0u32, 1, 9, 16].iter() {
                let ec = elem(*c);
                assert_eq!(ea.add(eb).add(ec), ea.add(eb.add(ec)));
                assert_eq!(ea.mul(eb.add(ec)), ea.mul(eb).add(ea.mul(ec)));
            }
        }
    }
}

#[test]
fn large_field_operations() {
    let q = MlDsaField::q();
    let a = Elem::<MlDsaField>::new(q - 1);
    let b = Elem::<MlDsaField>::new(2);
    assert_eq!(a.add(b).0, 1);
    assert_eq!(b.sub(a).0, 3);
    assert_eq!(a.mul(a).0, 1);
    assert_eq!(Elem::<MlDsaField>::new(0).neg().0, 0);
    assert_eq!(a.mul(b).0, q - 2);
}

#[test]
fn polynomial_negation_and_scaling() {
    let mut coeffs = [elem(0); 256];
    coeffs[0] = elem(5);
    coeffs[255] = elem(16);
    let p = Polynomial::new(coeffs);
    let n = p.neg();
    assert_eq!(n.0[0].0, 12);
    assert_eq!(n.0[1].0, 0);
    assert_eq!(n.0[255].0, 1);
    let s = p.scale(elem(7));
    assert_eq!(s.0[0].0, 1);
    assert_eq!(s.0[255].0, 10);
    assert_eq!(Polynomial::<TestField>::zero(), Polynomial::new([elem(0); 256]));
}

#[test]
fn vector_arithmetic() {
    let mut c1 = [elem(0); 256];
    c1[3] = elem(10);
    let mut c2 = [elem(0); 256];
    c2[3] = elem(9);
    let v = Vector::<TestField, 2>::new([Polynomial::new(c1), Polynomial::new(c2)]);
    let w = Vector::<TestField, 2>::new([Polynomial::new(c2), Polynomial::new(c1)]);
    let sum = v.add(&w);
    assert_eq!(sum.0[0].0[3].0, 2);
    assert_eq!(sum.0[1].0[3].0, 2);
    let diff = v.sub(&w);
    assert_eq!(diff.0[0].0[3].0, 1);
    assert_eq!(diff.0[1].0[3].0, 16);
    let neg = v.neg();
    assert_eq!(neg.0[0].0[3].0, 7);
    let scaled = v.scale(elem(2));
    assert_eq!(scaled.0[0].0[3].0, 3);
    assert_eq!(scaled.0[1].0[3].0, 1);
}

#[test]
fn ntt_polynomial_operations() {
    let mut a = [elem(0); 256];
    let mut b = [elem(0); 256];
    for i in 0..256 {
        a[i] = elem((i % 17) as u32);
        b[i] = elem(((i * 3) % 17) as u32);
    }
    let pa = NttPolynomial::new(a);
    let pb = NttPolynomial::new(b);
    let prod = pa.mul(&pb);
    for i in 0..256 {
        assert_eq!(prod.0[i].0 as usize, ((i % 17) * ((i * 3) % 17)) % 17);
    }
    let sum = pa.add(&pb);
    assert_eq!(sum.0[5].0, (5 + 15) % 17);
    let diff = pa.sub(&pb);
    assert_eq!(diff.0[5].0, (5 + 17 - 15) % 17);
    assert_eq!(pa.neg().0[5].0, 12);
    assert_eq!(pa.scale(elem(2)).0[9].0, 1);
}

#[test]
fn ntt_vector_dot_product() {
    let mut a = [elem(0); 256];
    let mut b = [elem(0); 256];
    a[0] = elem(3);
    b[0] = elem(4);
    a[7] = elem(16);
    b[7] = elem(16);
    let x = NttVector::<TestField, 2>::new([NttPolynomial::new(a), NttPolynomial::new(b)]);
    let y = NttVector::<TestField, 2>::new([NttPolynomial::new(b), NttPolynomial::new(b)]);
    let dot = x.mul(&y);
    // 3*4 + 4*4 = 28 = 11 (mod 17); 16*16 + 16*16 = 512 = 2 (mod 17)
    assert_eq!(dot.0[0].0, 11);
    assert_eq!(dot.0[7].0, 2);
    assert_eq!(dot.0[1].0, 0);

    let scaled = x.mul_poly(&NttPolynomial::new(b));
    assert_eq!(scaled.0[0].0[0].0, 12);
    assert_eq!(scaled.0[1].0[0].0, 16);
    assert_eq!(x.add(&y).0[0].0[0].0, 7);
    assert_eq!(x.sub(&y).0[0].0[0].0, 16);
}

#[test]
fn matrix_identity_apply() {
    let one = NttPolynomial::new([elem(1); 256]);
    let m = NttMatrix::<TestField, 1, 1>::new([NttVector::new([one])]);
    let mut c = [elem(0); 256];
    for i in 0..256 {
        c[i] = elem(((i * 7) % 17) as u32);
    }
    let v = NttVector::<TestField, 1>::new([NttPolynomial::new(c)]);
    assert_eq!(m.mul(&v), v);
}

#[test]
fn matrix_vector_product() {
    let p = |x: u32| NttPolynomial::new([elem(x); 256]);
    let m = NttMatrix::<TestField, 2, 3>::new([
        NttVector::new([p(1), p(2), p(3)]),
        NttVector::new([p(4), p(5), p(6)]),
    ]);
    let v = NttVector::<TestField, 3>::new([p(1), p(1), p(2)]);
    let r = m.mul(&v);
    // (1 + 2 + 6) = 9; (4 + 5 + 12) = 21 = 4 (mod 17)
    assert_eq!(r.0[0], p(9));
    assert_eq!(r.0[1], p(4));
}

#[test]
fn zeroize_clears_values() {
    let mut e = elem(13);
    e.zeroize();
    assert_eq!(e.0, 0);

    let mut p = Polynomial::new([elem(9); 256]);
    p.zeroize();
    assert_eq!(p, Polynomial::new([elem(0); 256]));

    let mut n = NttPolynomial::new([elem(3); 256]);
    n.zeroize();
    assert_eq!(n, NttPolynomial::zero());

    let mut v = Vector::<TestField, 3>::new([Polynomial::new([elem(4); 256]); 3]);
    v.zeroize();
    assert_eq!(v, Vector::new([Polynomial::zero(); 3]));

    let mut w = NttVector::<TestField, 2>::new([NttPolynomial::new([elem(4); 256]); 2]);
    w.zeroize();
    assert_eq!(w, NttVector::new([NttPolynomial::zero(); 2]));
}
