use ml_dsa::module_lattice::algebra::{Elem, MlDsaField, MlKemField, NttPolynomial, NttVector, Polynomial, ToyField, Vector};
use ml_dsa::module_lattice::encode::{byte_decode, byte_encode};
use ml_dsa::param::{ml_dsa_44, ml_dsa_65, ml_dsa_87};

type TestField = ToyField;

#[test]
fn encode_decode_polynomial() {
    let mut coeffs = [Elem::<TestField>::new(0); 256];
    coeffs[0] = Elem::<TestField>::new(1);
    coeffs[1] = Elem::<TestField>::new(2);
    coeffs[2] = Elem::<TestField>::new(15);

    let poly = Polynomial::new(coeffs);

    let encoded = poly.encode::<4>();
    let decoded: Polynomial<TestField> = Polynomial::decode::<4>(&encoded);

    assert_eq!(decoded.0[0].0, 1);
    assert_eq!(decoded.0[1].0, 2);
    assert_eq!(decoded.0[2].0, 15);

    assert_eq!(poly, decoded);
}

#[test]
fn encode_decode_vector() {
    let mut poly1_coeffs = [Elem::<TestField>::new(0); 256];
    let mut poly2_coeffs = [Elem::<TestField>::new(0); 256];

    poly1_coeffs[0] = Elem::<TestField>::new(5);
    poly2_coeffs[0] = Elem::<TestField>::new(10);

    let poly1 = Polynomial::new(poly1_coeffs);
    let poly2 = Polynomial::new(poly2_coeffs);
    let vector: Vector<TestField, 2> = Vector::new([poly1, poly2]);

    let encoded = vector.encode::<4>();
    let decoded: Vector<TestField, 2> = Vector::decode::<4>(&encoded);

    assert_eq!(vector, decoded);
    assert_eq!(decoded.0[0].0[0].0, 5);
    assert_eq!(decoded.0[1].0[0].0, 10);
}

#[test]
fn four_bit_packing_layout() {
    let mut coeffs = [Elem::<TestField>::new(0); 256];
    coeffs[0] = Elem::new(1);
    coeffs[1] = Elem::new(2);
    coeffs[2] = Elem::new(15);
    coeffs[3] = Elem::new(0);
    let poly = Polynomial::new(coeffs);
    let encoded = poly.encode::<4>();
    assert_eq!(encoded.len(), 128);
    assert_eq!(&encoded[..2], &[0x21u8, 0x0f][..]);
    assert!(encoded[2..].iter().all(|&b| b == 0));
    let decoded = Polynomial::<TestField>::decode::<4>(&encoded);
    let prefix: Vec<u32> = decoded.0[..4].iter().map(|e| e.0).collect();
    assert_eq!(prefix, vec![1, 2, 15, 0]);
}

#[test]
fn ten_bit_packing_layout() {
    let mut coeffs = [Elem::<MlDsaField>::new(0); 256];
    coeffs[0] = Elem::new(0x3ff);
    coeffs[1] = Elem::new(1);
    coeffs[2] = Elem::new(2);
    coeffs[3] = Elem::new(3);
    let encoded = Polynomial::new(coeffs).encode::<10>();
    assert_eq!(encoded.len(), 320);
    // 0x3ff | 1 << 10 | 2 << 20 | 3 << 30, little-endian over five bytes
    let x: u64 = 0x3ff | (1 << 10) | (2 << 20) | (3 << 30);
    let expected: Vec<u8> = (0..5).map(|t| ((x >> (8 * t)) & 0xff) as u8).collect();
    assert_eq!(&encoded[..5], &expected[..]);
}

#[test]
fn thirteen_bit_group_layout() {
    let mut coeffs = [Elem::<MlDsaField>::new(0); 256];
    for j in 0..8 {
        coeffs[j] = Elem::new(0x1000 + j as u32);
    }
    let encoded = Polynomial::new(coeffs).encode::<13>();
    assert_eq!(encoded.len(), 416);
    let mut x: u128 = 0;
    for j in 0..8 {
        x |= ((0x1000 + j) as u128) << (13 * j);
    }
    let expected: Vec<u8> = (0..13).map(|t| ((x >> (8 * t)) & 0xff) as u8).collect();
    assert_eq!(&encoded[..13], &expected[..]);
    assert!(encoded[13..].iter().all(|&b| b == 0));
}

fn sample_poly(seed: u32, bits: u32) -> Polynomial<MlDsaField> {
    let mut coeffs = [Elem::<MlDsaField>::new(0); 256];
    let mask = (1u32 << bits) - 1;
    let mut state = seed.wrapping_mul(2654435761).wrapping_add(12345);
    for c in coeffs.iter_mut() {
        state = state.wrapping_mul(1103515245).wrapping_add(12345);
        *c = Elem::new((state >> 7) & mask);
    }
    Polynomial::new(coeffs)
}

#[test]
fn polynomial_round_trip_all_widths() {
    macro_check::<1>();
    macro_check::<3>();
    macro_check::<4>();
    macro_check::<6>();
    macro_check::<10>();
    macro_check::<13>();
    macro_check::<18>();
    macro_check::<20>();
}

fn macro_check<const D: usize>() {
    let p = sample_poly(D as u32, D as u32);
    let enc = p.encode::<D>();
    assert_eq!(enc.len(), 32 * D);
    assert_eq!(Polynomial::<MlDsaField>::decode::<D>(&enc), p);
    let n = NttPolynomial::new(p.0);
    assert_eq!(n.encode::<D>(), enc);
    assert_eq!(NttPolynomial::<MlDsaField>::decode::<D>(&enc), n);
}

#[test]
fn bytes_round_trip() {
    let bytes: Vec<u8> = (0..32 * 10).map(|i| (i * 37 + 11) as u8).collect();
    let p = Polynomial::<MlDsaField>::decode::<10>(&bytes);
    assert_eq!(p.encode::<10>(), bytes);
    let bytes20: Vec<u8> = (0..32 * 20).map(|i| (i * 101 + 7) as u8).collect();
    let p20 = Polynomial::<MlDsaField>::decode::<20>(&bytes20);
    assert_eq!(p20.encode::<20>(), bytes20);
}

#[test]
fn width_twelve_reduces_modulo_q() {
    let mut bytes = vec![0u8; 32 * 12];
    // first value 0xfff (4095), second value 3329
    let x: u32 = 0xfff | (3329 << 12);
    bytes[0] = (x & 0xff) as u8;
    bytes[1] = ((x >> 8) & 0xff) as u8;
    bytes[2] = ((x >> 16) & 0xff) as u8;
    let p = Polynomial::<MlKemField>::decode::<12>(&bytes);
    assert_eq!(p.0[0].0, 4095 % 3329);
    assert_eq!(p.0[1].0, 0);
    assert_eq!(p.0[2].0, 0);
    // values below q survive the round trip
    let mut coeffs = [Elem::<MlKemField>::new(0); 256];
    coeffs[0] = Elem::new(3328);
    coeffs[255] = Elem::new(1234);
    let q = Polynomial::new(coeffs);
    assert_eq!(Polynomial::<MlKemField>::decode::<12>(&q.encode::<12>()), q);
}

#[test]
fn raw_byte_codec() {
    let mut coeffs = [Elem::<TestField>::new(0); 256];
    coeffs[0] = Elem::new(1);
    coeffs[1] = Elem::new(1);
    let enc = byte_encode::<TestField, 1>(&coeffs);
    assert_eq!(enc.len(), 32);
    assert_eq!(enc[0], 0x03);
    let dec = byte_decode::<TestField, 1>(&enc);
    assert_eq!(dec, coeffs);
}

fn vector_round_trip<const K: usize, const D: usize>() {
    let mut polys = [Polynomial::<MlDsaField>::zero(); K];
    for (k, p) in polys.iter_mut().enumerate() {
        *p = sample_poly((k * 31 + D) as u32, D as u32);
    }
    let v = Vector::new(polys);
    let enc = v.encode::<D>();
    assert_eq!(enc.len(), K * 32 * D);
    for k in 0..K {
        assert_eq!(&enc[k * 32 * D..(k + 1) * 32 * D], &polys[k].encode::<D>()[..]);
    }
    assert_eq!(Vector::<MlDsaField, K>::decode::<D>(&enc), v);
    let n = NttVector::new(polys.map(|p| NttPolynomial::new(p.0)));
    assert_eq!(n.encode::<D>(), enc);
    assert_eq!(NttVector::<MlDsaField, K>::decode::<D>(&enc), n);
}

#[test]
fn vector_round_trip_parameter_sets() {
    vector_round_trip::<{ ml_dsa_44::K }, 10>();
    vector_round_trip::<{ ml_dsa_44::L }, 18>();
    vector_round_trip::<{ ml_dsa_65::K }, 4>();
    vector_round_trip::<{ ml_dsa_65::L }, 20>();
    vector_round_trip::<{ ml_dsa_87::K }, 3>();
    vector_round_trip::<{ ml_dsa_87::L }, 13>();
}
