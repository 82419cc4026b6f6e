use ml_dsa::Signature;

#[test]
fn signature_from_slice() {
    let bytes = [1u8, 2, 3, 4];
    let sig = Signature::<4>::try_from(&bytes[..]).unwrap();
    assert_eq!(sig.as_ref(), &bytes[..]);
    assert_eq!(sig.to_bytes(), bytes);
    assert_eq!(Signature::<4>::from(bytes), sig);
    let back: [u8; 4] = sig.into();
    assert_eq!(back, bytes);
}

#[test]
fn signature_wrong_length() {
    assert!(Signature::<4>::try_from(&[1u8, 2, 3][..]).is_err());
    assert!(Signature::<4>::try_from(&[0u8; 5][..]).is_err());
    assert!(Signature::<0>::try_from(&[][..]).is_ok());
}

#[test]
fn hash_marker_exists() {
    let _h = ml_dsa::crypto::hash::Hash;
}
