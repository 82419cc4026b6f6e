//! Module-lattice arithmetic for ML-DSA (FIPS 204): a prime field with Barrett
//! reduction, polynomials, vectors and matrices over it in the normal and the NTT
//! domain, and the bit-packing codec for them.
use vstd::prelude::*;

pub mod crypto;
pub mod module_lattice;
pub mod param;

verus! {

#[verifier::external_type_specification]
#[verifier::external_body]
pub struct ExSignatureError(signature::Error);

/// Relies on `signature::Error::new`, which makes an error with no source.
pub assume_specification[ signature::Error::new ]() -> signature::Error;

/// An encoded ML-DSA signature of `N` bytes.
#[derive(Clone, Copy, Debug, PartialEq)]
pub struct Signature<const N: usize>(pub [u8; N]);

/// An encoded ML-DSA signing key of `N` bytes.
pub struct SigningKey<const N: usize>(pub [u8; N]);

/// An encoded ML-DSA verification key of `N` bytes.
pub struct VerificationKey<const N: usize>(pub [u8; N]);

impl<const N: usize> View for Signature<N> {
    type V = Seq<u8>;

    /// The bytes of the signature.
    open spec fn view(&self) -> Seq<u8> {
        self.0@
    }
}

impl<const N: usize> Signature<N> {
    /// The bytes of the signature.
    pub fn as_ref(&self) -> (r: &[u8])
        ensures
            r@ == self@,
    {
        self.0.as_slice()
    }

    /// The signature's bytes as an array.
    pub fn to_bytes(self) -> (r: [u8; N])
        ensures
            r@ == self@,
    {
        self.0
    }

    /// The signature held in `bytes`, which must be exactly `N` bytes long.
    pub fn try_from(bytes: &[u8]) -> (r: Result<Self, signature::Error>)
        ensures
            r is Ok <==> bytes@.len() == N,
            r is Ok ==> r->Ok_0@ == bytes@,
    {
        if bytes.len() == N {
            let mut array = [0u8; N];
            let mut i: usize = 0;
            while i < N
                invariant
                    i <= N,
                    bytes@.len() == N,
                    forall|j: int| 0 <= j < i ==> #[trigger] array[j] == bytes@[j],
                decreases N - i,
            {
                array[i] = bytes[i];
                i += 1;
            }
            assert(array@ =~= bytes@);
            Ok(Signature(array))
        } else {
            Err(signature::Error::new())
        }
    }
}

impl<const N: usize> From<[u8; N]> for Signature<N> {
    fn from(bytes: [u8; N]) -> (r: Self) {
        Signature(bytes)
    }
}

impl<const N: usize> vstd::std_specs::convert::FromSpecImpl<[u8; N]> for Signature<N> {
    open spec fn obeys_from_spec() -> bool {
        true
    }

    open spec fn from_spec(bytes: [u8; N]) -> Self {
        Signature(bytes)
    }
}

impl<const N: usize> From<Signature<N>> for [u8; N] {
    fn from(sig: Signature<N>) -> (r: [u8; N]) {
        sig.0
    }
}

impl<const N: usize> vstd::std_specs::convert::FromSpecImpl<Signature<N>> for [u8; N] {
    open spec fn obeys_from_spec() -> bool {
        true
    }

    open spec fn from_spec(sig: Signature<N>) -> [u8; N] {
        sig.0
    }
}

} // verus!
