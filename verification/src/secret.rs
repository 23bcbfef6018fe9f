use vstd::prelude::*;

verus! {

/// `Zeroize::zeroize` of the zeroize crate, on a byte slice: every byte
/// becomes zero.
#[verifier::external_body]
pub(crate) fn zeroize(bytes: &mut [u8])
    ensures
        final(bytes)@.len() == old(bytes)@.len(),
        forall|i: int| 0 <= i < final(bytes)@.len() ==> final(bytes)@[i] == 0,
    opens_invariants none
    no_unwind
{
    zeroize::Zeroize::zeroize(bytes)
}

/// `Zeroize::zeroize` of the zeroize crate, on a vector: every byte becomes
/// zero, and the vector becomes empty.
#[verifier::external_body]
pub(crate) fn zeroize_vec(bytes: &mut Vec<u8>)
    ensures
        final(bytes)@.len() == 0,
    opens_invariants none
    no_unwind
{
    zeroize::Zeroize::zeroize(bytes)
}

/// `ConstantTimeEq::ct_eq` of the subtle crate, on byte slices: whether both
/// hold the same bytes.
#[verifier::external_body]
pub(crate) fn constant_time_equal(left: &[u8], right: &[u8]) -> (equal: bool)
    ensures
        equal == (left@ == right@),
{
    subtle::ConstantTimeEq::ct_eq(left, right).into()
}

/// Key material that is overwritten with zeros when it is dropped.
pub struct SecretBytes<const N: usize> {
    bytes: [u8; N],
}

impl<const N: usize> View for SecretBytes<N> {
    type V = Seq<u8>;

    closed spec fn view(&self) -> Seq<u8> {
        self.bytes@
    }
}

impl<const N: usize> SecretBytes<N> {
    pub(crate) fn new(bytes: [u8; N]) -> (secret: Self)
        ensures
            secret@ == bytes@,
    {
        SecretBytes { bytes }
    }

    pub(crate) fn expose_bytes(&self) -> (bytes: &[u8; N])
        ensures
            bytes@ == self@,
    {
        &self.bytes
    }
}

impl<const N: usize> Drop for SecretBytes<N> {
    fn drop(&mut self)
        ensures
            forall|i: int| 0 <= i < final(self)@.len() ==> final(self)@[i] == 0,
        opens_invariants none
        no_unwind
    {
        zeroize(&mut self.bytes);
    }
}

} // verus!
