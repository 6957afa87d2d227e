//! Fixed-width identifiers of the chain: hashes, keys and signatures.
use vstd::bytes::{
    lemma_auto_spec_u128_to_from_le_bytes, spec_u128_from_le_bytes, spec_u128_to_le_bytes,
    u128_from_le_bytes, u128_to_le_bytes,
};
use vstd::laws_cmp::{
    obeys_cmp, obeys_cmp_ord, obeys_cmp_partial_ord, obeys_partial_cmp_spec_properties,
};
use vstd::laws_eq::obeys_eq_spec_properties;
use vstd::prelude::*;

verus! {

/// Thirty-two bytes, held as two integers so that they compare in one step.
///
/// `left` holds the first sixteen bytes and `right` the last sixteen.
#[derive(Clone, Copy, PartialEq, Eq, Structural, Debug)]
pub struct Bytes32 {
    pub left: u128,
    pub right: u128,
}

impl View for Bytes32 {
    type V = Seq<u8>;

    open spec fn view(&self) -> Seq<u8> {
        spec_u128_to_le_bytes(self.left) + spec_u128_to_le_bytes(self.right)
    }
}

impl Bytes32 {
    /// The pair of integers under which the value is filed in an ordered map.
    pub open spec fn key_spec(self) -> (u128, u128) {
        (self.left, self.right)
    }

    /// The pair of integers under which the value is filed in an ordered map.
    pub fn key(&self) -> (key: (u128, u128))
        ensures
            key == self.key_spec(),
    {
        (self.left, self.right)
    }

    /// The value that holds exactly the given bytes.
    pub fn from_bytes(bytes: &[u8; 32]) -> (value: Bytes32)
        ensures
            value@ == bytes@,
    {
        let slice = bytes.as_slice();
        let value = Bytes32 {
            left: u128_from_le_bytes(&slice[0..16]),
            right: u128_from_le_bytes(&slice[16..32]),
        };
        proof {
            lemma_auto_spec_u128_to_from_le_bytes();
            assert(bytes@.subrange(0, 16) + bytes@.subrange(16, 32) =~= bytes@);
        }
        value
    }

    /// The bytes that the value holds.
    pub fn to_bytes(&self) -> (bytes: [u8; 32])
        ensures
            bytes@ == self@,
    {
        let l = u128_to_le_bytes(self.left);
        let r = u128_to_le_bytes(self.right);
        let bytes: [u8; 32] = [
            l[0], l[1], l[2], l[3], l[4], l[5], l[6], l[7],
            l[8], l[9], l[10], l[11], l[12], l[13], l[14], l[15],
            r[0], r[1], r[2], r[3], r[4], r[5], r[6], r[7],
            r[8], r[9], r[10], r[11], r[12], r[13], r[14], r[15],
        ];
        assert(bytes@ =~= l@ + r@);
        bytes
    }
}

/// Two values are equal exactly when they hold the same bytes.
pub proof fn law_bytes_decide_equality(a: Bytes32, b: Bytes32)
    ensures
        a == b <==> a@ == b@,
{
    lemma_auto_spec_u128_to_from_le_bytes();
    if a@ == b@ {
        assert(a@.subrange(0, 16) =~= spec_u128_to_le_bytes(a.left));
        assert(b@.subrange(0, 16) =~= spec_u128_to_le_bytes(b.left));
        assert(a@.subrange(16, 32) =~= spec_u128_to_le_bytes(a.right));
        assert(b@.subrange(16, 32) =~= spec_u128_to_le_bytes(b.right));
        assert(spec_u128_from_le_bytes(spec_u128_to_le_bytes(a.left)) == a.left);
        assert(spec_u128_from_le_bytes(spec_u128_to_le_bytes(a.right)) == a.right);
    }
}

/// A digest. Blocks are known by their hash.
#[derive(Clone, Copy, PartialEq, Eq, Structural, Debug)]
pub struct Digest {
    pub bytes: Bytes32,
}

/// The hash by which a transaction is found.
pub type TransactionId = Digest;

/// A public key, which is also the address that coins are sent to.
#[derive(Clone, Copy, PartialEq, Eq, Structural, Debug)]
pub struct Public {
    pub bytes: Bytes32,
}

/// A private key, which signs the inputs of a transaction.
#[derive(Clone, Copy, PartialEq, Eq, Structural, Debug)]
pub struct Private {
    pub bytes: Bytes32,
}

/// A signature of sixty-four bytes, in two halves.
#[derive(Clone, Copy, PartialEq, Eq, Structural, Debug)]
pub struct Signature {
    pub first: Bytes32,
    pub second: Bytes32,
}

/// Pairs of integers are totally ordered, so ordered maps can be keyed by them.
pub(crate) proof fn lemma_pair_order()
    ensures
        obeys_cmp::<(u128, u128)>(),
{
    reveal(obeys_eq_spec_properties);
    reveal(obeys_cmp_partial_ord);
    reveal(obeys_cmp_ord);
    reveal(obeys_partial_cmp_spec_properties);
}

} // verus!
