//! Identifiers, addresses, versions and digests.
use crate::wire::{
    be_bytes, be_value, bytes_before, lemma_be_bytes_len, lemma_be_bytes_order,
    lemma_be_value_bound, lemma_radix_pow_values, read_u128_be, write_u128_be,
};
use vstd::prelude::*;

verus! {

/// Millisecond timestamp.
pub type TimestampMs = u64;

/// Version of an object.
pub type SequenceNumber = u64;

/// Identifier, version and digest of an object at one point of its life.
pub type ObjectRef = (ObjectID, SequenceNumber, ObjectDigest);

/// Fixed-width handle of an on-chain object. The number is the handle's
/// sixteen bytes read with the most significant byte first, so identifiers
/// are ordered as their bytes are.
#[derive(Clone, Copy, Debug, PartialEq, Eq, Structural, PartialOrd, Ord, Hash)]
pub struct ObjectID(pub u128);

impl ObjectID {
    /// The sixteen bytes of the identifier.
    pub open spec fn bytes(self) -> Seq<u8> {
        be_bytes(self.0 as nat, 16)
    }

    /// The identifier that the sixteen bytes spell.
    pub fn new(bytes: [u8; 16]) -> (r: Self)
        ensures
            r.0 == be_value(bytes@),
            r.bytes() == bytes@,
    {
        proof {
            assert(bytes@.subrange(0, 16) =~= bytes@);
            crate::wire::lemma_be_bytes_of_value(bytes@);
            lemma_be_value_bound(bytes@);
            lemma_radix_pow_values();
        }
        ObjectID(read_u128_be(bytes.as_slice(), 0))
    }

    /// The identifier that `bytes` spell, if there are sixteen of them.
    pub fn from_bytes(bytes: &[u8]) -> (r: Option<Self>)
        ensures
            r is Some <==> bytes@.len() == 16,
            r is Some ==> r.unwrap().bytes() == bytes@,
    {
        if bytes.len() != 16 {
            return None;
        }
        proof {
            assert(bytes@.subrange(0, 16) =~= bytes@);
            crate::wire::lemma_be_bytes_of_value(bytes@);
            lemma_be_value_bound(bytes@);
            lemma_radix_pow_values();
        }
        Some(ObjectID(read_u128_be(bytes, 0)))
    }

    /// The sixteen bytes of the identifier.
    pub fn to_vec(&self) -> (r: Vec<u8>)
        ensures
            r@ == self.bytes(),
            r@.len() == 16,
    {
        let mut out: Vec<u8> = Vec::new();
        write_u128_be(&mut out, self.0);
        proof {
            lemma_be_bytes_len(self.0 as nat, 16);
            assert(out@ =~= self.bytes());
        }
        out
    }
}

/// Two identifiers with the same bytes are the same identifier.
pub proof fn lemma_object_id_bytes_injective(a: ObjectID, b: ObjectID)
    requires
        a.bytes() == b.bytes(),
    ensures
        a == b,
{
    lemma_radix_pow_values();
    crate::wire::lemma_be_value_of_bytes(a.0 as nat, 16);
    crate::wire::lemma_be_value_of_bytes(b.0 as nat, 16);
}

/// Identifiers are ordered as their bytes are.
pub proof fn lemma_object_id_order(a: ObjectID, b: ObjectID)
    ensures
        a.0 < b.0 <==> bytes_before(a.bytes(), b.bytes()),
{
    lemma_radix_pow_values();
    lemma_be_bytes_order(a.0 as nat, b.0 as nat, 16);
}

/// Address of an account or of an object that owns other objects.
#[derive(Clone, Copy, Debug, PartialEq, Eq, Structural, PartialOrd, Ord, Hash)]
pub struct SuiAddress(pub u128);

impl SuiAddress {
    /// The address that an object has as an owner.
    pub fn from_object_id(id: ObjectID) -> (r: Self)
        ensures
            r.0 == id.0,
    {
        SuiAddress(id.0)
    }
}

/// The globally unique handle that an object carries as its first field.
#[derive(Clone, Copy, Debug, PartialEq, Eq, Structural, Hash)]
pub struct UID {
    pub id: ObjectID,
}

impl UID {
    /// The handle of the object `id`.
    pub fn new(id: ObjectID) -> (r: Self)
        ensures
            r.id == id,
    {
        UID { id }
    }

    /// The identifier of the object that carries the handle.
    pub fn object_id(&self) -> (r: &ObjectID)
        ensures
            *r == self.id,
    {
        &self.id
    }
}

/// Digest of an object's contents.
#[derive(Clone, Copy, Debug, PartialEq, Eq, Hash)]
pub struct ObjectDigest(pub [u8; 32]);

/// Digest of a transaction.
#[derive(Clone, Copy, Debug, PartialEq, Eq, Hash)]
pub struct TransactionDigest(pub [u8; 32]);

impl TransactionDigest {
    /// The digest with the bytes `digest`.
    pub fn new(digest: [u8; 32]) -> (r: Self)
        ensures
            r.0 == digest,
    {
        TransactionDigest(digest)
    }
}

impl ObjectDigest {
    /// The digest with the bytes `digest`.
    pub fn new(digest: [u8; 32]) -> (r: Self)
        ensures
            r.0 == digest,
    {
        ObjectDigest(digest)
    }
}

} // verus!
