//! The authenticator of transactions that an object sends.
use crate::base_types::{ObjectID, SuiAddress};
use crate::error::{SuiError, SuiResult};
use vstd::prelude::*;

verus! {

/// Number of an epoch.
pub type EpochId = u64;

/// An authenticator that names the object which sends a transaction. It
/// carries no signature: it is never checked as one.
#[derive(Eq, PartialEq, Clone, Copy, Debug, PartialOrd, Ord, Hash)]
pub struct ObjectAuthenticator {
    id: ObjectID,
}

impl ObjectAuthenticator {
    /// The object that the authenticator names.
    pub closed spec fn id(self) -> ObjectID {
        self.id
    }

    /// The authenticator that names the object `id`.
    pub fn new(id: ObjectID) -> (r: Self)
        ensures
            r.id() == id,
    {
        Self { id }
    }

    /// The address of the object that the authenticator names.
    pub fn get_address(&self) -> (r: SuiAddress)
        ensures
            r == SuiAddress(self.id().0),
    {
        SuiAddress::from_object_id(self.id)
    }

    /// The authenticator is good in every epoch.
    pub fn verify_user_authenticator_epoch(
        &self,
        _epoch: EpochId,
        _max_epoch_upper_bound_delta: Option<u64>,
    ) -> (r: SuiResult)
        ensures
            r is Ok,
    {
        Ok(())
    }

    /// The authenticator proves nothing of `_author`: to check it as a
    /// signature is an error.
    pub fn verify_claims(&self, _author: SuiAddress) -> (r: SuiResult)
        ensures
            r matches Err(SuiError::InvalidSignature { error }) && error@
                == "Object authenticator should not be checked"@,
    {
        return Err(
            SuiError::InvalidSignature {
                error: "Object authenticator should not be checked".to_owned(),
            },
        );
    }

    /// The bytes of the identifier that the authenticator names.
    pub fn to_vec(&self) -> (r: Vec<u8>)
        ensures
            r@ == self.id().bytes(),
    {
        self.id.to_vec()
    }
}

} // verus!
