//! The object store as the trigger index reads it.
use crate::base_types::ObjectID;
use crate::error::{SuiError, SuiResult};
use crate::object::{Object, ObjectView};
use std::collections::{HashMap, HashSet};
use vstd::prelude::*;

verus! {

/// What the object store answers when it is asked for an identifier.
pub ghost enum ReadOutcome {
    /// The object that the store holds under the identifier.
    Found(ObjectView),
    /// The store holds no object under the identifier: there never was one,
    /// or it was pruned.
    Missing,
    /// The store could not answer.
    Failed,
}

/// Read access to a snapshot of the object store. The snapshot does not
/// change while it is read: asked twice for one identifier, the store gives
/// the same answer.
pub trait ObjectCacheRead {
    /// What the store answers for `id`. A store says what that is; of one
    /// that does not say, nothing is known.
    open spec fn lookup(&self, id: ObjectID) -> ReadOutcome {
        arbitrary()
    }

    /// Reads the object `id`. `Ok(None)`: there is no such object. `Err`: the
    /// store could not answer now. An object that is handed out has the
    /// identifier that was asked for.
    fn get_object(&self, id: &ObjectID) -> (r: SuiResult<Option<Object>>)
        ensures
            match r {
                Ok(Some(object)) => self.lookup(*id) == ReadOutcome::Found(object@) && object@.id()
                    == *id,
                Ok(None) => self.lookup(*id) is Missing,
                Err(_) => self.lookup(*id) is Failed,
            },
    ;
}

/// A snapshot of the object store that is held in memory.
pub struct ObjectSnapshot {
    objects: HashMap<u128, Object>,
    failing: HashSet<u128>,
}

impl ObjectSnapshot {
    /// The objects of the snapshot, by the number of their identifier.
    pub closed spec fn objects(&self) -> Map<u128, ObjectView> {
        Map::new(|k: u128| self.objects@.contains_key(k), |k: u128| self.objects@[k]@)
    }

    /// The identifiers, as numbers, for which the snapshot fails to answer.
    pub closed spec fn failing(&self) -> Set<u128> {
        self.failing@
    }

    /// A snapshot without objects.
    pub fn new() -> (r: Self)
        ensures
            r.objects() == Map::<u128, ObjectView>::empty(),
            r.failing() == Set::<u128>::empty(),
    {
        let r = ObjectSnapshot { objects: HashMap::new(), failing: HashSet::new() };
        proof {
            assert(r.objects() =~= Map::<u128, ObjectView>::empty());
        }
        r
    }

    /// Puts `object` into the snapshot, under its own identifier, in place of
    /// what was there.
    pub fn insert(&mut self, object: Object)
        ensures
            final(self).objects() == old(self).objects().insert(object@.id().0, object@),
            final(self).failing() == old(self).failing(),
    {
        broadcast use vstd::std_specs::hash::group_hash_axioms;

        let key = object.id().0;
        self.objects.insert(key, object);
        proof {
            assert(self.objects() =~= old(self).objects().insert(object@.id().0, object@));
        }
    }

    /// Takes the object `id` out of the snapshot.
    pub fn remove(&mut self, id: &ObjectID)
        ensures
            final(self).objects() == old(self).objects().remove(id.0),
            final(self).failing() == old(self).failing(),
    {
        broadcast use vstd::std_specs::hash::group_hash_axioms;

        self.objects.remove(&id.0);
        proof {
            assert(self.objects() =~= old(self).objects().remove(id.0));
        }
    }

    /// Makes the snapshot fail to answer for `id`, or answer again.
    pub fn set_failing(&mut self, id: &ObjectID, failing: bool)
        ensures
            final(self).objects() == old(self).objects(),
            final(self).failing() == if failing {
                old(self).failing().insert(id.0)
            } else {
                old(self).failing().remove(id.0)
            },
    {
        broadcast use vstd::std_specs::hash::group_hash_axioms;

        if failing {
            self.failing.insert(id.0);
        } else {
            self.failing.remove(&id.0);
        }
    }
}

impl ObjectCacheRead for ObjectSnapshot {
    closed spec fn lookup(&self, id: ObjectID) -> ReadOutcome {
        if self.failing().contains(id.0) {
            ReadOutcome::Failed
        } else if self.objects().contains_key(id.0) && self.objects()[id.0].id() == id {
            ReadOutcome::Found(self.objects()[id.0])
        } else {
            ReadOutcome::Missing
        }
    }

    fn get_object(&self, id: &ObjectID) -> (r: SuiResult<Option<Object>>) {
        broadcast use vstd::std_specs::hash::group_hash_axioms;

        if self.failing.contains(&id.0) {
            return Err(SuiError::StorageError { error: "object store unavailable".to_string() });
        }
        match self.objects.get(&id.0) {
            Some(object) => {
                // an object is held under its own identifier
                if object.id() == *id {
                    Ok(Some(object.duplicate()))
                } else {
                    Ok(None)
                }
            },
            None => Ok(None),
        }
    }
}

impl ObjectSnapshot {
    /// What the snapshot answers for `id`: it fails where it was made to,
    /// and else gives the object it holds under `id`, which has that
    /// identifier.
    pub proof fn lemma_lookup(&self, id: ObjectID)
        ensures
            self.lookup(id) == if self.failing().contains(id.0) {
                ReadOutcome::Failed
            } else if self.objects().contains_key(id.0) && self.objects()[id.0].id() == id {
                ReadOutcome::Found(self.objects()[id.0])
            } else {
                ReadOutcome::Missing
            },
    {
    }
}

} // verus!
