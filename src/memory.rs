//! An object source held in memory.
use vstd::prelude::*;
use crate::error::{Error, ObjectKind};
use crate::find::Find;
use crate::loose::DecodedObject;
use crate::oid::ObjectId;

verus! {

/// One stored object.
#[derive(Debug, Clone)]
struct Stored {
    id: ObjectId,
    object: DecodedObject,
}

/// The position of the latest object stored under `id` among `s`.
spec fn latest(s: Seq<Stored>, id: Seq<u8>) -> Option<int>
    decreases s.len(),
{
    if s.len() == 0 {
        None
    } else if s.last().id@ == id {
        Some(s.len() - 1)
    } else {
        latest(s.drop_last(), id)
    }
}

proof fn lemma_latest_in_range(s: Seq<Stored>, id: Seq<u8>)
    ensures
        latest(s, id) matches Some(i) ==> 0 <= i < s.len(),
    decreases s.len(),
{
    if s.len() > 0 && s.last().id@ != id {
        lemma_latest_in_range(s.drop_last(), id);
    }
}

/// Objects held in memory; storing under an identifier again replaces the object.
pub struct MemoryStore {
    objects: Vec<Stored>,
}

impl MemoryStore {
    /// An empty store.
    pub fn new() -> (r: MemoryStore)
        ensures
            forall|id: Seq<u8>| r.object(id) is None,
    {
        MemoryStore { objects: Vec::new() }
    }

    /// Stores `data` as an object of kind `kind` under `id`.
    pub fn insert(&mut self, id: ObjectId, kind: ObjectKind, data: Vec<u8>)
        ensures
            final(self).object(id@) == Some((kind, data@)),
            forall|other: Seq<u8>| other != id@ ==> final(self).object(other) == old(self).object(other),
    {
        self.objects.push(Stored { id, object: DecodedObject { kind, data } });
        assert(self.objects@.drop_last() =~= old(self).objects@);
        assert forall|other: Seq<u8>| other != id@ implies self.object(other) == old(self).object(other) by {
            lemma_latest_in_range(old(self).objects@, other);
        }
    }
}

impl Find for MemoryStore {
    closed spec fn object(&self, id: Seq<u8>) -> Option<(ObjectKind, Seq<u8>)> {
        match latest(self.objects@, id) {
            None => None,
            Some(i) => Some(self.objects@[i].object@),
        }
    }

    closed spec fn reliable(&self) -> bool {
        true
    }

    fn find(&self, id: &ObjectId, kind: ObjectKind) -> (r: Result<DecodedObject, Error>) {
        let mut i: usize = self.objects.len();
        assert(self.objects@.subrange(0, i as int) =~= self.objects@);
        while i > 0
            invariant
                i <= self.objects@.len(),
                latest(self.objects@, id@) == latest(self.objects@.subrange(0, i as int), id@),
            decreases i,
        {
            let ghost s = self.objects@.subrange(0, i as int);
            assert(s.drop_last() =~= self.objects@.subrange(0, i - 1));
            if self.objects[i - 1].id.same_as(id) {
                let o = &self.objects[i - 1].object;
                if o.kind == kind {
                    return Ok(DecodedObject { kind: o.kind, data: o.data.clone() });
                }
                return Err(Error::WrongObjectKind { expected: kind, actual: o.kind });
            }
            i = i - 1;
        }
        Err(Error::NotFound)
    }
}

} // verus!
