//! The state store: the latest accepted serialized state blob per resource,
//! with writes gated on a currently held lock.

use vstd::prelude::*;

use crate::error::StoreError;
use crate::lock::LockRegistry;

verus! {

/// One serialized configuration snapshot. The store treats `outputs` and
/// `resources` as opaque serialized text and passes them through unmodified;
/// no field is interpreted, compared or merged on a write.
#[derive(Debug, PartialEq, Eq)]
pub struct StateBlob {
    pub lineage: String,
    pub outputs: String,
    pub resources: String,
    pub serial: u64,
    pub tool_version: String,
    pub version: u64,
}

impl Clone for StateBlob {
    fn clone(&self) -> (r: Self)
        ensures
            r == *self,
    {
        StateBlob {
            lineage: self.lineage.clone(),
            outputs: self.outputs.clone(),
            resources: self.resources.clone(),
            serial: self.serial,
            tool_version: self.tool_version.clone(),
            version: self.version,
        }
    }
}

/// One stored blob together with the resource name it is keyed by.
struct StateEntry {
    resource: String,
    blob: StateBlob,
}

/// The keyed collection of the latest accepted blob per resource.
///
/// Abstractly it is a map from the resource name (as a sequence of
/// characters) to the blob most recently written under that name.
pub struct StateStore {
    entries: Vec<StateEntry>,
}

impl View for StateStore {
    type V = Map<Seq<char>, StateBlob>;

    closed spec fn view(&self) -> Map<Seq<char>, StateBlob> {
        Map::new(
            |r: Seq<char>| self.has_resource(r),
            |r: Seq<char>| self.entries@[self.index_of(r)].blob,
        )
    }
}

impl StateStore {
    /// Some entry is keyed by this resource name.
    spec fn has_resource(&self, resource: Seq<char>) -> bool {
        exists|i: int| 0 <= i < self.entries@.len() && self.entries@[i].resource@ == resource
    }

    /// The position of the entry keyed by this resource name; meaningful
    /// only under `wf`, which makes that position unique.
    spec fn index_of(&self, resource: Seq<char>) -> int {
        choose|i: int| 0 <= i < self.entries@.len() && self.entries@[i].resource@ == resource
    }

    /// No two entries share a resource name.
    pub closed spec fn wf(&self) -> bool {
        forall|i: int, j: int|
            0 <= i < self.entries@.len() && 0 <= j < self.entries@.len() && i != j
                ==> self.entries@[i].resource@ != self.entries@[j].resource@
    }

    proof fn lemma_index_unique(self, i: int)
        requires
            self.wf(),
            0 <= i < self.entries@.len(),
        ensures
            self.has_resource(self.entries@[i].resource@),
            self.index_of(self.entries@[i].resource@) == i,
    {
        let r = self.entries@[i].resource@;
        assert(self.has_resource(r));
        let j = self.index_of(r);
        assert(0 <= j < self.entries@.len() && self.entries@[j].resource@ == r);
        if j != i {
            assert(self.entries@[i].resource@ != self.entries@[j].resource@);
        }
    }

    /// Each entry's blob is what the abstract map stores under its resource.
    proof fn lemma_view_at(self, i: int)
        requires
            self.wf(),
            0 <= i < self.entries@.len(),
        ensures
            self@.contains_key(self.entries@[i].resource@),
            self@[self.entries@[i].resource@] == self.entries@[i].blob,
    {
        self.lemma_index_unique(i);
    }

    /// Appending an entry under a free resource name inserts its blob into
    /// the abstract map.
    proof fn lemma_push_fresh(pre: Self, post: Self, entry: StateEntry)
        requires
            pre.wf(),
            !pre.has_resource(entry.resource@),
            post.entries@ == pre.entries@.push(entry),
        ensures
            post.wf(),
            post@ == pre@.insert(entry.resource@, entry.blob),
    {
        let n = pre.entries@.len() as int;
        assert forall|i: int, j: int|
            0 <= i < post.entries@.len() && 0 <= j < post.entries@.len() && i != j
                implies post.entries@[i].resource@ != post.entries@[j].resource@ by {
            if i < n && j < n {
                assert(pre.entries@[i].resource@ != pre.entries@[j].resource@);
            } else if i == n {
                assert(pre.entries@[j].resource@ != entry.resource@);
            } else {
                assert(pre.entries@[i].resource@ != entry.resource@);
            }
        }
        let target = pre@.insert(entry.resource@, entry.blob);
        assert forall|k: Seq<char>| #[trigger] post@.contains_key(k)
            implies target.contains_key(k) && post@[k] == target[k] by {
            let i = post.index_of(k);
            assert(0 <= i < post.entries@.len() && post.entries@[i].resource@ == k);
            post.lemma_view_at(i);
            if i == n {
                assert(post.entries@[i] == entry);
            } else {
                assert(post.entries@[i] == pre.entries@[i]);
                assert(pre.entries@[i].resource@ != entry.resource@);
                pre.lemma_view_at(i);
            }
        }
        assert forall|k: Seq<char>| #[trigger] target.contains_key(k)
            implies post@.contains_key(k) by {
            if k == entry.resource@ {
                assert(post.entries@[n].resource@ == k);
            } else {
                let i = pre.index_of(k);
                assert(0 <= i < pre.entries@.len() && pre.entries@[i].resource@ == k);
                assert(post.entries@[i].resource@ == k);
            }
        }
        assert(post@ =~= target);
    }

    /// Removing the entry at one position removes exactly its resource from
    /// the abstract map.
    proof fn lemma_remove_at(pre: Self, post: Self, i: int)
        requires
            pre.wf(),
            0 <= i < pre.entries@.len(),
            post.entries@ == pre.entries@.remove(i),
        ensures
            post.wf(),
            post@ == pre@.remove(pre.entries@[i].resource@),
    {
        let r = pre.entries@[i].resource@;
        assert forall|j: int| 0 <= j < post.entries@.len()
            implies post.entries@[j] == (if j < i {
                pre.entries@[j]
            } else {
                pre.entries@[j + 1]
            }) by {
            pre.entries@.remove_ensures(i);
        }
        assert forall|j: int, k: int|
            0 <= j < post.entries@.len() && 0 <= k < post.entries@.len() && j != k
                implies post.entries@[j].resource@ != post.entries@[k].resource@ by {
            let j0 = if j < i { j } else { j + 1 };
            let k0 = if k < i { k } else { k + 1 };
            assert(pre.entries@[j0].resource@ != pre.entries@[k0].resource@);
        }
        let target = pre@.remove(r);
        assert forall|k: Seq<char>| #[trigger] post@.contains_key(k)
            implies target.contains_key(k) && post@[k] == target[k] by {
            let j = post.index_of(k);
            assert(0 <= j < post.entries@.len() && post.entries@[j].resource@ == k);
            post.lemma_view_at(j);
            let j0 = if j < i { j } else { j + 1 };
            assert(post.entries@[j] == pre.entries@[j0]);
            pre.lemma_view_at(j0);
            assert(pre.entries@[j0].resource@ != r);
        }
        assert forall|k: Seq<char>| #[trigger] target.contains_key(k)
            implies post@.contains_key(k) by {
            let j0 = pre.index_of(k);
            assert(0 <= j0 < pre.entries@.len() && pre.entries@[j0].resource@ == k);
            if j0 == i {
                assert(k == r);
            } else {
                let j = if j0 < i { j0 } else { j0 - 1 };
                assert(post.entries@[j].resource@ == k);
            }
        }
        assert(post@ =~= target);
    }

    /// A store holding no blob for any resource.
    pub fn new() -> (r: Self)
        ensures
            r.wf(),
            r@ == Map::<Seq<char>, StateBlob>::empty(),
    {
        let r = StateStore { entries: Vec::new() };
        proof {
            assert(r@ =~= Map::<Seq<char>, StateBlob>::empty());
        }
        r
    }

    /// The position of the entry keyed by the given resource, if any.
    fn find(&self, resource: &String) -> (r: Option<usize>)
        ensures
            match r {
                Some(i) => i < self.entries@.len() && self.entries@[i as int].resource@
                    == resource@,
                None => !self.has_resource(resource@),
            },
    {
        let mut i: usize = 0;
        while i < self.entries.len()
            invariant
                i <= self.entries@.len(),
                forall|j: int| 0 <= j < i ==> self.entries@[j].resource@ != resource@,
            decreases self.entries@.len() - i,
        {
            if self.entries[i].resource == *resource {
                return Some(i);
            }
            i = i + 1;
        }
        None
    }

    /// A snapshot read: the blob currently stored for the resource, if any,
    /// as a copy. Never fails for concurrency reasons and never mutates.
    pub fn get(&self, resource: &String) -> (r: Option<StateBlob>)
        requires
            self.wf(),
        ensures
            match r {
                Some(blob) => self@.contains_key(resource@) && blob == self@[resource@],
                None => !self@.contains_key(resource@),
            },
    {
        match self.find(resource) {
            Some(i) => {
                proof {
                    self.lemma_view_at(i as int);
                }
                Some(self.entries[i].blob.clone())
            },
            None => None,
        }
    }

    /// Replace the resource's blob wholesale, provided some lock with the
    /// presented id is currently held in the registry.
    ///
    /// The check is by id alone: the authorizing lock's declared `path` is
    /// not compared with the resource being written. A write without a held
    /// lock is refused as `Unauthorized` and changes nothing; no `serial` or
    /// `lineage` comparison is performed on an accepted write.
    pub fn put(
        &mut self,
        locks: &LockRegistry,
        resource: &String,
        blob: StateBlob,
        lock_id: &String,
    ) -> (r: Result<(), StoreError>)
        requires
            old(self).wf(),
            locks.wf(),
        ensures
            final(self).wf(),
            r is Ok <==> locks@.contains_key(lock_id@),
            locks@.contains_key(lock_id@) ==> final(self)@ == old(self)@.insert(
                resource@,
                blob,
            ),
            !locks@.contains_key(lock_id@) ==> r == Err::<(), StoreError>(
                StoreError::Unauthorized,
            ) && final(self)@ == old(self)@,
    {
        match locks.lookup(lock_id) {
            Some(_) => {
                let ghost pre = *self;
                match self.find(resource) {
                    Some(i) => {
                        proof {
                            pre.lemma_index_unique(i as int);
                        }
                        self.entries.remove(i);
                        proof {
                            Self::lemma_remove_at(pre, *self, i as int);
                        }
                    },
                    None => {},
                }
                assert(!self.has_resource(resource@));
                let ghost mid = *self;
                let entry = StateEntry { resource: resource.clone(), blob };
                self.entries.push(entry);
                proof {
                    Self::lemma_push_fresh(mid, *self, entry);
                    assert(self@ =~= pre@.insert(resource@, entry.blob));
                }
                Ok(())
            },
            None => Err(StoreError::Unauthorized),
        }
    }
}

} // verus!
