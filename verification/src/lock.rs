//! The lock registry: at most one active lock record per lock id.

use vstd::prelude::*;

use crate::error::StoreError;

verus! {

/// One exclusive-access token together with its caller-supplied metadata.
/// A record is keyed by its own `id`; every other field is informational.
#[derive(Debug, PartialEq, Eq)]
pub struct LockRecord {
    pub id: String,
    pub who: String,
    pub created: String,
    pub operation: String,
    pub info: String,
    pub path: String,
    pub version: String,
}

impl Clone for LockRecord {
    fn clone(&self) -> (r: Self)
        ensures
            r == *self,
    {
        LockRecord {
            id: self.id.clone(),
            who: self.who.clone(),
            created: self.created.clone(),
            operation: self.operation.clone(),
            info: self.info.clone(),
            path: self.path.clone(),
            version: self.version.clone(),
        }
    }
}

/// The registry transition that one acquire call performs on the abstract
/// map: insert the record when its id is free, change nothing when the id is
/// already held.
pub open spec fn acquire_step(
    m: Map<Seq<char>, LockRecord>,
    rec: LockRecord,
) -> Map<Seq<char>, LockRecord> {
    if m.contains_key(rec.id@) {
        m
    } else {
        m.insert(rec.id@, rec)
    }
}

/// The keyed collection of currently held lock records, one per lock id.
///
/// Abstractly it is a map from the id (as a sequence of characters) to the
/// full record stored under that id.
pub struct LockRegistry {
    entries: Vec<LockRecord>,
}

impl View for LockRegistry {
    type V = Map<Seq<char>, LockRecord>;

    closed spec fn view(&self) -> Map<Seq<char>, LockRecord> {
        Map::new(
            |id: Seq<char>| self.has_id(id),
            |id: Seq<char>| self.entries@[self.index_of(id)],
        )
    }
}

impl LockRegistry {
    /// Some held record carries this id.
    spec fn has_id(&self, id: Seq<char>) -> bool {
        exists|i: int| 0 <= i < self.entries@.len() && self.entries@[i].id@ == id
    }

    /// The position of the record carrying this id; meaningful only under
    /// `wf`, which makes that position unique.
    spec fn index_of(&self, id: Seq<char>) -> int {
        choose|i: int| 0 <= i < self.entries@.len() && self.entries@[i].id@ == id
    }

    /// No two held records share an id.
    pub closed spec fn wf(&self) -> bool {
        forall|i: int, j: int|
            0 <= i < self.entries@.len() && 0 <= j < self.entries@.len() && i != j
                ==> self.entries@[i].id@ != self.entries@[j].id@
    }

    proof fn lemma_index_unique(self, i: int)
        requires
            self.wf(),
            0 <= i < self.entries@.len(),
        ensures
            self.has_id(self.entries@[i].id@),
            self.index_of(self.entries@[i].id@) == i,
    {
        let id = self.entries@[i].id@;
        assert(self.has_id(id));
        let j = self.index_of(id);
        assert(0 <= j < self.entries@.len() && self.entries@[j].id@ == id);
        if j != i {
            assert(self.entries@[i].id@ != self.entries@[j].id@);
        }
    }

    /// Each held record is what the abstract map stores under its id.
    proof fn lemma_view_at(self, i: int)
        requires
            self.wf(),
            0 <= i < self.entries@.len(),
        ensures
            self@.contains_key(self.entries@[i].id@),
            self@[self.entries@[i].id@] == self.entries@[i],
    {
        self.lemma_index_unique(i);
    }

    /// Appending a record whose id is free inserts it into the abstract map.
    proof fn lemma_push_fresh(pre: Self, post: Self, rec: LockRecord)
        requires
            pre.wf(),
            !pre.has_id(rec.id@),
            post.entries@ == pre.entries@.push(rec),
        ensures
            post.wf(),
            post@ == pre@.insert(rec.id@, rec),
    {
        let n = pre.entries@.len() as int;
        assert forall|i: int, j: int|
            0 <= i < post.entries@.len() && 0 <= j < post.entries@.len() && i != j
                implies post.entries@[i].id@ != post.entries@[j].id@ by {
            if i < n && j < n {
                assert(pre.entries@[i].id@ != pre.entries@[j].id@);
            } else if i == n {
                assert(pre.entries@[j].id@ != rec.id@);
            } else {
                assert(pre.entries@[i].id@ != rec.id@);
            }
        }
        let target = pre@.insert(rec.id@, rec);
        assert forall|k: Seq<char>| #[trigger] post@.contains_key(k)
            implies target.contains_key(k) && post@[k] == target[k] by {
            let i = post.index_of(k);
            assert(0 <= i < post.entries@.len() && post.entries@[i].id@ == k);
            post.lemma_view_at(i);
            if i == n {
                assert(k == rec.id@);
                assert(post.entries@[i] == rec);
            } else {
                assert(post.entries@[i] == pre.entries@[i]);
                assert(pre.entries@[i].id@ != rec.id@);
                pre.lemma_view_at(i);
            }
        }
        assert forall|k: Seq<char>| #[trigger] target.contains_key(k)
            implies post@.contains_key(k) by {
            if k == rec.id@ {
                assert(post.entries@[n].id@ == k);
            } else {
                let i = pre.index_of(k);
                assert(0 <= i < pre.entries@.len() && pre.entries@[i].id@ == k);
                assert(post.entries@[i].id@ == k);
            }
        }
        assert(post@ =~= target);
    }

    /// Removing the record at one position removes exactly its id from the
    /// abstract map.
    proof fn lemma_remove_at(pre: Self, post: Self, i: int)
        requires
            pre.wf(),
            0 <= i < pre.entries@.len(),
            post.entries@ == pre.entries@.remove(i),
        ensures
            post.wf(),
            post@ == pre@.remove(pre.entries@[i].id@),
    {
        let n = pre.entries@.len() as int;
        let id = pre.entries@[i].id@;
        // Each surviving position holds one of the old records, off by one
        // beyond the removed position.
        assert forall|j: int| 0 <= j < post.entries@.len()
            implies post.entries@[j] == (if j < i {
                pre.entries@[j]
            } else {
                pre.entries@[j + 1]
            }) by {
            pre.entries@.remove_ensures(i);
        }
        assert forall|j: int, k: int|
            0 <= j < post.entries@.len() && 0 <= k < post.entries@.len() && j != k
                implies post.entries@[j].id@ != post.entries@[k].id@ by {
            let j0 = if j < i { j } else { j + 1 };
            let k0 = if k < i { k } else { k + 1 };
            assert(pre.entries@[j0].id@ != pre.entries@[k0].id@);
        }
        let target = pre@.remove(id);
        assert forall|k: Seq<char>| #[trigger] post@.contains_key(k)
            implies target.contains_key(k) && post@[k] == target[k] by {
            let j = post.index_of(k);
            assert(0 <= j < post.entries@.len() && post.entries@[j].id@ == k);
            post.lemma_view_at(j);
            let j0 = if j < i { j } else { j + 1 };
            assert(post.entries@[j] == pre.entries@[j0]);
            pre.lemma_view_at(j0);
            assert(pre.entries@[j0].id@ != id);
        }
        assert forall|k: Seq<char>| #[trigger] target.contains_key(k)
            implies post@.contains_key(k) by {
            let j0 = pre.index_of(k);
            assert(0 <= j0 < pre.entries@.len() && pre.entries@[j0].id@ == k);
            if j0 == i {
                assert(k == id);
            } else {
                let j = if j0 < i { j0 } else { j0 - 1 };
                assert(post.entries@[j].id@ == k);
            }
        }
        assert(post@ =~= target);
    }

    /// A registry holding no locks at all.
    pub fn new() -> (r: Self)
        ensures
            r.wf(),
            r@ == Map::<Seq<char>, LockRecord>::empty(),
    {
        let r = LockRegistry { entries: Vec::new() };
        proof {
            assert(r@ =~= Map::<Seq<char>, LockRecord>::empty());
        }
        r
    }

    /// The position of the record carrying the given id, if one is held.
    fn find(&self, id: &String) -> (r: Option<usize>)
        ensures
            match r {
                Some(i) => i < self.entries@.len() && self.entries@[i as int].id@ == id@,
                None => !self.has_id(id@),
            },
    {
        let mut i: usize = 0;
        while i < self.entries.len()
            invariant
                i <= self.entries@.len(),
                forall|j: int| 0 <= j < i ==> self.entries@[j].id@ != id@,
            decreases self.entries@.len() - i,
        {
            if self.entries[i].id == *id {
                return Some(i);
            }
            i = i + 1;
        }
        None
    }

    /// Insert the record under its id, unless a record with that id is
    /// already held; a collision returns the held record unchanged, so the
    /// caller can see the current holder. Re-acquiring an id is a collision
    /// even when the payload is identical.
    pub fn acquire(&mut self, rec: LockRecord) -> (r: Result<(), LockRecord>)
        requires
            old(self).wf(),
            rec.id@.len() > 0,
        ensures
            final(self).wf(),
            final(self)@ == acquire_step(old(self)@, rec),
            r is Ok <==> !old(self)@.contains_key(rec.id@),
            old(self)@.contains_key(rec.id@) ==> r == Err::<(), LockRecord>(
                old(self)@[rec.id@],
            ) && final(self)@ == old(self)@,
            !old(self)@.contains_key(rec.id@) ==> final(self)@ == old(self)@.insert(
                rec.id@,
                rec,
            ),
    {
        match self.find(&rec.id) {
            Some(i) => {
                let held = self.entries[i].clone();
                proof {
                    self.lemma_view_at(i as int);
                }
                Err(held)
            },
            None => {
                let ghost pre = *self;
                self.entries.push(rec);
                proof {
                    Self::lemma_push_fresh(pre, *self, rec);
                }
                Ok(())
            },
        }
    }

    /// Remove the record held under the given id; report `NotFound`, and
    /// change nothing, when no such record is held.
    pub fn release(&mut self, id: &String) -> (r: Result<(), StoreError>)
        requires
            old(self).wf(),
        ensures
            final(self).wf(),
            r is Ok <==> old(self)@.contains_key(id@),
            old(self)@.contains_key(id@) ==> final(self)@ == old(self)@.remove(id@),
            !old(self)@.contains_key(id@) ==> r == Err::<(), StoreError>(
                StoreError::NotFound,
            ) && final(self)@ == old(self)@,
    {
        match self.find(id) {
            Some(i) => {
                let ghost pre = *self;
                proof {
                    pre.lemma_index_unique(i as int);
                }
                self.entries.remove(i);
                proof {
                    Self::lemma_remove_at(pre, *self, i as int);
                }
                Ok(())
            },
            None => Err(StoreError::NotFound),
        }
    }

    /// A non-mutating holder check: the record currently held under the
    /// given id, if any, as a copy.
    pub fn lookup(&self, id: &String) -> (r: Option<LockRecord>)
        requires
            self.wf(),
        ensures
            match r {
                Some(rec) => self@.contains_key(id@) && rec == self@[id@],
                None => !self@.contains_key(id@),
            },
    {
        match self.find(id) {
            Some(i) => {
                proof {
                    self.lemma_view_at(i as int);
                }
                Some(self.entries[i].clone())
            },
            None => None,
        }
    }
}

} // verus!
