//! The coordination guarantees of the backend, stated over the abstract maps
//! that the registry's and the store's contracts speak of.

use vstd::prelude::*;

use crate::lock::{acquire_step, LockRecord};
use crate::state::StateBlob;

verus! {

/// Before any write has been accepted, a read reports absence for every
/// resource: a store fresh from `StateStore::new` has an empty abstract map,
/// and `StateStore::get` returns `None` exactly for the keys that map lacks.
pub proof fn lemma_get_before_any_put(resource: Seq<char>)
    ensures
        !Map::<Seq<char>, StateBlob>::empty().contains_key(resource),
{
}

/// Acquiring a fresh id always succeeds and stores the record; a second
/// acquire presenting the same id always fails, and the conflict payload
/// that `LockRegistry::acquire` then returns is exactly the first call's
/// stored record, whatever the second call's own payload was.
pub proof fn lemma_second_acquire_conflicts(
    m: Map<Seq<char>, LockRecord>,
    first: LockRecord,
    second: LockRecord,
)
    requires
        !m.contains_key(first.id@),
        second.id@ == first.id@,
    ensures
        acquire_step(m, first) == m.insert(first.id@, first),
        acquire_step(m, first).contains_key(second.id@),
        acquire_step(m, first)[second.id@] == first,
{
}

/// Releasing an id right after acquiring it succeeds and returns the
/// registry to its earlier map, so releasing the same id a second time —
/// like releasing an id that was never acquired — finds nothing to remove
/// and fails with `NotFound` under `LockRegistry::release`'s contract.
pub proof fn lemma_release_after_acquire(m: Map<Seq<char>, LockRecord>, rec: LockRecord)
    requires
        !m.contains_key(rec.id@),
    ensures
        acquire_step(m, rec).contains_key(rec.id@),
        !acquire_step(m, rec).remove(rec.id@).contains_key(rec.id@),
        acquire_step(m, rec).remove(rec.id@) == m,
{
    assert(acquire_step(m, rec).remove(rec.id@) =~= m);
}

/// A write presenting a currently held lock id succeeds, and a read of that
/// resource afterwards returns exactly the written blob: `StateStore::put`
/// inserts the blob under the resource, and `StateStore::get` returns what
/// the map stores there.
pub proof fn lemma_put_then_get(
    states: Map<Seq<char>, StateBlob>,
    locks: Map<Seq<char>, LockRecord>,
    resource: Seq<char>,
    blob: StateBlob,
    lock_id: Seq<char>,
)
    requires
        locks.contains_key(lock_id),
    ensures
        states.insert(resource, blob).contains_key(resource),
        states.insert(resource, blob)[resource] == blob,
{
}

/// The abstract registry after a serialized run of acquire calls, each
/// applied with `acquire_step` in order.
pub open spec fn after_attempts(
    m: Map<Seq<char>, LockRecord>,
    attempts: Seq<LockRecord>,
) -> Map<Seq<char>, LockRecord>
    decreases attempts.len(),
{
    if attempts.len() == 0 {
        m
    } else {
        after_attempts(acquire_step(m, attempts[0]), attempts.drop_first())
    }
}

/// Running one more acquire after a serialized run is one more step on the
/// map the run produced.
proof fn lemma_after_attempts_push(
    m: Map<Seq<char>, LockRecord>,
    attempts: Seq<LockRecord>,
    rec: LockRecord,
)
    ensures
        after_attempts(m, attempts.push(rec)) == acquire_step(after_attempts(m, attempts), rec),
    decreases attempts.len(),
{
    let run = attempts.push(rec);
    if attempts.len() == 0 {
        assert(run[0] == rec);
        assert(run.drop_first() =~= Seq::<LockRecord>::empty());
        assert(after_attempts(m, run) == after_attempts(
            acquire_step(m, rec),
            Seq::<LockRecord>::empty(),
        ));
        assert(after_attempts(acquire_step(m, rec), Seq::<LockRecord>::empty()) == acquire_step(
            m,
            rec,
        ));
        assert(after_attempts(m, attempts) == m);
    } else {
        assert(run[0] == attempts[0]);
        assert(run.drop_first() =~= attempts.drop_first().push(rec));
        assert(after_attempts(m, run) == after_attempts(
            acquire_step(m, attempts[0]),
            attempts.drop_first().push(rec),
        ));
        lemma_after_attempts_push(acquire_step(m, attempts[0]), attempts.drop_first(), rec);
        assert(after_attempts(m, attempts) == after_attempts(
            acquire_step(m, attempts[0]),
            attempts.drop_first(),
        ));
    }
}

/// Contended acquires with one id: when any number of callers present the
/// same id in some serialized order against a registry that does not hold
/// it, the first call succeeds, and before every later call the registry
/// holds exactly the first caller's record under that id — so under
/// `LockRegistry::acquire`'s contract every later call fails, and all the
/// failing callers observe that same record.
pub proof fn lemma_contended_acquires(
    m: Map<Seq<char>, LockRecord>,
    attempts: Seq<LockRecord>,
    k: int,
)
    requires
        attempts.len() >= 1,
        !m.contains_key(attempts[0].id@),
        forall|i: int| 0 <= i < attempts.len() ==> #[trigger] attempts[i].id@ == attempts[0].id@,
        1 <= k <= attempts.len(),
    ensures
        after_attempts(m, attempts.take(k)).contains_key(attempts[0].id@),
        after_attempts(m, attempts.take(k))[attempts[0].id@] == attempts[0],
    decreases k,
{
    let id = attempts[0].id@;
    if k == 1 {
        let one = attempts.take(1);
        assert(one[0] == attempts[0]);
        assert(one.drop_first() =~= Seq::<LockRecord>::empty());
        assert(after_attempts(m, one) == after_attempts(
            acquire_step(m, attempts[0]),
            Seq::<LockRecord>::empty(),
        ));
        assert(after_attempts(acquire_step(m, attempts[0]), Seq::<LockRecord>::empty())
            == acquire_step(m, attempts[0]));
    } else {
        lemma_contended_acquires(m, attempts, k - 1);
        assert(attempts.take(k) =~= attempts.take(k - 1).push(attempts[k - 1]));
        lemma_after_attempts_push(m, attempts.take(k - 1), attempts[k - 1]);
        assert(attempts[k - 1].id@ == id);
    }
}

} // verus!
