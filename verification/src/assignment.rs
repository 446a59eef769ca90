use vstd::prelude::*;

use crate::error::EngineError;
use crate::store::{has_fact, lemma_task_index_agrees, Store, StoreView};
use crate::task::TaskView;

verus! {

// The per-task ownership state machine: Unclaimed -> Claimed(user) ->
// Unclaimed or Finished. Each exec operation below is one atomic
// transition: the precondition check and the mutation happen inside a
// single call on `&mut Store`, so no other caller can interleave between
// check and write.

pub open spec fn claim_outcome(s: StoreView, task_id: int, user_id: int) -> Result<
    (),
    EngineError,
> {
    if !s.has_task(task_id) {
        Err(EngineError::NotFound)
    } else if s.is_completed(task_id) {
        Err(EngineError::AlreadyCompleted)
    } else if s.task(task_id).assigned_to == Some(user_id) {
        Ok(())
    } else if s.task(task_id).assigned_to is Some {
        Err(EngineError::AlreadyOwnedByOther)
    } else {
        Ok(())
    }
}

pub open spec fn claim_next(s: StoreView, task_id: int, user_id: int) -> StoreView {
    if claim_outcome(s, task_id, user_id) is Ok && s.task(task_id).assigned_to is None {
        StoreView {
            tasks: s.tasks.update(
                s.task_index(task_id),
                TaskView { assigned_to: Some(user_id), ..s.task(task_id) },
            ),
            ..s
        }
    } else {
        s
    }
}

pub open spec fn release_outcome(s: StoreView, task_id: int, user_id: int) -> Result<
    (),
    EngineError,
> {
    if !s.has_task(task_id) {
        Err(EngineError::NotFound)
    } else if s.is_completed(task_id) {
        Err(EngineError::AlreadyCompleted)
    } else if s.task(task_id).assigned_to is None {
        Err(EngineError::NotClaimed)
    } else if s.task(task_id).assigned_to != Some(user_id) {
        Err(EngineError::NotOwner)
    } else {
        Ok(())
    }
}

pub open spec fn release_next(s: StoreView, task_id: int, user_id: int) -> StoreView {
    if release_outcome(s, task_id, user_id) is Ok {
        StoreView {
            tasks: s.tasks.update(
                s.task_index(task_id),
                TaskView { assigned_to: None, ..s.task(task_id) },
            ),
            ..s
        }
    } else {
        s
    }
}

pub proof fn lemma_claim_preserves_wf(s: StoreView, task_id: int, user_id: int)
    requires
        s.wf(),
    ensures
        claim_next(s, task_id, user_id).wf(),
{
    let s1 = claim_next(s, task_id, user_id);
    if claim_outcome(s, task_id, user_id) is Ok && s.task(task_id).assigned_to is None {
        let k = s.task_index(task_id);
        assert(0 <= k < s.tasks.len() && s.tasks[k].id == task_id);
        assert(forall|j: int|
            0 <= j < s1.tasks.len() ==> #[trigger] s1.tasks[j].id == s.tasks[j].id
                && s1.tasks[j].tags == s.tasks[j].tags);
        assert(s1.task_ids_unique());
        assert forall|i: int, j: int|
            0 <= i < s1.tasks.len() && 0 <= j < s1.completed.len()
                && #[trigger] s1.completed[j].task_id == #[trigger] s1.tasks[i].id
                && s1.tasks[i].assigned_to is Some implies s1.tasks[i].assigned_to == Some(
            s1.completed[j].user_id) by {
            if i == k {
                assert(has_fact(s.completed, task_id));
                assert(false);
            } else {
                assert(s.completed[j].task_id == s.tasks[i].id);
            }
        }
        assert(s1.owner_consistent());
        assert forall|i: int, j: int, kk: int|
            #![trigger s1.completed[j].task_id, s1.tasks[i].id, s1.users[kk].id]
            0 <= i < s1.tasks.len() && 0 <= j < s1.completed.len() && 0 <= kk < s1.users.len()
                && s1.completed[j].task_id == s1.tasks[i].id && s1.completed[j].user_id
                == s1.users[kk].id implies s1.tasks[i].tags.to_set().subset_of(
            s1.users[kk].tags.to_set()) by {
            if i == k {
                assert(has_fact(s.completed, task_id));
                assert(false);
            } else {
                assert(s.completed[j].task_id == s.tasks[i].id);
                assert(s.completed[j].user_id == s.users[kk].id);
            }
        }
        assert(s1.tags_cover_completions());
    }
}

pub proof fn lemma_release_preserves_wf(s: StoreView, task_id: int, user_id: int)
    requires
        s.wf(),
    ensures
        release_next(s, task_id, user_id).wf(),
{
    let s1 = release_next(s, task_id, user_id);
    if release_outcome(s, task_id, user_id) is Ok {
        let k = s.task_index(task_id);
        assert(0 <= k < s.tasks.len() && s.tasks[k].id == task_id);
        assert(forall|j: int|
            0 <= j < s1.tasks.len() ==> #[trigger] s1.tasks[j].id == s.tasks[j].id
                && s1.tasks[j].tags == s.tasks[j].tags);
        assert(s1.task_ids_unique());
        assert forall|i: int, j: int|
            0 <= i < s1.tasks.len() && 0 <= j < s1.completed.len()
                && #[trigger] s1.completed[j].task_id == #[trigger] s1.tasks[i].id
                && s1.tasks[i].assigned_to is Some implies s1.tasks[i].assigned_to == Some(
            s1.completed[j].user_id) by {
            assert(i != k);
            assert(s.completed[j].task_id == s.tasks[i].id);
        }
        assert(s1.owner_consistent());
        assert forall|i: int, j: int, kk: int|
            #![trigger s1.completed[j].task_id, s1.tasks[i].id, s1.users[kk].id]
            0 <= i < s1.tasks.len() && 0 <= j < s1.completed.len() && 0 <= kk < s1.users.len()
                && s1.completed[j].task_id == s1.tasks[i].id && s1.completed[j].user_id
                == s1.users[kk].id implies s1.tasks[i].tags.to_set().subset_of(
            s1.users[kk].tags.to_set()) by {
            if i == k {
                assert(has_fact(s.completed, task_id));
                assert(false);
            } else {
                assert(s.completed[j].task_id == s.tasks[i].id);
                assert(s.completed[j].user_id == s.users[kk].id);
            }
        }
        assert(s1.tags_cover_completions());
    }
}

/// Claims a task: one atomic conditional transition from `Unclaimed` to
/// `Claimed(user_id)` — the owner is set only if the task currently has
/// none, within the same call that checks it.
///
/// Re-claiming by the current owner is a no-op success. A task held by
/// someone else fails with `AlreadyOwnedByOther`, a finished task with
/// `AlreadyCompleted`, an unknown id with `NotFound`.
pub fn claim(store: &mut Store, task_id: i32, user_id: i32) -> (r: Result<(), EngineError>)
    requires
        old(store)@.wf(),
    ensures
        final(store)@.wf(),
        final(store)@ == claim_next(old(store)@, task_id as int, user_id as int),
        r == claim_outcome(old(store)@, task_id as int, user_id as int),
{
    proof {
        lemma_claim_preserves_wf(old(store)@, task_id as int, user_id as int);
    }
    let i = match store.find_task(task_id) {
        Some(i) => i,
        None => {
            return Err(EngineError::NotFound);
        },
    };
    if store.contains_fact(task_id) {
        return Err(EngineError::AlreadyCompleted);
    }
    match store.tasks[i].assigned_to {
        Some(owner) => {
            if owner == user_id {
                Ok(())
            } else {
                Err(EngineError::AlreadyOwnedByOther)
            }
        },
        None => {
            store.tasks[i].assigned_to = Some(user_id);
            proof {
                assert(store@ =~= claim_next(old(store)@, task_id as int, user_id as int));
            }
            Ok(())
        },
    }
}

/// Releases a task: the atomic transition from `Claimed(user_id)` back to
/// `Unclaimed`, applied only if the caller is the current owner, within the
/// same call that checks it.
///
/// A task owned by someone else fails with `NotOwner`, an unowned one with
/// `NotClaimed`, a finished one with `AlreadyCompleted`, an unknown id with
/// `NotFound`.
pub fn release(store: &mut Store, task_id: i32, user_id: i32) -> (r: Result<(), EngineError>)
    requires
        old(store)@.wf(),
    ensures
        final(store)@.wf(),
        final(store)@ == release_next(old(store)@, task_id as int, user_id as int),
        r == release_outcome(old(store)@, task_id as int, user_id as int),
{
    proof {
        lemma_release_preserves_wf(old(store)@, task_id as int, user_id as int);
    }
    let i = match store.find_task(task_id) {
        Some(i) => i,
        None => {
            return Err(EngineError::NotFound);
        },
    };
    if store.contains_fact(task_id) {
        return Err(EngineError::AlreadyCompleted);
    }
    match store.tasks[i].assigned_to {
        Some(owner) => {
            if owner == user_id {
                store.tasks[i].assigned_to = None;
                proof {
                    assert(store@ =~= release_next(old(store)@, task_id as int, user_id as int));
                }
                Ok(())
            } else {
                Err(EngineError::NotOwner)
            }
        },
        None => Err(EngineError::NotClaimed),
    }
}

/// Exclusive-claim law: racing claims on one unowned task, serialized in
/// any order, let exactly the first one through.
///
/// On a store holding an unfinished, unowned task, a claim by `winner`
/// succeeds; after it, a claim by any other user fails with
/// `AlreadyOwnedByOther` and leaves the store exactly as it was, so no
/// window exists in which two claims both appear to succeed.
pub proof fn lemma_exclusive_claim(s: StoreView, task_id: int, winner: int, other: int)
    requires
        s.wf(),
        s.has_task(task_id),
        !s.is_completed(task_id),
        s.task(task_id).assigned_to is None,
        other != winner,
    ensures
        claim_outcome(s, task_id, winner) == Ok::<(), EngineError>(()),
        claim_outcome(claim_next(s, task_id, winner), task_id, other) == Err::<(), EngineError>(
            EngineError::AlreadyOwnedByOther,
        ),
        claim_next(claim_next(s, task_id, winner), task_id, other) == claim_next(
            s,
            task_id,
            winner,
        ),
{
    lemma_claim_preserves_wf(s, task_id, winner);
    let s1 = claim_next(s, task_id, winner);
    let k = s.task_index(task_id);
    assert(0 <= k < s.tasks.len() && s.tasks[k].id == task_id);
    assert(s1.tasks[k].id == task_id);
    lemma_task_index_agrees(s1, task_id, k);
    assert(s1.task(task_id).assigned_to == Some(winner));
    assert(s1.completed == s.completed);
}

} // verus!
