use vstd::prelude::*;

use crate::class::Class;
use crate::error::EngineError;
use crate::store::{
    has_fact, has_task_in, has_user_in, lemma_has_fact_count, lemma_task_index_agrees,
    lemma_user_index_agrees, task_fact_count, task_in, user_fact_count, user_in, Completion,
    CompletionView, Store, StoreView,
};
use crate::task::clone_tags;
use crate::user::UserView;
use crate::task_store::{resolved_count, resolved_sum};
use crate::user_store::{
    add_tags, add_tags_next, calibrate_class, calibrate_due, calibrate_next, calibrated_class,
    lemma_add_tags_preserves_wf, lemma_calibrate_preserves_wf, lemma_union_tags_distinct,
    lemma_union_tags_set, set_class_next, spec_estimate_code, union_tags,
};

verus! {

// Completing a task is one logical transition with three effects: the
// completion fact is recorded, the task's tags are unioned into the user's,
// and calibration runs for the user. They are applied inside a single call
// on `&mut Store` — all or nothing, with no observable intermediate state.

pub open spec fn complete_outcome(s: StoreView, task_id: int, user_id: int) -> Result<
    (),
    EngineError,
> {
    if !has_user_in(s.users, user_id) {
        Err(EngineError::NotFound)
    } else if !has_task_in(s.tasks, task_id) {
        Err(EngineError::NotFound)
    } else if task_in(s.tasks, task_id).assigned_to != Some(user_id) {
        Err(EngineError::NotOwner)
    } else if has_fact(s.completed, task_id) {
        Err(EngineError::AlreadyCompleted)
    } else {
        Ok(())
    }
}

/// The store with the completion fact appended.
pub open spec fn facted(s: StoreView, task_id: int, user_id: int) -> StoreView {
    StoreView {
        completed: s.completed.push(CompletionView { user_id: user_id, task_id: task_id }),
        ..s
    }
}

pub open spec fn complete_next(s: StoreView, task_id: int, user_id: int) -> StoreView {
    if complete_outcome(s, task_id, user_id) is Ok {
        let tagged = add_tags_next(s, user_id, task_in(s.tasks, task_id).tags);
        calibrate_next(facted(tagged, task_id, user_id), user_id)
    } else {
        s
    }
}

/// The two non-calibration effects leave the store well formed: the new
/// fact is the first for its task, it names the task's owner, and the
/// user's tag set now covers the task's.
pub proof fn lemma_effects_preserve_wf(s: StoreView, task_id: int, user_id: int)
    requires
        s.wf(),
        complete_outcome(s, task_id, user_id) is Ok,
    ensures
        facted(add_tags_next(s, user_id, task_in(s.tasks, task_id).tags), task_id, user_id).wf(),
{
    let tags = task_in(s.tasks, task_id).tags;
    lemma_add_tags_preserves_wf(s, user_id, tags);
    let s1 = add_tags_next(s, user_id, tags);
    let s2 = facted(s1, task_id, user_id);
    let tk = s.task_index(task_id);
    assert(0 <= tk < s.tasks.len() && s.tasks[tk].id == task_id);
    let uk = s.user_index(user_id);
    assert(0 <= uk < s.users.len() && s.users[uk].id == user_id);
    let old_len = s.completed.len() as int;
    assert(s2.completed[old_len] == CompletionView { user_id: user_id, task_id: task_id });
    assert(forall|j: int| 0 <= j < old_len ==> s2.completed[j] == s.completed[j]);

    // no other fact names the completed task
    assert forall|i: int, j: int|
        0 <= i < s2.completed.len() && 0 <= j < s2.completed.len() && i
            != j implies #[trigger] s2.completed[i].task_id != #[trigger] s2.completed[j].task_id by {
        if i == old_len {
            if s2.completed[j].task_id == task_id {
                assert(has_fact(s.completed, task_id));
            }
        } else if j == old_len {
            if s2.completed[i].task_id == task_id {
                assert(has_fact(s.completed, task_id));
            }
        }
    }
    assert(s2.facts_unique());

    assert(s2.ids_bounded());

    // the new fact names the task's owner, and the user's tags now cover
    // the task's
    assert(s1.users[uk].id == user_id && s1.users[uk].tags == union_tags(s.users[uk].tags, tags));
    lemma_union_tags_set(s.users[uk].tags, tags);
    assert forall|i: int, j: int|
        0 <= i < s2.tasks.len() && 0 <= j < s2.completed.len()
            && #[trigger] s2.completed[j].task_id == #[trigger] s2.tasks[i].id
            && s2.tasks[i].assigned_to is Some implies s2.tasks[i].assigned_to == Some(
        s2.completed[j].user_id) by {
        if j == old_len {
            lemma_task_index_agrees(s, task_id, i);
        } else {
            assert(s.completed[j].task_id == s.tasks[i].id);
        }
    }
    assert(s2.owner_consistent());

    assert forall|i: int, j: int, k: int|
        #![trigger s2.completed[j].task_id, s2.tasks[i].id, s2.users[k].id]
        0 <= i < s2.tasks.len() && 0 <= j < s2.completed.len() && 0 <= k < s2.users.len()
            && s2.completed[j].task_id == s2.tasks[i].id && s2.completed[j].user_id
            == s2.users[k].id implies s2.tasks[i].tags.to_set().subset_of(
        s2.users[k].tags.to_set()) by {
        if j == old_len {
            lemma_task_index_agrees(s, task_id, i);
            lemma_user_index_agrees(s1, user_id, k);
            assert(s2.users[k].tags == union_tags(s.users[uk].tags, tags));
            assert(s2.tasks[i].tags == tags);
        } else {
            assert(s1.completed[j].task_id == s1.tasks[i].id);
            assert(s1.completed[j].user_id == s1.users[k].id);
        }
    }
    assert(s2.tags_cover_completions());
}

/// Finishes a task: the atomic multi-effect transition.
///
/// Preconditions, checked in the same call as the effects: the user and
/// task ids resolve (`NotFound`), the caller is the current owner
/// (`NotOwner`), and the task is not already finished
/// (`AlreadyCompleted`). The effects — inserting the `(user, task)`
/// completion fact, unioning the task's tags into the user's tag set, and
/// calibrating the user's tier — are applied together on one `&mut Store`:
/// a caller never observes a completion whose tags or calibration are
/// missing, nor awarded tags without the fact.
pub fn complete(store: &mut Store, task_id: i32, user_id: i32) -> (r: Result<(), EngineError>)
    requires
        old(store)@.wf(),
        2 * (old(store)@.completed.len() + 1) <= u64::MAX,
    ensures
        final(store)@.wf(),
        final(store)@ == complete_next(old(store)@, task_id as int, user_id as int),
        r == complete_outcome(old(store)@, task_id as int, user_id as int),
{
    let uk = match store.find_user(user_id) {
        Some(k) => k,
        None => {
            return Err(EngineError::NotFound);
        },
    };
    let ti = match store.find_task(task_id) {
        Some(i) => i,
        None => {
            return Err(EngineError::NotFound);
        },
    };
    let owned = match store.tasks[ti].assigned_to {
        Some(u) => u == user_id,
        None => false,
    };
    if !owned {
        return Err(EngineError::NotOwner);
    }
    if store.contains_fact(task_id) {
        return Err(EngineError::AlreadyCompleted);
    }
    proof {
        lemma_effects_preserve_wf(old(store)@, task_id as int, user_id as int);
    }
    let tags = clone_tags(&store.tasks[ti].tags);
    let _ = add_tags(store, user_id, &tags);
    store.completed.push(Completion { user_id: user_id, task_id: task_id });
    proof {
        assert(store@ =~= facted(
            add_tags_next(
                old(store)@,
                user_id as int,
                task_in(old(store)@.tasks, task_id as int).tags,
            ),
            task_id as int,
            user_id as int,
        ));
    }
    let _ = calibrate_class(store, user_id);
    proof {
        assert(store@ =~= complete_next(old(store)@, task_id as int, user_id as int));
    }
    Ok(())
}

/// The spine shared by the completion laws: how one successful completion
/// transforms each part of the store.
///
/// The tasks are untouched, exactly one fact — naming this user and task —
/// is appended, user ids keep their places, and the user's tags become the
/// union of their old tags with the task's. The class is the calibrated
/// one when the new completion count reaches the cadence, and unchanged
/// otherwise.
pub proof fn lemma_complete_next_parts(s: StoreView, task_id: int, user_id: int)
    requires
        s.wf(),
        complete_outcome(s, task_id, user_id) is Ok,
    ensures
        complete_next(s, task_id, user_id).wf(),
        complete_next(s, task_id, user_id).tasks == s.tasks,
        complete_next(s, task_id, user_id).completed == s.completed.push(
            CompletionView { user_id: user_id, task_id: task_id },
        ),
        complete_next(s, task_id, user_id).users.len() == s.users.len(),
        forall|j: int|
            0 <= j < s.users.len() ==> #[trigger] complete_next(s, task_id, user_id).users[j].id
                == s.users[j].id,
        has_user_in(complete_next(s, task_id, user_id).users, user_id),
        user_in(complete_next(s, task_id, user_id).users, user_id) == complete_next(
            s,
            task_id,
            user_id,
        ).users[s.user_index(user_id)],
        user_in(complete_next(s, task_id, user_id).users, user_id).tags == union_tags(
            user_in(s.users, user_id).tags,
            task_in(s.tasks, task_id).tags,
        ),
        ({
            let n = user_fact_count(s.completed, user_id) + 1;
            let s2 = facted(
                add_tags_next(s, user_id, task_in(s.tasks, task_id).tags),
                task_id,
                user_id,
            );
            &&& user_fact_count(s2.completed, user_id) == n
            &&& (n % 10 != 0 ==> user_in(complete_next(s, task_id, user_id).users, user_id).class
                == user_in(s.users, user_id).class)
            &&& (n % 10 == 0 ==> user_in(complete_next(s, task_id, user_id).users, user_id).class
                == calibrated_class(s2, user_id))
        }),
{
    let tags = task_in(s.tasks, task_id).tags;
    let fact = CompletionView { user_id: user_id, task_id: task_id };
    let s1 = add_tags_next(s, user_id, tags);
    let s2 = facted(s1, task_id, user_id);
    let s3 = calibrate_next(s2, user_id);
    lemma_add_tags_preserves_wf(s, user_id, tags);
    lemma_effects_preserve_wf(s, task_id, user_id);
    lemma_calibrate_preserves_wf(s2, user_id);
    let uk = s.user_index(user_id);
    assert(0 <= uk < s.users.len() && s.users[uk].id == user_id);
    assert(s1.users == s.users.update(uk, UserView { tags: union_tags(s.users[uk].tags, tags), ..s.users[uk] }));
    lemma_user_index_agrees(s1, user_id, uk);
    lemma_user_index_agrees(s2, user_id, uk);
    assert(user_in(s2.users, user_id).tags == union_tags(user_in(s.users, user_id).tags, tags));
    crate::store::lemma_user_fact_count_push(s1.completed, fact, user_id);
    let n = user_fact_count(s.completed, user_id) + 1;
    assert(user_fact_count(s2.completed, user_id) == n);
    if !calibrate_due(s2, user_id) {
        assert(s3 == s2);
        lemma_user_index_agrees(s3, user_id, uk);
    } else if calibrated_class(s2, user_id) == user_in(s2.users, user_id).class {
        assert(s3 == s2);
        lemma_user_index_agrees(s3, user_id, uk);
        assert(user_in(s3.users, user_id).class == calibrated_class(s2, user_id));
    } else {
        assert(s3 == set_class_next(s2, user_id, calibrated_class(s2, user_id)));
        assert(s3.users == s2.users.update(
            uk,
            UserView { class: calibrated_class(s2, user_id), ..s2.users[uk] },
        ));
        assert(s3.users[uk].id == user_id);
        lemma_user_index_agrees(s3, user_id, uk);
        assert(user_in(s3.users, user_id).class == calibrated_class(s2, user_id));
        assert(user_in(s3.users, user_id).tags == user_in(s2.users, user_id).tags);
    }
    assert(n > 0);
    assert(calibrate_due(s2, user_id) <==> n % 10 == 0);
}

/// Completion idempotence law: after a successful `complete(T, U)`, the
/// same call fails with `AlreadyCompleted` and changes nothing, and the
/// store holds exactly one completion fact for the task — the one naming
/// `U`.
pub proof fn lemma_completion_idempotent(s: StoreView, task_id: int, user_id: int)
    requires
        s.wf(),
        complete_outcome(s, task_id, user_id) is Ok,
    ensures
        (complete_outcome(complete_next(s, task_id, user_id), task_id, user_id) == Err::<
            (),
            EngineError,
        >(EngineError::AlreadyCompleted)),
        (complete_next(complete_next(s, task_id, user_id), task_id, user_id) == complete_next(
            s,
            task_id,
            user_id,
        )),
        task_fact_count(complete_next(s, task_id, user_id).completed, task_id) == 1,
        (forall|j: int|
            0 <= j < complete_next(s, task_id, user_id).completed.len() && #[trigger] complete_next(
                s,
                task_id,
                user_id,
            ).completed[j].task_id == task_id ==> complete_next(s, task_id, user_id).completed[j]
                == (CompletionView { user_id: user_id, task_id: task_id })),
{
    let fact = CompletionView { user_id: user_id, task_id: task_id };
    let s3 = complete_next(s, task_id, user_id);
    lemma_complete_next_parts(s, task_id, user_id);
    assert(has_fact(s3.completed, task_id)) by {
        assert(s3.completed[s.completed.len() as int] == fact);
    }
    assert(complete_outcome(s3, task_id, user_id) == Err::<(), EngineError>(
        EngineError::AlreadyCompleted,
    ));
    crate::store::lemma_task_fact_count_push(s.completed, fact, task_id);
    lemma_has_fact_count(s.completed, task_id);
    assert(task_fact_count(s3.completed, task_id) == 1);
    assert forall|j: int|
        0 <= j < s3.completed.len() && #[trigger] s3.completed[j].task_id
            == task_id implies s3.completed[j] == fact by {
        if j < s.completed.len() {
            assert(has_fact(s.completed, task_id));
        }
    }
}

/// Tag monotonicity law: a completion makes the user's tag set exactly the
/// union of what they had with the task's tags — never smaller — and the
/// tag list stays free of duplicates, however often completions overlap.
pub proof fn lemma_tag_monotonicity(s: StoreView, task_id: int, user_id: int)
    requires
        s.wf(),
        complete_outcome(s, task_id, user_id) is Ok,
    ensures
        (user_in(complete_next(s, task_id, user_id).users, user_id).tags.to_set()
            =~= user_in(s.users, user_id).tags.to_set().union(
            task_in(s.tasks, task_id).tags.to_set(),
        )),
        (user_in(s.users, user_id).tags.to_set().subset_of(
            user_in(complete_next(s, task_id, user_id).users, user_id).tags.to_set(),
        )),
        (task_in(s.tasks, task_id).tags.to_set().subset_of(
            user_in(complete_next(s, task_id, user_id).users, user_id).tags.to_set(),
        )),
        user_in(complete_next(s, task_id, user_id).users, user_id).tags.no_duplicates(),
{
    lemma_complete_next_parts(s, task_id, user_id);
    let old_tags = user_in(s.users, user_id).tags;
    let task_tags = task_in(s.tasks, task_id).tags;
    lemma_union_tags_set(old_tags, task_tags);
    let uk = s.user_index(user_id);
    assert(old_tags == s.users[uk].tags);
    assert(old_tags.no_duplicates());
    lemma_union_tags_distinct(old_tags, task_tags);
}

/// Calibration cadence law: a completion that does not bring the user's
/// count to a multiple of ten leaves their tier alone; one that does sets
/// the tier to the mean complexity over the whole history — this
/// completion included — rounded half away from zero and clamped.
pub proof fn lemma_calibration_cadence(s: StoreView, task_id: int, user_id: int)
    requires
        s.wf(),
        complete_outcome(s, task_id, user_id) is Ok,
    ensures
        ({
            let n = user_fact_count(s.completed, user_id) + 1;
            let after = s.completed.push(CompletionView { user_id: user_id, task_id: task_id });
            &&& (n % 10 != 0 ==> user_in(complete_next(s, task_id, user_id).users, user_id).class
                == user_in(s.users, user_id).class)
            &&& (n % 10 == 0 ==> user_in(complete_next(s, task_id, user_id).users, user_id).class
                == Class::spec_from_code(
                spec_estimate_code(
                    resolved_sum(s.tasks, after, user_id),
                    resolved_count(s.tasks, after, user_id) as int,
                ),
            ))
        }),
{
    lemma_complete_next_parts(s, task_id, user_id);
    let s2 = facted(add_tags_next(s, user_id, task_in(s.tasks, task_id).tags), task_id, user_id);
    assert(s2.tasks == s.tasks);
    assert(s2.completed == s.completed.push(
        CompletionView { user_id: user_id, task_id: task_id },
    ));
}

} // verus!
