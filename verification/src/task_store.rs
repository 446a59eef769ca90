use vstd::prelude::*;

use crate::class::Class;
use crate::error::EngineError;
use crate::store::{
    has_fact, has_task_in, task_in, task_index_in, lemma_task_index_agrees, CompletionView, Store,
    StoreView,
};
use crate::task::{clone_tags, Task, TaskCreateData, TaskCreateView, TaskView};

verus! {

// The available listing: tasks with no owner and no completion fact, in
// creation order.

pub open spec fn available_of(tasks: Seq<TaskView>, completed: Seq<CompletionView>) -> Seq<
    TaskView,
>
    decreases tasks.len(),
{
    if tasks.len() == 0 {
        Seq::empty()
    } else {
        let rest = available_of(tasks.drop_last(), completed);
        if tasks.last().assigned_to is None && !has_fact(completed, tasks.last().id) {
            rest.push(tasks.last())
        } else {
            rest
        }
    }
}

pub proof fn lemma_available_push(tasks: Seq<TaskView>, t: TaskView, completed: Seq<CompletionView>)
    ensures
        available_of(tasks.push(t), completed) == if t.assigned_to is None && !has_fact(
            completed,
            t.id,
        ) {
            available_of(tasks, completed).push(t)
        } else {
            available_of(tasks, completed)
        },
{
    assert(tasks.push(t).drop_last() =~= tasks);
}

// The in-progress listing: tasks owned by the user and not yet completed,
// in creation order.

pub open spec fn assigned_of(
    tasks: Seq<TaskView>,
    completed: Seq<CompletionView>,
    user_id: int,
) -> Seq<TaskView>
    decreases tasks.len(),
{
    if tasks.len() == 0 {
        Seq::empty()
    } else {
        let rest = assigned_of(tasks.drop_last(), completed, user_id);
        if tasks.last().assigned_to == Some(user_id) && !has_fact(completed, tasks.last().id) {
            rest.push(tasks.last())
        } else {
            rest
        }
    }
}

pub proof fn lemma_assigned_push(
    tasks: Seq<TaskView>,
    t: TaskView,
    completed: Seq<CompletionView>,
    user_id: int,
)
    ensures
        assigned_of(tasks.push(t), completed, user_id) == if t.assigned_to == Some(user_id)
            && !has_fact(completed, t.id) {
            assigned_of(tasks, completed, user_id).push(t)
        } else {
            assigned_of(tasks, completed, user_id)
        },
{
    assert(tasks.push(t).drop_last() =~= tasks);
}

/// Availability law: a task record appears in the available listing exactly
/// when the board holds it, it has no owner, and no completion fact
/// references it.
pub proof fn lemma_availability(
    tasks: Seq<TaskView>,
    completed: Seq<CompletionView>,
    t: TaskView,
)
    ensures
        available_of(tasks, completed).contains(t) <==> (tasks.contains(t) && t.assigned_to
            is None && !has_fact(completed, t.id)),
    decreases tasks.len(),
{
    broadcast use vstd::seq_lib::lemma_seq_contains_after_push;

    if tasks.len() == 0 {
        assert(!tasks.contains(t));
        assert(!available_of(tasks, completed).contains(t));
    } else {
        let front = tasks.drop_last();
        let last = tasks.last();
        lemma_availability(front, completed, t);
        assert(front.push(last) =~= tasks);
    }
}

/// The same law for the in-progress listing: a task record appears exactly
/// when the board holds it, the user owns it, and it is not completed.
pub proof fn lemma_assigned_membership(
    tasks: Seq<TaskView>,
    completed: Seq<CompletionView>,
    user_id: int,
    t: TaskView,
)
    ensures
        assigned_of(tasks, completed, user_id).contains(t) <==> (tasks.contains(t)
            && t.assigned_to == Some(user_id) && !has_fact(completed, t.id)),
    decreases tasks.len(),
{
    broadcast use vstd::seq_lib::lemma_seq_contains_after_push;

    if tasks.len() == 0 {
        assert(!tasks.contains(t));
        assert(!assigned_of(tasks, completed, user_id).contains(t));
    } else {
        let front = tasks.drop_last();
        let last = tasks.last();
        lemma_assigned_membership(front, completed, user_id, t);
        assert(front.push(last) =~= tasks);
    }
}

// Creation.

/// Creation succeeds while the id space is not exhausted.
pub open spec fn create_ok(s: StoreView) -> bool {
    s.next_task_id < i32::MAX as int
}

/// The record a creation request turns into: a fresh id, no owner.
pub open spec fn created_view(s: StoreView, d: TaskCreateView) -> TaskView {
    TaskView {
        id: s.next_task_id,
        complexity: d.complexity,
        description: d.description,
        expected_time: d.expected_time,
        tags: d.tags,
        assigned_to: None,
    }
}

pub open spec fn create_next(s: StoreView, d: TaskCreateView) -> StoreView {
    if create_ok(s) {
        StoreView { tasks: s.tasks.push(created_view(s, d)), next_task_id: s.next_task_id + 1, ..s }
    } else {
        s
    }
}

pub proof fn lemma_create_preserves_wf(s: StoreView, d: TaskCreateView)
    requires
        s.wf(),
    ensures
        create_next(s, d).wf(),
{
    if create_ok(s) {
        let s1 = create_next(s, d);
        let n = s.tasks.len() as int;
        assert(forall|i: int| 0 <= i < n ==> s1.tasks[i] == s.tasks[i]);
        assert(s1.tasks[n].id == s.next_task_id);
        assert(s1.task_ids_unique());
        assert(s1.owner_consistent());
        assert(s1.tags_cover_completions());
    }
}

/// Creates a task from the given data: the store assigns the next free id
/// and the task starts unowned. Fails with `StorageError` exactly when the
/// id space is exhausted.
pub fn create(store: &mut Store, data: &TaskCreateData) -> (r: Result<Task, EngineError>)
    requires
        old(store)@.wf(),
    ensures
        final(store)@.wf(),
        final(store)@ == create_next(old(store)@, data@),
        match r {
            Ok(t) => create_ok(old(store)@) && t@ == created_view(old(store)@, data@),
            Err(e) => !create_ok(old(store)@) && e == EngineError::StorageError,
        },
{
    proof {
        lemma_create_preserves_wf(old(store)@, data@);
    }
    if store.next_task_id == i32::MAX {
        return Err(EngineError::StorageError);
    }
    let t = Task {
        id: store.next_task_id,
        complexity: data.complexity,
        description: data.description.clone(),
        expected_time: data.expected_time,
        tags: clone_tags(&data.tags),
        assigned_to: None,
    };
    let ret = t.clone();
    proof {
        assert(t@ =~= created_view(store@, data@));
    }
    store.tasks.push(t);
    store.next_task_id = store.next_task_id + 1;
    proof {
        assert(store@ =~= create_next(old(store)@, data@));
    }
    Ok(ret)
}

// Deletion.

pub open spec fn delete_ok(s: StoreView, task_id: int) -> bool {
    has_task_in(s.tasks, task_id)
}

/// Deletion removes the task record; completion facts are never deleted.
pub open spec fn delete_next(s: StoreView, task_id: int) -> StoreView {
    if delete_ok(s, task_id) {
        StoreView { tasks: s.tasks.remove(task_index_in(s.tasks, task_id)), ..s }
    } else {
        s
    }
}

pub proof fn lemma_delete_preserves_wf(s: StoreView, task_id: int)
    requires
        s.wf(),
    ensures
        delete_next(s, task_id).wf(),
{
    if delete_ok(s, task_id) {
        let k = task_index_in(s.tasks, task_id);
        assert(0 <= k < s.tasks.len() && s.tasks[k].id == task_id);
        let s1 = delete_next(s, task_id);
        assert(forall|j: int|
            0 <= j < s1.tasks.len() ==> #[trigger] s1.tasks[j] == (if j < k {
                s.tasks[j]
            } else {
                s.tasks[j + 1]
            }));
        assert(s1.task_ids_unique());
        assert(s1.owner_consistent());
        assert(s1.tags_cover_completions());
    }
}

/// Removes a task from the board. The administrator-only policy is enforced
/// by the caller. Fails with `NotFound` exactly when no task has the id.
pub fn delete(store: &mut Store, task_id: i32) -> (r: Result<(), EngineError>)
    requires
        old(store)@.wf(),
    ensures
        final(store)@.wf(),
        final(store)@ == delete_next(old(store)@, task_id as int),
        match r {
            Ok(()) => delete_ok(old(store)@, task_id as int),
            Err(e) => !delete_ok(old(store)@, task_id as int) && e == EngineError::NotFound,
        },
{
    proof {
        lemma_delete_preserves_wf(old(store)@, task_id as int);
    }
    match store.find_task(task_id) {
        Some(i) => {
            let _ = store.tasks.remove(i);
            proof {
                assert(store@ =~= delete_next(old(store)@, task_id as int));
            }
            Ok(())
        },
        None => Err(EngineError::NotFound),
    }
}

// Listings.

/// Tasks open for claiming: no owner and no completion fact, in creation
/// order.
pub fn get_available(store: &Store) -> (r: Vec<Task>)
    ensures
        r.deep_view() == available_of(store@.tasks, store@.completed),
{
    let mut out: Vec<Task> = Vec::new();
    let n = store.tasks.len();
    let mut i: usize = 0;
    while i < n
        invariant
            n == store@.tasks.len(),
            i <= n,
            out.deep_view() == available_of(store@.tasks.take(i as int), store@.completed),
        decreases n - i,
    {
        proof {
            assert(store@.tasks.take(i + 1) =~= store@.tasks.take(i as int).push(
                store@.tasks[i as int]));
            lemma_available_push(
                store@.tasks.take(i as int),
                store@.tasks[i as int],
                store@.completed,
            );
        }
        if store.tasks[i].assigned_to.is_none() && !store.contains_fact(store.tasks[i].id) {
            let t = store.tasks[i].clone();
            out.push(t);
        }
        proof {
            assert(out.deep_view() =~= available_of(
                store@.tasks.take(i + 1),
                store@.completed,
            ));
        }
        i = i + 1;
    }
    proof {
        assert(store@.tasks.take(n as int) =~= store@.tasks);
    }
    out
}

/// Tasks the user currently has in progress: owned by them and not yet
/// completed, in creation order.
pub fn get_assigned(store: &Store, user_id: i32) -> (r: Vec<Task>)
    ensures
        r.deep_view() == assigned_of(store@.tasks, store@.completed, user_id as int),
{
    let mut out: Vec<Task> = Vec::new();
    let n = store.tasks.len();
    let mut i: usize = 0;
    while i < n
        invariant
            n == store@.tasks.len(),
            i <= n,
            out.deep_view() == assigned_of(
                store@.tasks.take(i as int),
                store@.completed,
                user_id as int,
            ),
        decreases n - i,
    {
        proof {
            assert(store@.tasks.take(i + 1) =~= store@.tasks.take(i as int).push(
                store@.tasks[i as int]));
            lemma_assigned_push(
                store@.tasks.take(i as int),
                store@.tasks[i as int],
                store@.completed,
                user_id as int,
            );
        }
        let owned = match store.tasks[i].assigned_to {
            Some(u) => u == user_id,
            None => false,
        };
        if owned && !store.contains_fact(store.tasks[i].id) {
            let t = store.tasks[i].clone();
            out.push(t);
        }
        proof {
            assert(out.deep_view() =~= assigned_of(
                store@.tasks.take(i + 1),
                store@.completed,
                user_id as int,
            ));
        }
        i = i + 1;
    }
    proof {
        assert(store@.tasks.take(n as int) =~= store@.tasks);
    }
    out
}

// Point lookups. Absence is reported as `NotFound`, never conflated with an
// empty or default value.

/// The tag list of a task.
pub fn get_tags(store: &Store, task_id: i32) -> (r: Result<Vec<String>, EngineError>)
    requires
        store@.wf(),
    ensures
        match r {
            Ok(tags) => store@.has_task(task_id as int) && tags.deep_view() == store@.task(
                task_id as int,
            ).tags,
            Err(e) => !store@.has_task(task_id as int) && e == EngineError::NotFound,
        },
{
    match store.find_task(task_id) {
        Some(i) => Ok(clone_tags(&store.tasks[i].tags)),
        None => Err(EngineError::NotFound),
    }
}

/// The owner of a task: `Ok(None)` means the task exists and is claimable,
/// while a missing task is `NotFound`.
pub fn assigned_to(store: &Store, task_id: i32) -> (r: Result<Option<i32>, EngineError>)
    requires
        store@.wf(),
    ensures
        match r {
            Ok(owner) => store@.has_task(task_id as int) && store@.task(task_id as int).assigned_to
                == match owner {
                Some(u) => Some(u as int),
                None => None::<int>,
            },
            Err(e) => !store@.has_task(task_id as int) && e == EngineError::NotFound,
        },
{
    match store.find_task(task_id) {
        Some(i) => Ok(store.tasks[i].assigned_to),
        None => Err(EngineError::NotFound),
    }
}

/// How many tasks the user has completed.
pub fn get_count(store: &Store, user_id: i32) -> (n: usize)
    ensures
        n == store@.completion_count(user_id as int),
{
    store.count_user_facts(user_id)
}

// Averages over the user's completion history. A completion fact whose task
// record was deleted carries no complexity or duration any more, so the
// averages run over the facts that still resolve to a task.

pub open spec fn resolved_count(
    tasks: Seq<TaskView>,
    completed: Seq<CompletionView>,
    user_id: int,
) -> nat
    decreases completed.len(),
{
    if completed.len() == 0 {
        0
    } else {
        resolved_count(tasks, completed.drop_last(), user_id) + (if completed.last().user_id
            == user_id && has_task_in(tasks, completed.last().task_id) {
            1nat
        } else {
            0nat
        })
    }
}

pub open spec fn resolved_sum(
    tasks: Seq<TaskView>,
    completed: Seq<CompletionView>,
    user_id: int,
) -> int
    decreases completed.len(),
{
    if completed.len() == 0 {
        0
    } else {
        resolved_sum(tasks, completed.drop_last(), user_id) + (if completed.last().user_id
            == user_id && has_task_in(tasks, completed.last().task_id) {
            task_in(tasks, completed.last().task_id).complexity.spec_code()
        } else {
            0
        })
    }
}

pub open spec fn resolved_time_sum(
    tasks: Seq<TaskView>,
    completed: Seq<CompletionView>,
    user_id: int,
) -> int
    decreases completed.len(),
{
    if completed.len() == 0 {
        0
    } else {
        resolved_time_sum(tasks, completed.drop_last(), user_id) + (if completed.last().user_id
            == user_id && has_task_in(tasks, completed.last().task_id) {
            task_in(tasks, completed.last().task_id).expected_time
        } else {
            0
        })
    }
}

/// The mean task complexity across the user's completion history, as the
/// exact pair (sum of complexity codes, number of completions counted).
/// `None` when no completion of the user resolves to a stored task.
pub fn get_avg_complexity(store: &Store, user_id: i32) -> (r: Option<(u64, u64)>)
    requires
        store@.wf(),
        2 * store@.completed.len() <= u64::MAX,
    ensures
        match r {
            Some(p) => p.1 > 0 && p.0 == resolved_sum(
                store@.tasks,
                store@.completed,
                user_id as int,
            ) && p.1 == resolved_count(store@.tasks, store@.completed, user_id as int),
            None => resolved_count(store@.tasks, store@.completed, user_id as int) == 0,
        },
{
    let len = store.completed.len();
    let mut sum: u64 = 0;
    let mut m: u64 = 0;
    let mut i: usize = 0;
    while i < len
        invariant
            store@.wf(),
            2 * store@.completed.len() <= u64::MAX,
            len == store@.completed.len(),
            i <= len,
            m == resolved_count(store@.tasks, store@.completed.take(i as int), user_id as int),
            sum == resolved_sum(store@.tasks, store@.completed.take(i as int), user_id as int),
            m <= i,
            sum <= 2 * m,
        decreases len - i,
    {
        proof {
            assert(store@.completed.take(i + 1) =~= store@.completed.take(i as int).push(
                store@.completed[i as int]));
            assert(store@.completed.take(i + 1).drop_last() =~= store@.completed.take(i as int));
        }
        if store.completed[i].user_id == user_id {
            match store.find_task(store.completed[i].task_id) {
                Some(ti) => {
                    let code = store.tasks[ti].complexity.code();
                    proof {
                        lemma_task_index_agrees(
                            store@,
                            store@.completed[i as int].task_id,
                            ti as int,
                        );
                    }
                    sum = sum + (code as u64);
                    m = m + 1;
                },
                None => {},
            }
        }
        i = i + 1;
    }
    proof {
        assert(store@.completed.take(len as int) =~= store@.completed);
    }
    if m == 0 {
        None
    } else {
        Some((sum, m))
    }
}

/// The mean expected duration across the user's completion history, as the
/// exact pair (sum of hours, number of completions counted). `None` when no
/// completion of the user resolves to a stored task.
pub fn get_avg_duration(store: &Store, user_id: i32) -> (r: Option<(u64, u64)>)
    requires
        store@.wf(),
        store@.completed.len() <= u32::MAX,
    ensures
        match r {
            Some(p) => p.1 > 0 && p.0 == resolved_time_sum(
                store@.tasks,
                store@.completed,
                user_id as int,
            ) && p.1 == resolved_count(store@.tasks, store@.completed, user_id as int),
            None => resolved_count(store@.tasks, store@.completed, user_id as int) == 0,
        },
{
    let len = store.completed.len();
    let mut sum: u64 = 0;
    let mut m: u64 = 0;
    let mut i: usize = 0;
    while i < len
        invariant
            store@.wf(),
            store@.completed.len() <= u32::MAX,
            len == store@.completed.len(),
            i <= len,
            m == resolved_count(store@.tasks, store@.completed.take(i as int), user_id as int),
            sum == resolved_time_sum(store@.tasks, store@.completed.take(i as int), user_id as int),
            m <= i,
            sum <= i * (u32::MAX as int),
        decreases len - i,
    {
        proof {
            assert(store@.completed.take(i + 1) =~= store@.completed.take(i as int).push(
                store@.completed[i as int]));
            assert(store@.completed.take(i + 1).drop_last() =~= store@.completed.take(i as int));
        }
        if store.completed[i].user_id == user_id {
            match store.find_task(store.completed[i].task_id) {
                Some(ti) => {
                    let hours = store.tasks[ti].expected_time;
                    proof {
                        lemma_task_index_agrees(
                            store@,
                            store@.completed[i as int].task_id,
                            ti as int,
                        );
                        assert((sum as int) + (hours as int) <= ((i as int) + 1) * (
                        u32::MAX as int) && (sum as int) + (hours as int) <= u64::MAX as int)
                            by (nonlinear_arith)
                            requires
                                (sum as int) <= (i as int) * (u32::MAX as int),
                                (hours as int) <= u32::MAX as int,
                                0 <= i as int,
                                (i as int) + 1 <= u32::MAX as int,
                        ;
                    }
                    sum = sum + (hours as u64);
                    m = m + 1;
                },
                None => {},
            }
        }
        i = i + 1;
    }
    proof {
        assert(store@.completed.take(len as int) =~= store@.completed);
    }
    if m == 0 {
        None
    } else {
        Some((sum, m))
    }
}

} // verus!
