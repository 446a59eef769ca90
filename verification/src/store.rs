use vstd::prelude::*;

use crate::task::{Task, TaskView};
use crate::user::{User, UserView};

verus! {

/// One append-only completion fact: the user finished the task.
///
/// Inserted exactly once at completion time, never updated or deleted. Its
/// existence is the sole "finished" signal for a task, independent of the
/// task's `assigned_to` field.
#[derive(Clone, Copy, Debug, PartialEq, Eq, Structural)]
pub struct Completion {
    pub user_id: i32,
    pub task_id: i32,
}

/// The mathematical image of a completion fact.
#[verifier::ext_equal]
pub ghost struct CompletionView {
    pub user_id: int,
    pub task_id: int,
}

impl View for Completion {
    type V = CompletionView;

    open spec fn view(&self) -> CompletionView {
        CompletionView { user_id: self.user_id as int, task_id: self.task_id as int }
    }
}

impl DeepView for Completion {
    type V = CompletionView;

    open spec fn deep_view(&self) -> CompletionView {
        self.view()
    }
}

/// The board's persistent state: task and user records, the append-only
/// completion facts, and the counters fresh identifiers are drawn from.
///
/// The surrounding service constructs one `Store` at startup and passes it
/// by reference to every operation; there is no hidden global state. Each
/// operation on a `&mut Store` is one atomic transition: its precondition
/// check and its mutation cannot be interleaved with another transition.
pub struct Store {
    /// Tasks in creation order.
    pub tasks: Vec<Task>,
    /// Users in creation order.
    pub users: Vec<User>,
    pub completed: Vec<Completion>,
    pub next_task_id: i32,
    pub next_user_id: i32,
}

/// The mathematical image of the store.
#[verifier::ext_equal]
pub ghost struct StoreView {
    pub tasks: Seq<TaskView>,
    pub users: Seq<UserView>,
    pub completed: Seq<CompletionView>,
    pub next_task_id: int,
    pub next_user_id: int,
}

impl View for Store {
    type V = StoreView;

    open spec fn view(&self) -> StoreView {
        StoreView {
            tasks: self.tasks.deep_view(),
            users: self.users.deep_view(),
            completed: self.completed.deep_view(),
            next_task_id: self.next_task_id as int,
            next_user_id: self.next_user_id as int,
        }
    }
}

// Lookups over the record sequences.

pub open spec fn has_task_in(tasks: Seq<TaskView>, id: int) -> bool {
    exists|i: int| 0 <= i < tasks.len() && tasks[i].id == id
}

pub open spec fn task_index_in(tasks: Seq<TaskView>, id: int) -> int {
    choose|i: int| 0 <= i < tasks.len() && tasks[i].id == id
}

pub open spec fn task_in(tasks: Seq<TaskView>, id: int) -> TaskView {
    tasks[task_index_in(tasks, id)]
}

pub open spec fn has_user_in(users: Seq<UserView>, id: int) -> bool {
    exists|i: int| 0 <= i < users.len() && users[i].id == id
}

pub open spec fn user_index_in(users: Seq<UserView>, id: int) -> int {
    choose|i: int| 0 <= i < users.len() && users[i].id == id
}

pub open spec fn user_in(users: Seq<UserView>, id: int) -> UserView {
    users[user_index_in(users, id)]
}

pub open spec fn has_login_in(users: Seq<UserView>, login: Seq<char>) -> bool {
    exists|i: int| 0 <= i < users.len() && users[i].login == login
}

pub open spec fn login_index_in(users: Seq<UserView>, login: Seq<char>) -> int {
    choose|i: int| 0 <= i < users.len() && users[i].login == login
}

/// Whether some completion fact references the task.
pub open spec fn has_fact(completed: Seq<CompletionView>, task_id: int) -> bool {
    exists|i: int| 0 <= i < completed.len() && completed[i].task_id == task_id
}

/// How many completion facts a user holds.
pub open spec fn user_fact_count(completed: Seq<CompletionView>, user_id: int) -> nat
    decreases completed.len(),
{
    if completed.len() == 0 {
        0
    } else {
        user_fact_count(completed.drop_last(), user_id) + (if completed.last().user_id
            == user_id {
            1nat
        } else {
            0nat
        })
    }
}

/// How many completion facts reference a task.
pub open spec fn task_fact_count(completed: Seq<CompletionView>, task_id: int) -> nat
    decreases completed.len(),
{
    if completed.len() == 0 {
        0
    } else {
        task_fact_count(completed.drop_last(), task_id) + (if completed.last().task_id
            == task_id {
            1nat
        } else {
            0nat
        })
    }
}

pub proof fn lemma_user_fact_count_push(completed: Seq<CompletionView>, c: CompletionView, user_id: int)
    ensures
        user_fact_count(completed.push(c), user_id) == user_fact_count(completed, user_id) + (
        if c.user_id == user_id {
            1nat
        } else {
            0nat
        }),
{
    assert(completed.push(c).drop_last() =~= completed);
}

pub proof fn lemma_task_fact_count_push(completed: Seq<CompletionView>, c: CompletionView, task_id: int)
    ensures
        task_fact_count(completed.push(c), task_id) == task_fact_count(completed, task_id) + (
        if c.task_id == task_id {
            1nat
        } else {
            0nat
        }),
{
    assert(completed.push(c).drop_last() =~= completed);
}

/// A fact exists for a task exactly when some fact counts toward it.
pub proof fn lemma_has_fact_count(completed: Seq<CompletionView>, task_id: int)
    ensures
        has_fact(completed, task_id) <==> task_fact_count(completed, task_id) > 0,
    decreases completed.len(),
{
    if completed.len() > 0 {
        lemma_has_fact_count(completed.drop_last(), task_id);
        if has_fact(completed, task_id) && completed.last().task_id != task_id {
            let i = choose|i: int|
                0 <= i < completed.len() && completed[i].task_id == task_id;
            assert(completed.drop_last()[i] == completed[i]);
        }
        if has_fact(completed.drop_last(), task_id) {
            let i = choose|i: int|
                0 <= i < completed.drop_last().len() && completed.drop_last()[i].task_id
                    == task_id;
            assert(completed[i] == completed.drop_last()[i]);
        }
    }
}

impl StoreView {
    pub open spec fn has_task(self, id: int) -> bool {
        has_task_in(self.tasks, id)
    }

    pub open spec fn task_index(self, id: int) -> int {
        task_index_in(self.tasks, id)
    }

    /// The task record behind an id; meaningful only when `has_task`.
    pub open spec fn task(self, id: int) -> TaskView {
        task_in(self.tasks, id)
    }

    pub open spec fn has_user(self, id: int) -> bool {
        has_user_in(self.users, id)
    }

    pub open spec fn user_index(self, id: int) -> int {
        user_index_in(self.users, id)
    }

    /// The user record behind an id; meaningful only when `has_user`.
    pub open spec fn user(self, id: int) -> UserView {
        user_in(self.users, id)
    }

    /// Whether a completion fact marks the task as finished.
    pub open spec fn is_completed(self, task_id: int) -> bool {
        has_fact(self.completed, task_id)
    }

    /// How many tasks the user has completed.
    pub open spec fn completion_count(self, user_id: int) -> nat {
        user_fact_count(self.completed, user_id)
    }

    // Well-formedness: the invariants every reachable store satisfies.

    pub open spec fn task_ids_unique(self) -> bool {
        forall|i: int, j: int|
            0 <= i < self.tasks.len() && 0 <= j < self.tasks.len() && i != j
                ==> #[trigger] self.tasks[i].id != #[trigger] self.tasks[j].id
    }

    pub open spec fn user_ids_unique(self) -> bool {
        forall|i: int, j: int|
            0 <= i < self.users.len() && 0 <= j < self.users.len() && i != j
                ==> #[trigger] self.users[i].id != #[trigger] self.users[j].id
    }

    pub open spec fn logins_unique(self) -> bool {
        forall|i: int, j: int|
            0 <= i < self.users.len() && 0 <= j < self.users.len() && i != j
                ==> #[trigger] self.users[i].login != #[trigger] self.users[j].login
    }

    /// A task is completed at most once: no two facts name one task.
    pub open spec fn facts_unique(self) -> bool {
        forall|i: int, j: int|
            0 <= i < self.completed.len() && 0 <= j < self.completed.len() && i != j
                ==> #[trigger] self.completed[i].task_id != #[trigger] self.completed[j].task_id
    }

    /// Every stored id lies below the matching counter, so freshly drawn
    /// ids collide with nothing — not even with facts whose task record was
    /// deleted.
    pub open spec fn ids_bounded(self) -> bool {
        &&& 0 <= self.next_task_id
        &&& 0 <= self.next_user_id
        &&& forall|i: int|
            0 <= i < self.tasks.len() ==> 0 <= #[trigger] self.tasks[i].id < self.next_task_id
        &&& forall|i: int|
            0 <= i < self.users.len() ==> 0 <= #[trigger] self.users[i].id < self.next_user_id
        &&& forall|i: int|
            0 <= i < self.completed.len() ==> 0 <= #[trigger] self.completed[i].task_id
                < self.next_task_id
        &&& forall|i: int|
            0 <= i < self.completed.len() ==> 0 <= #[trigger] self.completed[i].user_id
                < self.next_user_id
    }

    /// A task with an owner has no completion fact by anyone else: until it
    /// is finished it has none at all, and once finished the fact names
    /// exactly the owner.
    pub open spec fn owner_consistent(self) -> bool {
        forall|i: int, j: int|
            0 <= i < self.tasks.len() && 0 <= j < self.completed.len()
                && #[trigger] self.completed[j].task_id == #[trigger] self.tasks[i].id
                && self.tasks[i].assigned_to is Some ==> self.tasks[i].assigned_to == Some(
                self.completed[j].user_id)
    }

    /// A user's tag set covers the tags of every task they completed.
    pub open spec fn tags_cover_completions(self) -> bool {
        forall|i: int, j: int, k: int|
            #![trigger self.completed[j].task_id, self.tasks[i].id, self.users[k].id]
            0 <= i < self.tasks.len() && 0 <= j < self.completed.len() && 0 <= k
                < self.users.len() && self.completed[j].task_id == self.tasks[i].id
                && self.completed[j].user_id == self.users[k].id
                ==> self.tasks[i].tags.to_set().subset_of(self.users[k].tags.to_set())
    }

    /// A user's tag list never holds a duplicate.
    pub open spec fn user_tags_distinct(self) -> bool {
        forall|k: int|
            0 <= k < self.users.len() ==> (#[trigger] self.users[k].tags).no_duplicates()
    }

    pub open spec fn wf(self) -> bool {
        &&& self.task_ids_unique()
        &&& self.user_ids_unique()
        &&& self.logins_unique()
        &&& self.facts_unique()
        &&& self.ids_bounded()
        &&& self.owner_consistent()
        &&& self.tags_cover_completions()
        &&& self.user_tags_distinct()
    }
}

/// When task ids are unique, any index holding the id is the chosen one.
pub proof fn lemma_task_index_agrees(s: StoreView, id: int, i: int)
    requires
        s.task_ids_unique(),
        0 <= i < s.tasks.len(),
        s.tasks[i].id == id,
    ensures
        s.has_task(id),
        s.task_index(id) == i,
        s.task(id) == s.tasks[i],
{
    assert(s.has_task(id));
    let k = s.task_index(id);
    assert(0 <= k < s.tasks.len() && s.tasks[k].id == id);
}

/// When user ids are unique, any index holding the id is the chosen one.
pub proof fn lemma_user_index_agrees(s: StoreView, id: int, i: int)
    requires
        s.user_ids_unique(),
        0 <= i < s.users.len(),
        s.users[i].id == id,
    ensures
        s.has_user(id),
        s.user_index(id) == i,
        s.user(id) == s.users[i],
{
    assert(s.has_user(id));
    let k = s.user_index(id);
    assert(0 <= k < s.users.len() && s.users[k].id == id);
}

impl Store {
    /// An empty board; identifiers start at 1, as the store's sequences do.
    pub fn new() -> (s: Store)
        ensures
            s@.wf(),
            s@.tasks == Seq::<TaskView>::empty(),
            s@.users == Seq::<UserView>::empty(),
            s@.completed == Seq::<CompletionView>::empty(),
            s@.next_task_id == 1,
            s@.next_user_id == 1,
    {
        let s = Store {
            tasks: Vec::new(),
            users: Vec::new(),
            completed: Vec::new(),
            next_task_id: 1,
            next_user_id: 1,
        };
        proof {
            assert(s@.tasks =~= Seq::<TaskView>::empty());
            assert(s@.users =~= Seq::<UserView>::empty());
            assert(s@.completed =~= Seq::<CompletionView>::empty());
        }
        s
    }

    /// Index of the task with the given id, if any.
    pub(crate) fn find_task(&self, id: i32) -> (r: Option<usize>)
        ensures
            r is Some <==> self@.has_task(id as int),
            match r {
                Some(i) => {
                    &&& (i as int) < self@.tasks.len()
                    &&& self@.tasks[i as int].id == id as int
                    &&& (self@.task_ids_unique() ==> i as int == self@.task_index(id as int))
                },
                None => true,
            },
    {
        let n = self.tasks.len();
        let mut i: usize = 0;
        while i < n
            invariant
                n == self@.tasks.len(),
                i <= n,
                forall|j: int| 0 <= j < i ==> #[trigger] self@.tasks[j].id != id as int,
            decreases n - i,
        {
            if self.tasks[i].id == id {
                proof {
                    if self@.task_ids_unique() {
                        lemma_task_index_agrees(self@, id as int, i as int);
                    }
                }
                return Some(i);
            }
            i = i + 1;
        }
        return None;
    }

    /// Index of the user with the given id, if any.
    pub(crate) fn find_user(&self, id: i32) -> (r: Option<usize>)
        ensures
            r is Some <==> self@.has_user(id as int),
            match r {
                Some(i) => {
                    &&& (i as int) < self@.users.len()
                    &&& self@.users[i as int].id == id as int
                    &&& (self@.user_ids_unique() ==> i as int == self@.user_index(id as int))
                },
                None => true,
            },
    {
        let n = self.users.len();
        let mut i: usize = 0;
        while i < n
            invariant
                n == self@.users.len(),
                i <= n,
                forall|j: int| 0 <= j < i ==> #[trigger] self@.users[j].id != id as int,
            decreases n - i,
        {
            if self.users[i].id == id {
                proof {
                    if self@.user_ids_unique() {
                        lemma_user_index_agrees(self@, id as int, i as int);
                    }
                }
                return Some(i);
            }
            i = i + 1;
        }
        return None;
    }

    /// Index of the user with the given login, if any.
    pub(crate) fn find_user_by_login(&self, login: &String) -> (r: Option<usize>)
        ensures
            r is Some <==> has_login_in(self@.users, login@),
            match r {
                Some(i) => (i as int) < self@.users.len() && self@.users[i as int].login
                    == login@,
                None => true,
            },
    {
        let n = self.users.len();
        let mut i: usize = 0;
        while i < n
            invariant
                n == self@.users.len(),
                i <= n,
                forall|j: int| 0 <= j < i ==> #[trigger] self@.users[j].login != login@,
            decreases n - i,
        {
            if self.users[i].login == *login {
                return Some(i);
            }
            i = i + 1;
        }
        return None;
    }

    /// Whether a completion fact references the task.
    pub(crate) fn contains_fact(&self, task_id: i32) -> (r: bool)
        ensures
            r == self@.is_completed(task_id as int),
    {
        let n = self.completed.len();
        let mut i: usize = 0;
        while i < n
            invariant
                n == self@.completed.len(),
                i <= n,
                forall|j: int| 0 <= j < i ==> #[trigger] self@.completed[j].task_id != task_id as int,
            decreases n - i,
        {
            if self.completed[i].task_id == task_id {
                proof {
                    assert(self@.completed[i as int].task_id == task_id as int);
                }
                return true;
            }
            i = i + 1;
        }
        return false;
    }

    /// Counts the user's completion facts.
    pub(crate) fn count_user_facts(&self, user_id: i32) -> (n: usize)
        ensures
            n == self@.completion_count(user_id as int),
    {
        let len = self.completed.len();
        let mut n: usize = 0;
        let mut i: usize = 0;
        while i < len
            invariant
                len == self@.completed.len(),
                i <= len,
                n <= i,
                n == user_fact_count(self@.completed.take(i as int), user_id as int),
            decreases len - i,
        {
            proof {
                assert(self@.completed.take(i + 1) =~= self@.completed.take(i as int).push(
                    self@.completed[i as int]));
                lemma_user_fact_count_push(
                    self@.completed.take(i as int),
                    self@.completed[i as int],
                    user_id as int,
                );
            }
            if self.completed[i].user_id == user_id {
                n = n + 1;
            }
            i = i + 1;
        }
        proof {
            assert(self@.completed.take(len as int) =~= self@.completed);
        }
        n
    }
}

} // verus!
