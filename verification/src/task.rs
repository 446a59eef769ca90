use vstd::prelude::*;

use crate::class::Class;

verus! {

/// A quest on the board.
///
/// Completion is not recorded here: it lives in a separate append-only fact,
/// so `assigned_to` alone never says whether a task is finished.
#[derive(Debug)]
pub struct Task {
    /// Stable identifier, assigned by the store on creation.
    pub id: i32,
    pub complexity: Class,
    pub description: String,
    /// Expected completion duration in whole hours.
    pub expected_time: u32,
    /// The skills the task calls for; order is kept as given.
    pub tags: Vec<String>,
    /// The owning user, if any; `None` means the task is claimable.
    pub assigned_to: Option<i32>,
}

/// What an administrator supplies when creating a task; the id is generated
/// by the store.
#[derive(Debug)]
pub struct TaskCreateData {
    pub complexity: Class,
    pub expected_time: u32,
    pub tags: Vec<String>,
    pub description: String,
}

/// The mathematical image of a task creation request.
#[verifier::ext_equal]
pub ghost struct TaskCreateView {
    pub complexity: Class,
    pub expected_time: int,
    pub tags: Seq<Seq<char>>,
    pub description: Seq<char>,
}

impl View for TaskCreateData {
    type V = TaskCreateView;

    open spec fn view(&self) -> TaskCreateView {
        TaskCreateView {
            complexity: self.complexity,
            expected_time: self.expected_time as int,
            tags: self.tags.deep_view(),
            description: self.description@,
        }
    }
}

/// The mathematical image of a task.
#[verifier::ext_equal]
pub ghost struct TaskView {
    pub id: int,
    pub complexity: Class,
    pub description: Seq<char>,
    pub expected_time: int,
    pub tags: Seq<Seq<char>>,
    pub assigned_to: Option<int>,
}

impl View for Task {
    type V = TaskView;

    open spec fn view(&self) -> TaskView {
        TaskView {
            id: self.id as int,
            complexity: self.complexity,
            description: self.description@,
            expected_time: self.expected_time as int,
            tags: self.tags.deep_view(),
            assigned_to: match self.assigned_to {
                Some(u) => Some(u as int),
                None => None,
            },
        }
    }
}

impl DeepView for Task {
    type V = TaskView;

    open spec fn deep_view(&self) -> TaskView {
        self.view()
    }
}

/// Copies a tag list; the copy carries the same sequence of tags.
pub(crate) fn clone_tags(v: &Vec<String>) -> (r: Vec<String>)
    ensures
        r@.len() == v@.len(),
        forall|i: int| 0 <= i < v@.len() ==> r@[i] == v@[i],
        r.deep_view() == v.deep_view(),
{
    let mut r: Vec<String> = Vec::new();
    let mut i: usize = 0;
    while i < v.len()
        invariant
            i <= v@.len(),
            r@.len() == i,
            forall|j: int| 0 <= j < i ==> r@[j] == v@[j],
        decreases v@.len() - i,
    {
        r.push(v[i].clone());
        i = i + 1;
    }
    proof {
        assert(r.deep_view() =~= v.deep_view());
    }
    r
}

impl Clone for Task {
    /// A clone carries the same mathematical value as the original.
    fn clone(&self) -> (res: Self)
        ensures
            res@ == self@,
    {
        let res = Task {
            id: self.id,
            complexity: self.complexity,
            description: self.description.clone(),
            expected_time: self.expected_time,
            tags: clone_tags(&self.tags),
            assigned_to: self.assigned_to,
        };
        proof {
            assert(res@ =~= self@);
        }
        res
    }
}

} // verus!
