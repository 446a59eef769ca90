use vstd::prelude::*;

use crate::task::{clone_tags, Task, TaskView};

verus! {

// The scorer integration. The engine renders the candidate tasks in the
// scorer's three-field wire shape and interprets the ranked response it
// gets back; carrying the request to the scorer and decoding its reply is
// transport, left to the caller, and a transport or decoding failure
// degrades to an empty response list.

/// One record of the scorer's wire shape: complexity as its numeric
/// encoding, expected time in hours, and the tag list. Both the requesting
/// user's profile and every candidate task cross the wire in this shape.
#[derive(Debug)]
pub struct Params {
    pub complexity: i16,
    pub time: u32,
    pub tags: Vec<String>,
}

/// The mathematical image of a wire record.
#[verifier::ext_equal]
pub ghost struct ParamsView {
    pub complexity: int,
    pub time: int,
    pub tags: Seq<Seq<char>>,
}

impl View for Params {
    type V = ParamsView;

    open spec fn view(&self) -> ParamsView {
        ParamsView {
            complexity: self.complexity as int,
            time: self.time as int,
            tags: self.tags.deep_view(),
        }
    }
}

impl DeepView for Params {
    type V = ParamsView;

    open spec fn deep_view(&self) -> ParamsView {
        self.view()
    }
}

impl Clone for Params {
    /// A clone carries the same mathematical value as the original.
    fn clone(&self) -> (res: Self)
        ensures
            res@ == self@,
    {
        let res = Params {
            complexity: self.complexity,
            time: self.time,
            tags: clone_tags(&self.tags),
        };
        proof {
            assert(res@ =~= self@);
        }
        res
    }
}

/// The record a task crosses the wire as.
pub open spec fn record_of(t: TaskView) -> ParamsView {
    ParamsView { complexity: t.complexity.spec_code(), time: t.expected_time, tags: t.tags }
}

/// The records of a whole candidate list, in order.
pub open spec fn records_of(tasks: Seq<TaskView>) -> Seq<ParamsView> {
    Seq::new(tasks.len(), |i: int| record_of(tasks[i]))
}

/// Renders the candidate tasks in wire shape, in order, for the caller to
/// put in the scoring request.
pub fn task_params(tasks: &Vec<Task>) -> (r: Vec<Params>)
    ensures
        r.deep_view() == records_of(tasks.deep_view()),
{
    let mut r: Vec<Params> = Vec::new();
    let n = tasks.len();
    let mut i: usize = 0;
    while i < n
        invariant
            n == tasks@.len(),
            i <= n,
            r@.len() == i,
            forall|j: int| 0 <= j < i ==> r.deep_view()[j] == record_of(tasks.deep_view()[j]),
        decreases n - i,
    {
        let p = Params {
            complexity: tasks[i].complexity.code(),
            time: tasks[i].expected_time,
            tags: clone_tags(&tasks[i].tags),
        };
        let ghost pv = p@;
        let ghost prev = r.deep_view();
        proof {
            assert(pv =~= record_of(tasks.deep_view()[i as int]));
        }
        r.push(p);
        proof {
            assert(r.deep_view() =~= prev.push(pv));
        }
        i = i + 1;
    }
    proof {
        assert(r.deep_view() =~= records_of(tasks.deep_view()));
    }
    r
}

/// Structural equality of two wire records: the matching rule the engine
/// correlates response entries with candidates by.
pub fn params_eq(a: &Params, b: &Params) -> (r: bool)
    ensures
        r == (a.deep_view() == b.deep_view()),
{
    if a.complexity != b.complexity || a.time != b.time {
        return false;
    }
    if a.tags.len() != b.tags.len() {
        proof {
            assert(a.deep_view().tags.len() == a.tags@.len());
            assert(b.deep_view().tags.len() == b.tags@.len());
        }
        return false;
    }
    let n = a.tags.len();
    let mut i: usize = 0;
    while i < n
        invariant
            n == a.tags@.len(),
            n == b.tags@.len(),
            i <= n,
            forall|j: int| 0 <= j < i ==> a.tags.deep_view()[j] == b.tags.deep_view()[j],
        decreases n - i,
    {
        if a.tags[i] != b.tags[i] {
            proof {
                assert(a.tags.deep_view()[i as int] != b.tags.deep_view()[i as int]);
            }
            return false;
        }
        i = i + 1;
    }
    proof {
        assert(a.tags.deep_view() =~= b.tags.deep_view());
        assert(a.deep_view() =~= b.deep_view());
    }
    return true;
}

/// How many of the first `k` response slots hold this record.
pub open spec fn match_count(rec: ParamsView, response: Seq<ParamsView>, k: int) -> nat
    decreases k,
{
    if k <= 0 {
        0
    } else {
        match_count(rec, response, k - 1) + (if k - 1 < response.len() && response[k - 1]
            == rec {
            1nat
        } else {
            0nat
        })
    }
}

/// The recommended positions: each candidate position, in order, repeated
/// once per top-five response slot its record equals.
pub open spec fn recommended(tasks: Seq<ParamsView>, response: Seq<ParamsView>) -> Seq<int>
    decreases tasks.len(),
{
    if tasks.len() == 0 {
        Seq::empty()
    } else {
        recommended(tasks.drop_last(), response) + Seq::new(
            match_count(tasks.last(), response, 5),
            |q: int| tasks.len() - 1,
        )
    }
}

pub proof fn lemma_recommended_push(tasks: Seq<ParamsView>, t: ParamsView, response: Seq<ParamsView>)
    ensures
        recommended(tasks.push(t), response) == recommended(tasks, response) + Seq::new(
            match_count(t, response, 5),
            |q: int| tasks.len() as int,
        ),
{
    assert(tasks.push(t).drop_last() =~= tasks);
}

/// Every recommended position indexes the candidate list.
pub proof fn lemma_recommended_range(tasks: Seq<ParamsView>, response: Seq<ParamsView>)
    ensures
        forall|k: int|
            0 <= k < recommended(tasks, response).len() ==> 0 <= #[trigger] recommended(
                tasks,
                response,
            )[k] < tasks.len(),
    decreases tasks.len(),
{
    if tasks.len() > 0 {
        lemma_recommended_range(tasks.drop_last(), response);
        let pre = recommended(tasks.drop_last(), response);
        assert forall|k: int|
            0 <= k < recommended(tasks, response).len() implies 0 <= #[trigger] recommended(
            tasks,
            response,
        )[k] < tasks.len() by {
            if k < pre.len() {
                assert(recommended(tasks, response)[k] == pre[k]);
            }
        }
    }
}

/// Interprets the scorer's ranked response against the candidate list.
///
/// Only the first five response records are considered. Each candidate
/// position whose record structurally equals one of them appears in the
/// result, in candidate order, once per matching slot; an empty response
/// yields an empty result. Matching goes by the full three-field record,
/// not by an identifier: structurally identical candidates cannot be told
/// apart, and each of them matches the same slots.
pub fn get_recommended(tasks: &Vec<Task>, response: &Vec<Params>) -> (r: Vec<usize>)
    ensures
        r@.len() == recommended(records_of(tasks.deep_view()), response.deep_view()).len(),
        forall|k: int|
            0 <= k < r@.len() ==> #[trigger] r@[k] as int == recommended(
                records_of(tasks.deep_view()),
                response.deep_view(),
            )[k],
        forall|k: int| 0 <= k < r@.len() ==> (#[trigger] r@[k] as int) < tasks@.len(),
{
    let ghost tp = records_of(tasks.deep_view());
    let ghost rd = response.deep_view();
    let mut out: Vec<usize> = Vec::new();
    let n = tasks.len();
    let mut i: usize = 0;
    proof {
        assert(tp.take(0) =~= Seq::<ParamsView>::empty());
    }
    while i < n
        invariant
            n == tasks@.len(),
            tp == records_of(tasks.deep_view()),
            rd == response.deep_view(),
            i <= n,
            out@.len() == recommended(tp.take(i as int), rd).len(),
            forall|k: int|
                0 <= k < out@.len() ==> #[trigger] out@[k] as int == recommended(
                    tp.take(i as int),
                    rd,
                )[k],
            forall|k: int| 0 <= k < out@.len() ==> (#[trigger] out@[k] as int) < i,
        decreases n - i,
    {
        let rec = Params {
            complexity: tasks[i].complexity.code(),
            time: tasks[i].expected_time,
            tags: clone_tags(&tasks[i].tags),
        };
        proof {
            assert(rec@ =~= record_of(tasks.deep_view()[i as int]));
            assert(rec@ == tp[i as int]);
        }
        let ghost base = out@;
        let mut j: usize = 0;
        while j < 5
            invariant
                rd == response.deep_view(),
                rec@ == tp[i as int],
                j <= 5,
                i < n,
                out@.len() == base.len() + match_count(rec@, rd, j as int),
                forall|k: int| 0 <= k < base.len() ==> #[trigger] out@[k] == base[k],
                forall|k: int| base.len() <= k < out@.len() ==> #[trigger] out@[k] == i,
            decreases 5 - j,
        {
            if j < response.len() {
                if params_eq(&rec, &response[j]) {
                    proof {
                        assert(rd[j as int] == response@[j as int].deep_view());
                    }
                    out.push(i);
                }
            }
            j = j + 1;
        }
        proof {
            assert(tp.take(i + 1) =~= tp.take(i as int).push(tp[i as int]));
            lemma_recommended_push(tp.take(i as int), tp[i as int], rd);
            let full = recommended(tp.take(i + 1), rd);
            let prefix = recommended(tp.take(i as int), rd);
            assert(full == prefix + Seq::new(match_count(tp[i as int], rd, 5), |q: int| i as int));
            assert forall|k: int| 0 <= k < out@.len() implies #[trigger] out@[k] as int == full[k] by {
                if k < base.len() {
                    assert(out@[k] == base[k]);
                    assert(full[k] == prefix[k]);
                } else {
                    assert(out@[k] == i);
                    assert(full[k] == i as int);
                }
            }
        }
        i = i + 1;
    }
    proof {
        assert(tp.take(n as int) =~= tp);
    }
    out
}

// The recommendation bound.

/// How many candidate records equal the given one.
pub open spec fn count_matching(tasks: Seq<ParamsView>, x: ParamsView) -> nat
    decreases tasks.len(),
{
    if tasks.len() == 0 {
        0
    } else {
        count_matching(tasks.drop_last(), x) + (if tasks.last() == x {
            1nat
        } else {
            0nat
        })
    }
}

proof fn lemma_count_matching_pos(tasks: Seq<ParamsView>, x: ParamsView)
    requires
        count_matching(tasks, x) > 0,
    ensures
        exists|i: int| 0 <= i < tasks.len() && tasks[i] == x,
    decreases tasks.len(),
{
    if tasks.len() > 0 {
        if tasks.last() == x {
            assert(tasks[tasks.len() - 1] == x);
        } else {
            lemma_count_matching_pos(tasks.drop_last(), x);
            let i = choose|i: int|
                0 <= i < tasks.drop_last().len() && tasks.drop_last()[i] == x;
            assert(tasks[i] == x);
        }
    }
}

proof fn lemma_count_matching_distinct(tasks: Seq<ParamsView>, x: ParamsView)
    requires
        forall|i: int, j: int| 0 <= i < j < tasks.len() ==> tasks[i] != tasks[j],
    ensures
        count_matching(tasks, x) <= 1,
    decreases tasks.len(),
{
    if tasks.len() > 0 {
        let front = tasks.drop_last();
        assert(forall|i: int, j: int| 0 <= i < j < front.len() ==> front[i] != front[j]);
        lemma_count_matching_distinct(front, x);
        if tasks.last() == x && count_matching(front, x) > 0 {
            lemma_count_matching_pos(front, x);
            let i = choose|i: int| 0 <= i < front.len() && front[i] == x;
            assert(tasks[i] == tasks[tasks.len() - 1]);
            assert(false);
        }
    }
}

/// The total number of matches against the first `k` response slots,
/// summed over all candidates.
pub open spec fn total_matches(tasks: Seq<ParamsView>, response: Seq<ParamsView>, k: int) -> nat
    decreases tasks.len(),
{
    if tasks.len() == 0 {
        0
    } else {
        total_matches(tasks.drop_last(), response, k) + match_count(tasks.last(), response, k)
    }
}

proof fn lemma_recommended_len(tasks: Seq<ParamsView>, response: Seq<ParamsView>)
    ensures
        recommended(tasks, response).len() == total_matches(tasks, response, 5),
    decreases tasks.len(),
{
    if tasks.len() > 0 {
        lemma_recommended_len(tasks.drop_last(), response);
    }
}

proof fn lemma_total_matches_step(tasks: Seq<ParamsView>, response: Seq<ParamsView>, k: int)
    requires
        k >= 1,
    ensures
        total_matches(tasks, response, k) == total_matches(tasks, response, k - 1) + (if k - 1
            < response.len() {
            count_matching(tasks, response[k - 1])
        } else {
            0nat
        }),
    decreases tasks.len(),
{
    if tasks.len() > 0 {
        lemma_total_matches_step(tasks.drop_last(), response, k);
    }
}

proof fn lemma_total_matches_bound(tasks: Seq<ParamsView>, response: Seq<ParamsView>, k: int)
    requires
        k >= 0,
        forall|i: int, j: int| 0 <= i < j < tasks.len() ==> tasks[i] != tasks[j],
    ensures
        total_matches(tasks, response, k) <= k,
    decreases k,
{
    if k == 0 {
        lemma_total_matches_zero(tasks, response);
    } else {
        lemma_total_matches_bound(tasks, response, k - 1);
        lemma_total_matches_step(tasks, response, k);
        if k - 1 < response.len() {
            lemma_count_matching_distinct(tasks, response[k - 1]);
        }
    }
}

proof fn lemma_total_matches_zero(tasks: Seq<ParamsView>, response: Seq<ParamsView>)
    ensures
        total_matches(tasks, response, 0) == 0,
    decreases tasks.len(),
{
    if tasks.len() > 0 {
        lemma_total_matches_zero(tasks.drop_last(), response);
    }
}

/// Recommendation bound law: when the candidate records are pairwise
/// distinct, the scorer's response yields at most five positions, each a
/// valid index into the candidate list. (With structurally identical
/// candidates the count can exceed five, since every copy matches the
/// same response slots.)
pub proof fn lemma_recommendation_bound(tasks: Seq<ParamsView>, response: Seq<ParamsView>)
    requires
        forall|i: int, j: int| 0 <= i < j < tasks.len() ==> tasks[i] != tasks[j],
    ensures
        recommended(tasks, response).len() <= 5,
        forall|k: int|
            0 <= k < recommended(tasks, response).len() ==> 0 <= #[trigger] recommended(
                tasks,
                response,
            )[k] < tasks.len(),
{
    lemma_recommended_len(tasks, response);
    lemma_total_matches_bound(tasks, response, 5);
    lemma_recommended_range(tasks, response);
}

} // verus!
