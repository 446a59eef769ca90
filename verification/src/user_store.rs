use vstd::prelude::*;

use crate::class::Class;
use crate::error::EngineError;
use crate::store::{
    has_login_in, has_user_in, login_index_in, user_fact_count, user_in, user_index_in,
    lemma_user_index_agrees, CompletionView, Store, StoreView,
};
use crate::task_store::{resolved_count, resolved_sum};
use crate::user::{User, UserView};
use vstd::multiset::Multiset;

verus! {

/// When users' logins are unique, any index holding the login is the chosen
/// one.
pub proof fn lemma_login_index_agrees(s: StoreView, login: Seq<char>, i: int)
    requires
        s.logins_unique(),
        0 <= i < s.users.len(),
        s.users[i].login == login,
    ensures
        has_login_in(s.users, login),
        login_index_in(s.users, login) == i,
{
    assert(has_login_in(s.users, login));
    let k = login_index_in(s.users, login);
    assert(0 <= k < s.users.len() && s.users[k].login == login);
}

// Sign-up.

/// Creation succeeds while the id space is not exhausted and the login is
/// not taken: `login` carries a uniqueness constraint.
pub open spec fn user_create_ok(s: StoreView, login: Seq<char>) -> bool {
    s.next_user_id < i32::MAX as int && !has_login_in(s.users, login)
}

/// The record a sign-up turns into: a fresh id, the lowest tier, no admin
/// rights, no tags — whatever the request carried in those fields.
pub open spec fn created_user_view(s: StoreView, u: UserView) -> UserView {
    UserView {
        id: s.next_user_id,
        login: u.login,
        name: u.name,
        pw_hash: u.pw_hash,
        class: Class::C,
        is_admin: false,
        tags: Seq::empty(),
    }
}

pub open spec fn user_create_next(s: StoreView, u: UserView) -> StoreView {
    if user_create_ok(s, u.login) {
        StoreView {
            users: s.users.push(created_user_view(s, u)),
            next_user_id: s.next_user_id + 1,
            ..s
        }
    } else {
        s
    }
}

pub proof fn lemma_user_create_preserves_wf(s: StoreView, u: UserView)
    requires
        s.wf(),
    ensures
        user_create_next(s, u).wf(),
{
    if user_create_ok(s, u.login) {
        let s1 = user_create_next(s, u);
        let n = s.users.len() as int;
        assert(forall|i: int| 0 <= i < n ==> s1.users[i] == s.users[i]);
        assert(s1.users[n] == created_user_view(s, u));
        assert forall|i: int, j: int|
            0 <= i < s1.users.len() && 0 <= j < s1.users.len() && i != j implies #[trigger] s1.users[i].login
            != #[trigger] s1.users[j].login by {
            if i == n {
                assert(has_login_in(s.users, s.users[j].login));
            } else if j == n {
                assert(has_login_in(s.users, s.users[i].login));
            }
        }
        assert(s1.logins_unique());
        assert(s1.user_ids_unique());
        assert(s1.user_tags_distinct());
        assert forall|i: int, j: int, k: int|
            #![trigger s1.completed[j].task_id, s1.tasks[i].id, s1.users[k].id]
            0 <= i < s1.tasks.len() && 0 <= j < s1.completed.len() && 0 <= k < s1.users.len()
                && s1.completed[j].task_id == s1.tasks[i].id && s1.completed[j].user_id
                == s1.users[k].id implies s1.tasks[i].tags.to_set().subset_of(
            s1.users[k].tags.to_set()) by {
            if k == n {
                assert(s.completed[j].user_id < s.next_user_id);
                assert(false);
            } else {
                assert(s.completed[j].task_id == s.tasks[i].id);
                assert(s.completed[j].user_id == s.users[k].id);
            }
        }
        assert(s1.tags_cover_completions());
    }
}

/// Registers a user: the store assigns the next free id, and the account
/// starts at the lowest tier, without admin rights and without tags. Fails
/// with `StorageError` exactly when the login is already taken or the id
/// space is exhausted — the store's uniqueness constraint.
pub fn create(store: &mut Store, user: User) -> (r: Result<User, EngineError>)
    requires
        old(store)@.wf(),
    ensures
        final(store)@.wf(),
        final(store)@ == user_create_next(old(store)@, user@),
        match r {
            Ok(u) => user_create_ok(old(store)@, user@.login) && u@ == created_user_view(
                old(store)@,
                user@,
            ),
            Err(e) => !user_create_ok(old(store)@, user@.login) && e == EngineError::StorageError,
        },
{
    proof {
        lemma_user_create_preserves_wf(old(store)@, user@);
    }
    if store.next_user_id == i32::MAX {
        return Err(EngineError::StorageError);
    }
    if store.find_user_by_login(&user.login).is_some() {
        return Err(EngineError::StorageError);
    }
    let u = User {
        id: store.next_user_id,
        login: user.login,
        name: user.name,
        pw_hash: user.pw_hash,
        class: Class::C,
        is_admin: false,
        tags: Vec::new(),
    };
    let ret = u.clone();
    proof {
        assert(u@ =~= created_user_view(store@, user@));
    }
    store.users.push(u);
    store.next_user_id = store.next_user_id + 1;
    proof {
        assert(store@ =~= user_create_next(old(store)@, user@));
    }
    Ok(ret)
}

/// Whether a login is already registered.
pub fn login_exists(store: &Store, login: &String) -> (r: bool)
    ensures
        r == has_login_in(store@.users, login@),
{
    store.find_user_by_login(login).is_some()
}

/// The user behind an id; a missing id is `NotFound`.
pub fn get(store: &Store, id: i32) -> (r: Result<User, EngineError>)
    requires
        store@.wf(),
    ensures
        match r {
            Ok(u) => store@.has_user(id as int) && u@ == store@.user(id as int),
            Err(e) => !store@.has_user(id as int) && e == EngineError::NotFound,
        },
{
    match store.find_user(id) {
        Some(i) => Ok(store.users[i].clone()),
        None => Err(EngineError::NotFound),
    }
}

/// The user behind a login; a missing login is `NotFound`.
pub fn get_by_login(store: &Store, login: &String) -> (r: Result<User, EngineError>)
    requires
        store@.wf(),
    ensures
        match r {
            Ok(u) => has_login_in(store@.users, login@) && u@ == store@.users[login_index_in(
                store@.users,
                login@,
            )],
            Err(e) => !has_login_in(store@.users, login@) && e == EngineError::NotFound,
        },
{
    match store.find_user_by_login(login) {
        Some(i) => {
            proof {
                lemma_login_index_agrees(store@, login@, i as int);
            }
            Ok(store.users[i].clone())
        },
        None => Err(EngineError::NotFound),
    }
}

// Tier updates.

pub open spec fn set_class_ok(s: StoreView, user_id: int) -> bool {
    has_user_in(s.users, user_id)
}

pub open spec fn set_class_next(s: StoreView, user_id: int, class: Class) -> StoreView {
    if set_class_ok(s, user_id) {
        let k = user_index_in(s.users, user_id);
        StoreView { users: s.users.update(k, UserView { class: class, ..s.users[k] }), ..s }
    } else {
        s
    }
}

pub proof fn lemma_set_class_preserves_wf(s: StoreView, user_id: int, class: Class)
    requires
        s.wf(),
    ensures
        set_class_next(s, user_id, class).wf(),
{
    if set_class_ok(s, user_id) {
        let k = user_index_in(s.users, user_id);
        assert(0 <= k < s.users.len() && s.users[k].id == user_id);
        let s1 = set_class_next(s, user_id, class);
        assert(forall|j: int|
            0 <= j < s1.users.len() ==> #[trigger] s1.users[j].id == s.users[j].id
                && s1.users[j].login == s.users[j].login && s1.users[j].tags == s.users[j].tags);
        assert(s1.user_ids_unique());
        assert(s1.logins_unique());
        assert(s1.user_tags_distinct());
        assert forall|i: int, j: int, kk: int|
            #![trigger s1.completed[j].task_id, s1.tasks[i].id, s1.users[kk].id]
            0 <= i < s1.tasks.len() && 0 <= j < s1.completed.len() && 0 <= kk < s1.users.len()
                && s1.completed[j].task_id == s1.tasks[i].id && s1.completed[j].user_id
                == s1.users[kk].id implies s1.tasks[i].tags.to_set().subset_of(
            s1.users[kk].tags.to_set()) by {
            assert(s.completed[j].task_id == s.tasks[i].id);
            assert(s.completed[j].user_id == s.users[kk].id);
        }
        assert(s1.tags_cover_completions());
    }
}

/// Overwrites a user's skill tier; a missing id is `NotFound`.
pub fn set_class(store: &mut Store, id: i32, class: Class) -> (r: Result<(), EngineError>)
    requires
        old(store)@.wf(),
    ensures
        final(store)@.wf(),
        final(store)@ == set_class_next(old(store)@, id as int, class),
        match r {
            Ok(()) => set_class_ok(old(store)@, id as int),
            Err(e) => !set_class_ok(old(store)@, id as int) && e == EngineError::NotFound,
        },
{
    proof {
        lemma_set_class_preserves_wf(old(store)@, id as int, class);
    }
    match store.find_user(id) {
        Some(i) => {
            store.users[i].class = class;
            proof {
                assert(store@ =~= set_class_next(old(store)@, id as int, class));
            }
            Ok(())
        },
        None => Err(EngineError::NotFound),
    }
}

// Tag union. A user's tag list grows by exactly the tags they do not hold
// yet, in order of first appearance, so the list stays free of duplicates.

pub open spec fn union_tags(acc: Seq<Seq<char>>, more: Seq<Seq<char>>) -> Seq<Seq<char>>
    decreases more.len(),
{
    if more.len() == 0 {
        acc
    } else {
        union_tags(
            if acc.contains(more.first()) {
                acc
            } else {
                acc.push(more.first())
            },
            more.drop_first(),
        )
    }
}

/// Splitting off a sequence's first element, for membership reasoning.
proof fn lemma_contains_first_split(s: Seq<Seq<char>>, x: Seq<char>)
    requires
        s.len() > 0,
    ensures
        s.contains(x) <==> (x == s.first() || s.drop_first().contains(x)),
{
    if s.contains(x) {
        let i = choose|i: int| 0 <= i < s.len() && s[i] == x;
        if i > 0 {
            assert(s.drop_first()[i - 1] == x);
        }
    }
    if s.drop_first().contains(x) {
        let i = choose|i: int| 0 <= i < s.drop_first().len() && s.drop_first()[i] == x;
        assert(s[i + 1] == x);
    }
    if x == s.first() {
        assert(s[0] == x);
    }
}

/// The union's tag set is exactly the union of the two tag sets.
pub proof fn lemma_union_tags_set(acc: Seq<Seq<char>>, more: Seq<Seq<char>>)
    ensures
        union_tags(acc, more).to_set() =~= acc.to_set().union(more.to_set()),
    decreases more.len(),
{
    broadcast use vstd::seq_lib::lemma_seq_contains_after_push;

    if more.len() == 0 {
        assert forall|x: Seq<char>| !more.contains(x) by {}
    } else {
        let f = more.first();
        let rest = more.drop_first();
        let acc2 = if acc.contains(f) {
            acc
        } else {
            acc.push(f)
        };
        lemma_union_tags_set(acc2, rest);
        assert(acc2.to_set() =~= acc.to_set().insert(f));
        assert forall|x: Seq<char>| more.contains(x) <==> (x == f || rest.contains(x)) by {
            lemma_contains_first_split(more, x);
        }
        assert(more.to_set() =~= rest.to_set().insert(f));
    }
}

/// The union never introduces a duplicate.
pub proof fn lemma_union_tags_distinct(acc: Seq<Seq<char>>, more: Seq<Seq<char>>)
    requires
        acc.no_duplicates(),
    ensures
        union_tags(acc, more).no_duplicates(),
    decreases more.len(),
{
    if more.len() > 0 {
        let f = more.first();
        if !acc.contains(f) {
            assert forall|i: int, j: int|
                0 <= i < acc.push(f).len() && 0 <= j < acc.push(f).len() && i
                    != j implies acc.push(f)[i] != acc.push(f)[j] by {
                if i == acc.len() as int {
                    if acc.push(f)[j] == f {
                        assert(acc[j] == f);
                        assert(acc.contains(f));
                    }
                } else if j == acc.len() as int {
                    if acc.push(f)[i] == f {
                        assert(acc[i] == f);
                        assert(acc.contains(f));
                    }
                }
            }
            assert(acc.push(f).no_duplicates());
            lemma_union_tags_distinct(acc.push(f), more.drop_first());
        } else {
            lemma_union_tags_distinct(acc, more.drop_first());
        }
    }
}

/// The union keeps everything the user already had.
pub proof fn lemma_union_tags_grows(acc: Seq<Seq<char>>, more: Seq<Seq<char>>)
    ensures
        acc.to_set().subset_of(union_tags(acc, more).to_set()),
{
    lemma_union_tags_set(acc, more);
}

/// Whether a tag list holds the given tag.
fn contains_tag(v: &Vec<String>, tag: &String) -> (r: bool)
    ensures
        r == v.deep_view().contains(tag@),
{
    let n = v.len();
    let mut i: usize = 0;
    while i < n
        invariant
            n == v@.len(),
            i <= n,
            forall|j: int| 0 <= j < i ==> v.deep_view()[j] != tag@,
        decreases n - i,
    {
        if v[i] == *tag {
            proof {
                assert(v.deep_view()[i as int] == tag@);
            }
            return true;
        }
        i = i + 1;
    }
    return false;
}

pub open spec fn add_tags_ok(s: StoreView, user_id: int) -> bool {
    has_user_in(s.users, user_id)
}

pub open spec fn add_tags_next(s: StoreView, user_id: int, tags: Seq<Seq<char>>) -> StoreView {
    if add_tags_ok(s, user_id) {
        let k = user_index_in(s.users, user_id);
        StoreView {
            users: s.users.update(
                k,
                UserView { tags: union_tags(s.users[k].tags, tags), ..s.users[k] },
            ),
            ..s
        }
    } else {
        s
    }
}

pub proof fn lemma_add_tags_preserves_wf(s: StoreView, user_id: int, tags: Seq<Seq<char>>)
    requires
        s.wf(),
    ensures
        add_tags_next(s, user_id, tags).wf(),
{
    if add_tags_ok(s, user_id) {
        let k = user_index_in(s.users, user_id);
        assert(0 <= k < s.users.len() && s.users[k].id == user_id);
        let s1 = add_tags_next(s, user_id, tags);
        assert(forall|j: int|
            0 <= j < s1.users.len() ==> #[trigger] s1.users[j].id == s.users[j].id
                && s1.users[j].login == s.users[j].login);
        assert(s1.user_ids_unique());
        assert(s1.logins_unique());
        lemma_union_tags_distinct(s.users[k].tags, tags);
        assert(s1.user_tags_distinct());
        lemma_union_tags_grows(s.users[k].tags, tags);
        assert forall|i: int, j: int, kk: int|
            #![trigger s1.completed[j].task_id, s1.tasks[i].id, s1.users[kk].id]
            0 <= i < s1.tasks.len() && 0 <= j < s1.completed.len() && 0 <= kk < s1.users.len()
                && s1.completed[j].task_id == s1.tasks[i].id && s1.completed[j].user_id
                == s1.users[kk].id implies s1.tasks[i].tags.to_set().subset_of(
            s1.users[kk].tags.to_set()) by {
            assert(s.completed[j].task_id == s.tasks[i].id);
            assert(s.completed[j].user_id == s.users[kk].id);
            assert(s.tasks[i].tags.to_set().subset_of(s.users[kk].tags.to_set()));
            if kk == k {
                assert(s.users[k].tags.to_set().subset_of(s1.users[k].tags.to_set()));
            }
        }
        assert(s1.tags_cover_completions());
    }
}

/// Unions the given tags into the user's tag set: each tag the user lacks
/// is appended once, in order of first appearance, and tags already held
/// are never duplicated. A missing id is `NotFound`.
pub fn add_tags(store: &mut Store, id: i32, tags: &Vec<String>) -> (r: Result<(), EngineError>)
    requires
        old(store)@.wf(),
    ensures
        final(store)@.wf(),
        final(store)@ == add_tags_next(old(store)@, id as int, tags.deep_view()),
        match r {
            Ok(()) => add_tags_ok(old(store)@, id as int),
            Err(e) => !add_tags_ok(old(store)@, id as int) && e == EngineError::NotFound,
        },
{
    proof {
        lemma_add_tags_preserves_wf(old(store)@, id as int, tags.deep_view());
    }
    let k = match store.find_user(id) {
        Some(k) => k,
        None => {
            return Err(EngineError::NotFound);
        },
    };
    let ghost td = tags.deep_view();
    proof {
        assert(td.skip(0) =~= td);
    }
    let n = tags.len();
    let mut i: usize = 0;
    while i < n
        invariant
            n == td.len(),
            td == tags.deep_view(),
            i <= n,
            (k as int) < store@.users.len(),
            store@.users.len() == old(store)@.users.len(),
            store@.tasks == old(store)@.tasks,
            store@.completed == old(store)@.completed,
            store@.next_task_id == old(store)@.next_task_id,
            store@.next_user_id == old(store)@.next_user_id,
            forall|j: int|
                0 <= j < store@.users.len() && j != k as int ==> store@.users[j] == old(
                    store,
                )@.users[j],
            store@.users[k as int] == (UserView {
                tags: store@.users[k as int].tags,
                ..old(store)@.users[k as int]
            }),
            union_tags(store@.users[k as int].tags, td.skip(i as int)) == union_tags(
                old(store)@.users[k as int].tags,
                td,
            ),
        decreases n - i,
    {
        let ghost cur = store@.users[k as int].tags;
        proof {
            assert(td.skip(i as int).len() > 0);
            assert(td.skip(i as int).first() == td[i as int]);
            assert(td.skip(i as int).drop_first() =~= td.skip(i + 1));
            assert(td[i as int] == tags@[i as int]@);
        }
        if !contains_tag(&store.users[k].tags, &tags[i]) {
            let tag = tags[i].clone();
            store.users[k].tags.push(tag);
            proof {
                assert(store@.users[k as int].tags =~= cur.push(td[i as int]));
                assert(store@.users[k as int] =~= (UserView {
                    tags: cur.push(td[i as int]),
                    ..old(store)@.users[k as int]
                }));
            }
        }
        i = i + 1;
    }
    proof {
        assert(td.skip(n as int) =~= Seq::<Seq<char>>::empty());
        assert(store@ =~= add_tags_next(old(store)@, id as int, td));
    }
    Ok(())
}

// Calibration: the periodic recomputation of a user's tier from their
// completion history.

pub open spec fn spec_estimate_code(sum: int, n: int) -> int {
    if n <= 0 {
        0
    } else {
        let r = (2 * sum + n) / (2 * n);
        if r < 0 {
            0
        } else if r > 2 {
            2
        } else {
            r
        }
    }
}

/// Rounds the mean complexity `sum / n` half away from zero and clamps it
/// into the tier range; an empty history estimates the lowest tier.
pub fn estimate_class(sum: u64, n: u64) -> (c: Class)
    ensures
        c == Class::spec_from_code(spec_estimate_code(sum as int, n as int)),
{
    if n == 0 {
        return Class::C;
    }
    let num: u128 = 2 * (sum as u128) + (n as u128);
    let den: u128 = 2 * (n as u128);
    let r: u128 = num / den;
    if r >= 2 {
        Class::A
    } else if r == 1 {
        Class::B
    } else {
        Class::C
    }
}

pub open spec fn calibrate_outcome(s: StoreView, user_id: int) -> Result<(), EngineError> {
    if has_user_in(s.users, user_id) {
        Ok(())
    } else {
        Err(EngineError::NotFound)
    }
}

/// Calibration acts only when the user's completion count is a positive
/// multiple of ten.
pub open spec fn calibrate_due(s: StoreView, user_id: int) -> bool {
    let n = user_fact_count(s.completed, user_id);
    n > 0 && n % 10 == 0
}

/// The tier the user's history estimates: the rounded mean complexity of
/// their completed tasks still on the board.
pub open spec fn calibrated_class(s: StoreView, user_id: int) -> Class {
    Class::spec_from_code(
        spec_estimate_code(
            resolved_sum(s.tasks, s.completed, user_id),
            resolved_count(s.tasks, s.completed, user_id) as int,
        ),
    )
}

pub open spec fn calibrate_next(s: StoreView, user_id: int) -> StoreView {
    if !has_user_in(s.users, user_id) {
        s
    } else if !calibrate_due(s, user_id) {
        s
    } else if calibrated_class(s, user_id) == user_in(s.users, user_id).class {
        s
    } else {
        set_class_next(s, user_id, calibrated_class(s, user_id))
    }
}

pub proof fn lemma_calibrate_preserves_wf(s: StoreView, user_id: int)
    requires
        s.wf(),
    ensures
        calibrate_next(s, user_id).wf(),
{
    lemma_set_class_preserves_wf(s, user_id, calibrated_class(s, user_id));
}

/// Recalibrates a user's skill tier from their completion history.
///
/// A no-op unless the user's completion count is a positive multiple of
/// ten. When due, the tier becomes the mean complexity of the completed
/// tasks still on the board, rounded half away from zero and clamped to
/// the tier range; a history none of whose tasks remain falls back to the
/// lowest tier. The record is written only when the tier differs. A
/// missing id is `NotFound`.
pub fn calibrate_class(store: &mut Store, user_id: i32) -> (r: Result<(), EngineError>)
    requires
        old(store)@.wf(),
        2 * old(store)@.completed.len() <= u64::MAX,
    ensures
        final(store)@.wf(),
        final(store)@ == calibrate_next(old(store)@, user_id as int),
        r == calibrate_outcome(old(store)@, user_id as int),
{
    let k = match store.find_user(user_id) {
        Some(k) => k,
        None => {
            return Err(EngineError::NotFound);
        },
    };
    let n = store.count_user_facts(user_id);
    if n == 0 || n % 10 != 0 {
        return Ok(());
    }
    let estimated = match crate::task_store::get_avg_complexity(store, user_id) {
        Some(p) => estimate_class(p.0, p.1),
        None => estimate_class(0, 0),
    };
    proof {
        assert(estimated == calibrated_class(old(store)@, user_id as int));
        lemma_user_index_agrees(store@, user_id as int, k as int);
    }
    if estimated != store.users[k].class {
        let _ = set_class(store, user_id, estimated);
    }
    Ok(())
}

// Rankings: who completed the most.

/// Ordered by completion count, most first.
pub open spec fn ranked_desc(completed: Seq<CompletionView>, users: Seq<UserView>) -> bool {
    forall|i: int, j: int|
        #![trigger users[i], users[j]]
        0 <= i <= j < users.len() ==> user_fact_count(completed, users[i].id) >= user_fact_count(
            completed,
            users[j].id,
        )
}

/// The users of one tier, in stored order.
pub open spec fn users_of_class(users: Seq<UserView>, class: Class) -> Seq<UserView>
    decreases users.len(),
{
    if users.len() == 0 {
        Seq::empty()
    } else {
        let rest = users_of_class(users.drop_last(), class);
        if users.last().class == class {
            rest.push(users.last())
        } else {
            rest
        }
    }
}

pub proof fn lemma_users_of_class_push(users: Seq<UserView>, u: UserView, class: Class)
    ensures
        users_of_class(users.push(u), class) == if u.class == class {
            users_of_class(users, class).push(u)
        } else {
            users_of_class(users, class)
        },
{
    assert(users.push(u).drop_last() =~= users);
}

/// Copies a user list; the copy carries the same sequence of records.
fn clone_users(v: &Vec<User>) -> (r: Vec<User>)
    ensures
        r.deep_view() == v.deep_view(),
{
    let mut r: Vec<User> = Vec::new();
    let n = v.len();
    let mut i: usize = 0;
    while i < n
        invariant
            n == v@.len(),
            i <= n,
            r@.len() == i,
            forall|j: int| 0 <= j < i ==> r.deep_view()[j] == v.deep_view()[j],
        decreases n - i,
    {
        let u = v[i].clone();
        r.push(u);
        i = i + 1;
    }
    proof {
        assert(r.deep_view() =~= v.deep_view());
    }
    r
}

/// Sorts the given users by their completion count in the store, most
/// first; the result is a permutation of the input.
fn rank_users(store: &Store, v: Vec<User>) -> (r: Vec<User>)
    ensures
        r.deep_view().to_multiset() == v.deep_view().to_multiset(),
        r.deep_view().len() == v.deep_view().len(),
        ranked_desc(store@.completed, r.deep_view()),
{
    broadcast use vstd::seq_lib::group_to_multiset_ensures;

    let ghost orig = v.deep_view();
    let mut rest = v;
    let mut out: Vec<User> = Vec::new();
    while rest.len() > 0
        invariant
            out.deep_view().to_multiset().add(rest.deep_view().to_multiset())
                =~= orig.to_multiset(),
            out.deep_view().len() + rest.deep_view().len() == orig.len(),
            ranked_desc(store@.completed, out.deep_view()),
            forall|i: int, j: int|
                #![trigger out.deep_view()[i], rest.deep_view()[j]]
                0 <= i < out.deep_view().len() && 0 <= j < rest.deep_view().len()
                    ==> user_fact_count(store@.completed, out.deep_view()[i].id)
                    >= user_fact_count(store@.completed, rest.deep_view()[j].id),
        decreases rest.len(),
    {
        let mut mi: usize = 0;
        let mut mc: usize = store.count_user_facts(rest[0].id);
        let mut sj: usize = 1;
        while sj < rest.len()
            invariant
                0 < rest.deep_view().len(),
                (mi as int) < rest.deep_view().len(),
                sj <= rest.deep_view().len(),
                mc == user_fact_count(store@.completed, rest.deep_view()[mi as int].id),
                forall|t: int|
                    0 <= t < sj ==> user_fact_count(store@.completed, rest.deep_view()[t].id)
                        <= mc,
            decreases rest.deep_view().len() - sj,
        {
            let c = store.count_user_facts(rest[sj].id);
            if c > mc {
                mi = sj;
                mc = c;
            }
            sj = sj + 1;
        }
        let ghost rest_before = rest.deep_view();
        let ghost out_before = out.deep_view();
        let u = rest.remove(mi);
        out.push(u);
        proof {
            let picked_u = rest_before[mi as int];
            rest_before.to_multiset_ensures();
            out_before.to_multiset_ensures();
            assert(rest.deep_view() =~= rest_before.remove(mi as int));
            assert(out.deep_view() =~= out_before.push(picked_u));
            assert(rest_before.contains(picked_u));
            assert(rest_before.to_multiset().count(picked_u) > 0);
            assert(rest.deep_view().to_multiset() =~= rest_before.to_multiset().remove(picked_u));
            assert(out.deep_view().to_multiset() =~= out_before.to_multiset().insert(picked_u));
            assert(out.deep_view().to_multiset().add(rest.deep_view().to_multiset())
                =~= orig.to_multiset());
        }
    }
    proof {
        assert(rest.deep_view().to_multiset() =~= Multiset::<UserView>::empty());
        assert(out.deep_view().to_multiset() =~= orig.to_multiset());
    }
    out
}

/// The ten users with the most completions, most first.
///
/// The listing is a prefix of some full ranking of all users: everyone
/// left out has at most as many completions as everyone listed.
pub fn top_players(store: &Store) -> (r: Vec<User>)
    ensures
        r.deep_view().len() == (if store@.users.len() < 10 {
            store@.users.len()
        } else {
            10nat
        }),
        exists|perm: Seq<UserView>|
            {
                &&& #[trigger] perm.to_multiset() == store@.users.to_multiset()
                &&& ranked_desc(store@.completed, perm)
                &&& r.deep_view() == perm.take(r.deep_view().len() as int)
            },
{
    let copy = clone_users(&store.users);
    let mut sorted = rank_users(store, copy);
    let ghost perm = sorted.deep_view();
    if sorted.len() > 10 {
        sorted.truncate(10);
        proof {
            assert(sorted.deep_view() =~= perm.take(10));
        }
    } else {
        proof {
            assert(sorted.deep_view() =~= perm.take(perm.len() as int));
        }
    }
    proof {
        assert(perm.to_multiset() == store@.users.to_multiset() && ranked_desc(
            store@.completed,
            perm,
        ) && sorted.deep_view() == perm.take(sorted.deep_view().len() as int));
    }
    sorted
}

/// The ten users of the given tier with the most completions, most first.
pub fn top_players_by_class(store: &Store, class: Class) -> (r: Vec<User>)
    ensures
        r.deep_view().len() == (if users_of_class(store@.users, class).len() < 10 {
            users_of_class(store@.users, class).len()
        } else {
            10nat
        }),
        exists|perm: Seq<UserView>|
            {
                &&& #[trigger] perm.to_multiset() == users_of_class(
                    store@.users,
                    class,
                ).to_multiset()
                &&& ranked_desc(store@.completed, perm)
                &&& r.deep_view() == perm.take(r.deep_view().len() as int)
            },
{
    let mut picked: Vec<User> = Vec::new();
    let n = store.users.len();
    let mut i: usize = 0;
    while i < n
        invariant
            n == store@.users.len(),
            i <= n,
            picked.deep_view() == users_of_class(store@.users.take(i as int), class),
        decreases n - i,
    {
        proof {
            assert(store@.users.take(i + 1) =~= store@.users.take(i as int).push(
                store@.users[i as int]));
            lemma_users_of_class_push(store@.users.take(i as int), store@.users[i as int], class);
        }
        if store.users[i].class == class {
            let u = store.users[i].clone();
            picked.push(u);
        }
        proof {
            assert(picked.deep_view() =~= users_of_class(store@.users.take(i + 1), class));
        }
        i = i + 1;
    }
    proof {
        assert(store@.users.take(n as int) =~= store@.users);
    }
    let mut sorted = rank_users(store, picked);
    let ghost perm = sorted.deep_view();
    if sorted.len() > 10 {
        sorted.truncate(10);
        proof {
            assert(sorted.deep_view() =~= perm.take(10));
        }
    } else {
        proof {
            assert(sorted.deep_view() =~= perm.take(perm.len() as int));
        }
    }
    proof {
        assert(perm.to_multiset() == users_of_class(store@.users, class).to_multiset()
            && ranked_desc(store@.completed, perm) && sorted.deep_view() == perm.take(
            sorted.deep_view().len() as int,
        ));
    }
    sorted
}

} // verus!
