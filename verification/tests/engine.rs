use quest_board::assignment::{claim, release};
use quest_board::class::Class;
use quest_board::completion::complete;
use quest_board::error::EngineError;
use quest_board::store::Store;
use quest_board::task::TaskCreateData;
use quest_board::task_store::{
    assigned_to, create as create_task, delete, get_assigned, get_available, get_avg_complexity,
    get_avg_duration, get_count, get_tags,
};
use quest_board::user::User;
use quest_board::user_store::{
    create as create_user, get, get_by_login, login_exists, top_players, top_players_by_class,
};

fn data(complexity: Class, expected_time: u32, tags: &[&str]) -> TaskCreateData {
    TaskCreateData {
        complexity,
        expected_time,
        tags: tags.iter().map(|t| t.to_string()).collect(),
        description: "a quest".to_string(),
    }
}

fn signup(store: &mut Store, login: &str) -> i32 {
    let u = User {
        id: 0,
        login: login.to_string(),
        name: login.to_string(),
        pw_hash: "hash".to_string(),
        class: Class::A,
        is_admin: true,
        tags: vec!["ignored".to_string()],
    };
    create_user(store, u).unwrap().id
}

#[test]
fn task_creation_assigns_sequential_ids() {
    let mut s = Store::new();
    let t1 = create_task(&mut s, &data(Class::C, 2, &["sql"])).unwrap();
    let t2 = create_task(&mut s, &data(Class::B, 5, &["sql", "go"])).unwrap();
    assert_eq!(t1.id, 1);
    assert_eq!(t2.id, 2);
    assert_eq!(t1.complexity, Class::C);
    assert_eq!(t1.expected_time, 2);
    assert_eq!(t1.tags, vec!["sql".to_string()]);
    assert!(t1.assigned_to.is_none());
    assert_eq!(t1.description.as_str(), "a quest");
}

#[test]
fn available_lists_unowned_unfinished_in_creation_order() {
    let mut s = Store::new();
    let u = signup(&mut s, "alice");
    let t1 = create_task(&mut s, &data(Class::C, 2, &["sql"])).unwrap().id;
    let t2 = create_task(&mut s, &data(Class::B, 5, &["go"])).unwrap().id;
    let t3 = create_task(&mut s, &data(Class::A, 9, &["rust"])).unwrap().id;
    claim(&mut s, t2, u).unwrap();
    claim(&mut s, t3, u).unwrap();
    complete(&mut s, t3, u).unwrap();
    let avail: Vec<i32> = get_available(&s).iter().map(|t| t.id).collect();
    assert_eq!(avail, vec![t1]);
    let t4 = create_task(&mut s, &data(Class::C, 1, &[])).unwrap().id;
    let avail: Vec<i32> = get_available(&s).iter().map(|t| t.id).collect();
    assert_eq!(avail, vec![t1, t4]);
    let in_progress: Vec<i32> = get_assigned(&s, u).iter().map(|t| t.id).collect();
    assert_eq!(in_progress, vec![t2]);
}

#[test]
fn claim_is_exclusive_and_idempotent() {
    let mut s = Store::new();
    let u1 = signup(&mut s, "alice");
    let u2 = signup(&mut s, "bob");
    let t = create_task(&mut s, &data(Class::C, 2, &[])).unwrap().id;
    assert_eq!(claim(&mut s, t, u1), Ok(()));
    assert_eq!(claim(&mut s, t, u2), Err(EngineError::AlreadyOwnedByOther));
    assert_eq!(claim(&mut s, t, u1), Ok(()));
    assert_eq!(assigned_to(&s, t), Ok(Some(u1)));
}

#[test]
fn claim_rejects_missing_and_finished_tasks() {
    let mut s = Store::new();
    let u = signup(&mut s, "alice");
    assert_eq!(claim(&mut s, 42, u), Err(EngineError::NotFound));
    let t = create_task(&mut s, &data(Class::C, 2, &[])).unwrap().id;
    claim(&mut s, t, u).unwrap();
    complete(&mut s, t, u).unwrap();
    assert_eq!(claim(&mut s, t, u), Err(EngineError::AlreadyCompleted));
}

#[test]
fn release_returns_a_task_to_the_board() {
    let mut s = Store::new();
    let u = signup(&mut s, "alice");
    let t = create_task(&mut s, &data(Class::C, 2, &[])).unwrap().id;
    claim(&mut s, t, u).unwrap();
    assert_eq!(release(&mut s, t, u), Ok(()));
    assert_eq!(assigned_to(&s, t), Ok(None));
    let avail: Vec<i32> = get_available(&s).iter().map(|t| t.id).collect();
    assert_eq!(avail, vec![t]);
}

#[test]
fn release_rejects_non_owner_unclaimed_finished_and_missing() {
    let mut s = Store::new();
    let u1 = signup(&mut s, "alice");
    let u2 = signup(&mut s, "bob");
    let t = create_task(&mut s, &data(Class::C, 2, &[])).unwrap().id;
    assert_eq!(release(&mut s, t, u1), Err(EngineError::NotClaimed));
    claim(&mut s, t, u1).unwrap();
    assert_eq!(release(&mut s, t, u2), Err(EngineError::NotOwner));
    complete(&mut s, t, u1).unwrap();
    assert_eq!(release(&mut s, t, u1), Err(EngineError::AlreadyCompleted));
    assert_eq!(release(&mut s, 42, u1), Err(EngineError::NotFound));
}

#[test]
fn completion_succeeds_once_then_reports_already_completed() {
    let mut s = Store::new();
    let u = signup(&mut s, "alice");
    let t = create_task(&mut s, &data(Class::C, 2, &[])).unwrap().id;
    claim(&mut s, t, u).unwrap();
    assert_eq!(complete(&mut s, t, u), Ok(()));
    assert_eq!(get_count(&s, u), 1);
    assert_eq!(complete(&mut s, t, u), Err(EngineError::AlreadyCompleted));
    assert_eq!(get_count(&s, u), 1);
}

#[test]
fn completion_requires_current_ownership() {
    let mut s = Store::new();
    let u1 = signup(&mut s, "alice");
    let u2 = signup(&mut s, "bob");
    let t = create_task(&mut s, &data(Class::C, 2, &[])).unwrap().id;
    assert_eq!(complete(&mut s, t, u1), Err(EngineError::NotOwner));
    claim(&mut s, t, u1).unwrap();
    assert_eq!(complete(&mut s, t, u2), Err(EngineError::NotOwner));
    assert_eq!(complete(&mut s, 42, u1), Err(EngineError::NotFound));
    assert_eq!(complete(&mut s, t, 42), Err(EngineError::NotFound));
    assert_eq!(get_count(&s, u1), 0);
}

#[test]
fn completion_unions_tags_without_duplicates() {
    let mut s = Store::new();
    let u = signup(&mut s, "alice");
    let t1 = create_task(&mut s, &data(Class::C, 2, &["sql", "go"])).unwrap().id;
    let t2 = create_task(&mut s, &data(Class::B, 5, &["go", "rust", "go"])).unwrap().id;
    claim(&mut s, t1, u).unwrap();
    complete(&mut s, t1, u).unwrap();
    assert_eq!(get(&s, u).unwrap().tags, vec!["sql".to_string(), "go".to_string()]);
    claim(&mut s, t2, u).unwrap();
    complete(&mut s, t2, u).unwrap();
    assert_eq!(
        get(&s, u).unwrap().tags,
        vec!["sql".to_string(), "go".to_string(), "rust".to_string()]
    );
}

#[test]
fn assigned_to_distinguishes_unowned_from_missing() {
    let mut s = Store::new();
    let u = signup(&mut s, "alice");
    let t = create_task(&mut s, &data(Class::C, 2, &[])).unwrap().id;
    assert_eq!(assigned_to(&s, t), Ok(None));
    assert_eq!(assigned_to(&s, 42), Err(EngineError::NotFound));
    claim(&mut s, t, u).unwrap();
    assert_eq!(assigned_to(&s, t), Ok(Some(u)));
}

#[test]
fn tags_lookup_and_deletion() {
    let mut s = Store::new();
    let t = create_task(&mut s, &data(Class::C, 2, &["sql", "go"])).unwrap().id;
    assert_eq!(get_tags(&s, t).unwrap(), vec!["sql".to_string(), "go".to_string()]);
    assert_eq!(get_tags(&s, 42), Err(EngineError::NotFound));
    assert_eq!(delete(&mut s, t), Ok(()));
    assert_eq!(get_tags(&s, t), Err(EngineError::NotFound));
    assert_eq!(delete(&mut s, t), Err(EngineError::NotFound));
}

#[test]
fn completion_facts_survive_task_deletion() {
    let mut s = Store::new();
    let u = signup(&mut s, "alice");
    let t = create_task(&mut s, &data(Class::B, 5, &[])).unwrap().id;
    claim(&mut s, t, u).unwrap();
    complete(&mut s, t, u).unwrap();
    delete(&mut s, t).unwrap();
    assert_eq!(get_count(&s, u), 1);
}

#[test]
fn signup_enforces_unique_logins() {
    let mut s = Store::new();
    let id = signup(&mut s, "alice");
    assert_eq!(id, 1);
    let created = get(&s, id).unwrap();
    assert_eq!(created.class, Class::C);
    assert!(!created.is_admin);
    assert!(created.tags.is_empty());
    assert_eq!(created.login.as_str(), "alice");
    let dup = User {
        id: 0,
        login: "alice".to_string(),
        name: "other".to_string(),
        pw_hash: "h".to_string(),
        class: Class::C,
        is_admin: false,
        tags: vec![],
    };
    match create_user(&mut s, dup) {
        Err(EngineError::StorageError) => {},
        other => panic!("expected a storage error, got {:?}", other),
    }
    assert!(login_exists(&s, &"alice".to_string()));
    assert!(!login_exists(&s, &"bob".to_string()));
    assert_eq!(get_by_login(&s, &"alice".to_string()).unwrap().id, 1);
    match get_by_login(&s, &"bob".to_string()) {
        Err(EngineError::NotFound) => {},
        other => panic!("expected not found, got {:?}", other),
    }
    match get(&s, 9) {
        Err(EngineError::NotFound) => {},
        other => panic!("expected not found, got {:?}", other),
    }
}

#[test]
fn top_players_rank_by_completion_count() {
    let mut s = Store::new();
    let alice = signup(&mut s, "alice");
    let bob = signup(&mut s, "bob");
    let carol = signup(&mut s, "carol");
    for _ in 0..2 {
        let t = create_task(&mut s, &data(Class::C, 1, &[])).unwrap().id;
        claim(&mut s, t, bob).unwrap();
        complete(&mut s, t, bob).unwrap();
    }
    let t = create_task(&mut s, &data(Class::C, 1, &[])).unwrap().id;
    claim(&mut s, t, carol).unwrap();
    complete(&mut s, t, carol).unwrap();
    let ranked: Vec<i32> = top_players(&s).iter().map(|u| u.id).collect();
    assert_eq!(ranked, vec![bob, carol, alice]);
    let ranked_c: Vec<i32> = top_players_by_class(&s, Class::C).iter().map(|u| u.id).collect();
    assert_eq!(ranked_c, vec![bob, carol, alice]);
    assert!(top_players_by_class(&s, Class::A).is_empty());
}

#[test]
fn top_players_caps_at_ten() {
    let mut s = Store::new();
    for i in 0..12 {
        signup(&mut s, &format!("user{}", i));
    }
    assert_eq!(top_players(&s).len(), 10);
}

#[test]
fn averages_report_exact_sums_and_counts() {
    let mut s = Store::new();
    let u = signup(&mut s, "alice");
    assert_eq!(get_avg_complexity(&s, u), None);
    assert_eq!(get_avg_duration(&s, u), None);
    let t1 = create_task(&mut s, &data(Class::B, 5, &[])).unwrap().id;
    let t2 = create_task(&mut s, &data(Class::A, 9, &[])).unwrap().id;
    for t in [t1, t2] {
        claim(&mut s, t, u).unwrap();
        complete(&mut s, t, u).unwrap();
    }
    assert_eq!(get_avg_complexity(&s, u), Some((3, 2)));
    assert_eq!(get_avg_duration(&s, u), Some((14, 2)));
}
