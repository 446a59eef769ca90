use quest_board::assignment::claim;
use quest_board::class::Class;
use quest_board::completion::complete;
use quest_board::error::EngineError;
use quest_board::store::Store;
use quest_board::task::TaskCreateData;
use quest_board::task_store::create as create_task;
use quest_board::user::User;
use quest_board::user_store::{
    add_tags, create as create_user, estimate_class, get, set_class,
};

fn signup(store: &mut Store, login: &str) -> i32 {
    let u = User {
        id: 0,
        login: login.to_string(),
        name: login.to_string(),
        pw_hash: "hash".to_string(),
        class: Class::C,
        is_admin: false,
        tags: vec![],
    };
    create_user(store, u).unwrap().id
}

fn finish_tasks(store: &mut Store, user_id: i32, n: usize, complexity: Class) {
    for _ in 0..n {
        let t = create_task(
            store,
            &TaskCreateData {
                complexity,
                expected_time: 1,
                tags: vec![],
                description: "q".to_string(),
            },
        )
        .unwrap()
        .id;
        claim(store, t, user_id).unwrap();
        complete(store, t, user_id).unwrap();
    }
}

#[test]
fn ninth_completion_leaves_class_tenth_calibrates() {
    let mut s = Store::new();
    let u = signup(&mut s, "alice");
    finish_tasks(&mut s, u, 9, Class::A);
    assert_eq!(get(&s, u).unwrap().class, Class::C);
    finish_tasks(&mut s, u, 1, Class::A);
    assert_eq!(get(&s, u).unwrap().class, Class::A);
}

#[test]
fn calibration_rounds_half_away_from_zero() {
    let mut s = Store::new();
    let u = signup(&mut s, "alice");
    // five C (code 0) and five B (code 1): mean 0.5 rounds up to B
    finish_tasks(&mut s, u, 5, Class::C);
    finish_tasks(&mut s, u, 5, Class::B);
    assert_eq!(get(&s, u).unwrap().class, Class::B);
}

#[test]
fn calibration_rounds_down_below_half() {
    let mut s = Store::new();
    let u = signup(&mut s, "alice");
    // four B (code 1) among ten: mean 0.4 stays C
    finish_tasks(&mut s, u, 4, Class::B);
    finish_tasks(&mut s, u, 6, Class::C);
    assert_eq!(get(&s, u).unwrap().class, Class::C);
}

#[test]
fn calibration_runs_again_at_every_tenth() {
    let mut s = Store::new();
    let u = signup(&mut s, "alice");
    finish_tasks(&mut s, u, 10, Class::A);
    assert_eq!(get(&s, u).unwrap().class, Class::A);
    // ten more C completions: mean over all twenty is 1.0
    finish_tasks(&mut s, u, 10, Class::C);
    assert_eq!(get(&s, u).unwrap().class, Class::B);
}

#[test]
fn estimate_formula_exact_values() {
    assert_eq!(estimate_class(0, 0), Class::C);
    assert_eq!(estimate_class(0, 10), Class::C);
    assert_eq!(estimate_class(4, 10), Class::C);
    assert_eq!(estimate_class(5, 10), Class::B);
    assert_eq!(estimate_class(14, 10), Class::B);
    assert_eq!(estimate_class(15, 10), Class::A);
    assert_eq!(estimate_class(20, 10), Class::A);
    // values past the scale clamp to the top tier
    assert_eq!(estimate_class(25, 10), Class::A);
}

#[test]
fn set_class_overwrites_the_tier() {
    let mut s = Store::new();
    let u = signup(&mut s, "alice");
    assert_eq!(set_class(&mut s, u, Class::B), Ok(()));
    assert_eq!(get(&s, u).unwrap().class, Class::B);
    assert_eq!(set_class(&mut s, 42, Class::A), Err(EngineError::NotFound));
}

#[test]
fn add_tags_unions_in_first_appearance_order() {
    let mut s = Store::new();
    let u = signup(&mut s, "alice");
    add_tags(&mut s, u, &vec!["a".to_string(), "b".to_string()]).unwrap();
    add_tags(&mut s, u, &vec!["b".to_string(), "c".to_string(), "c".to_string()]).unwrap();
    assert_eq!(
        get(&s, u).unwrap().tags,
        vec!["a".to_string(), "b".to_string(), "c".to_string()]
    );
    assert_eq!(
        add_tags(&mut s, 42, &vec!["a".to_string()]),
        Err(EngineError::NotFound)
    );
}
