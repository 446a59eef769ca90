use quest_board::class::Class;
use quest_board::recommend::{get_recommended, params_eq, task_params, Params};
use quest_board::task::Task;

fn task(id: i32, complexity: Class, hours: u32, tags: &[&str]) -> Task {
    Task {
        id,
        complexity,
        description: "q".to_string(),
        expected_time: hours,
        tags: tags.iter().map(|t| t.to_string()).collect(),
        assigned_to: None,
    }
}

fn params(complexity: i16, time: u32, tags: &[&str]) -> Params {
    Params {
        complexity,
        time,
        tags: tags.iter().map(|t| t.to_string()).collect(),
    }
}

#[test]
fn scorer_response_maps_back_to_input_positions() {
    // candidates: {C, 2h, {sql}}, {B, 5h, {sql, go}}, {A, 9h, {go}};
    // the scorer ranks {B, 5h, {sql, go}} then {C, 2h, {sql}}.
    let tasks = vec![
        task(1, Class::C, 2, &["sql"]),
        task(2, Class::B, 5, &["sql", "go"]),
        task(3, Class::A, 9, &["go"]),
    ];
    let response = vec![params(1, 5, &["sql", "go"]), params(0, 2, &["sql"])];
    // positions 1 and 0 match; they come back in candidate order
    assert_eq!(get_recommended(&tasks, &response), vec![0, 1]);
}

#[test]
fn empty_response_recommends_nothing() {
    let tasks = vec![task(1, Class::C, 2, &["sql"])];
    assert_eq!(get_recommended(&tasks, &vec![]), Vec::<usize>::new());
}

#[test]
fn unmatched_response_recommends_nothing() {
    let tasks = vec![task(1, Class::C, 2, &["sql"])];
    let response = vec![params(2, 9, &["rust"]), params(0, 2, &["sql", "extra"])];
    assert_eq!(get_recommended(&tasks, &response), Vec::<usize>::new());
}

#[test]
fn only_the_top_five_response_slots_count() {
    let tasks: Vec<Task> = (0..6).map(|i| task(i + 1, Class::C, i as u32, &["t"])).collect();
    // slot five (the sixth) names candidate 5; it is ignored
    let response: Vec<Params> = (0..6).map(|i| params(0, i as u32, &["t"])).collect();
    let rec = get_recommended(&tasks, &response);
    assert_eq!(rec, vec![0, 1, 2, 3, 4]);
    assert!(rec.len() <= 5);
    assert!(rec.iter().all(|&i| i < tasks.len()));
}

#[test]
fn identical_candidates_both_match_one_slot() {
    // two structurally identical candidates: the scorer cannot tell them
    // apart, so one ranked record claims both positions
    let tasks = vec![
        task(1, Class::B, 5, &["go"]),
        task(2, Class::B, 5, &["go"]),
        task(3, Class::A, 9, &[]),
    ];
    let response = vec![params(1, 5, &["go"])];
    assert_eq!(get_recommended(&tasks, &response), vec![0, 1]);
}

#[test]
fn repeated_response_slots_repeat_the_position() {
    let tasks = vec![task(1, Class::C, 2, &["sql"])];
    let response = vec![
        params(0, 2, &["sql"]),
        params(0, 2, &["sql"]),
        params(0, 2, &["sql"]),
    ];
    assert_eq!(get_recommended(&tasks, &response), vec![0, 0, 0]);
}

#[test]
fn task_params_render_the_wire_records() {
    let tasks = vec![task(7, Class::A, 9, &["go", "rust"]), task(8, Class::C, 0, &[])];
    let records = task_params(&tasks);
    assert_eq!(records.len(), 2);
    assert_eq!(records[0].complexity, 2);
    assert_eq!(records[0].time, 9);
    assert_eq!(records[0].tags, vec!["go".to_string(), "rust".to_string()]);
    assert_eq!(records[1].complexity, 0);
    assert_eq!(records[1].time, 0);
    assert!(records[1].tags.is_empty());
}

#[test]
fn record_equality_is_structural_and_order_sensitive() {
    let a = params(1, 5, &["sql", "go"]);
    assert!(params_eq(&a, &params(1, 5, &["sql", "go"])));
    assert!(!params_eq(&a, &params(2, 5, &["sql", "go"])));
    assert!(!params_eq(&a, &params(1, 4, &["sql", "go"])));
    assert!(!params_eq(&a, &params(1, 5, &["go", "sql"])));
    assert!(!params_eq(&a, &params(1, 5, &["sql"])));
}
