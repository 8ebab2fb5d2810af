use tasktrack::Database;
use tasktrack::Task;
use tasktrack::TaskState;

fn ids_and_descs(pairs: &[(String, String)]) -> Vec<(&str, &str)> {
    pairs.iter().map(|(a, b)| (a.as_str(), b.as_str())).collect()
}

#[test]
fn new_store_is_empty() {
    let db = Database::new();
    assert_eq!(db.ptr, 0);
    let (pairs, maxlen) = db.kv();
    assert!(pairs.is_empty());
    assert_eq!(maxlen, 0);
}

#[test]
fn auto_ids_increase_across_deletes() {
    let mut db = Database::new();
    assert_eq!(db.add_task(String::from("first")), "1");
    assert_eq!(db.ptr, 1);
    assert_eq!(db.add_task(String::from("second")), "2");
    assert_eq!(db.ptr, 2);
    assert!(db.delete_task(String::from("1")));
    assert!(db.delete_task(String::from("2")));
    assert_eq!(db.add_task(String::from("third")), "3");
    assert_eq!(db.ptr, 3);
    let (pairs, _) = db.kv();
    assert_eq!(ids_and_descs(&pairs), vec![("3", "third")]);
}

#[test]
fn add_with_same_id_overwrites() {
    let mut db = Database::new();
    db.add_task_with_id(String::from("a"), String::from("x"));
    db.add_task_with_id(String::from("b"), String::from("x"));
    let (pairs, maxlen) = db.kv();
    assert_eq!(ids_and_descs(&pairs), vec![("x", "b")]);
    assert_eq!(maxlen, 1);
    assert_eq!(db.ptr, 0);
}

#[test]
fn filter_by_state_after_marking_done() {
    let mut db = Database::new();
    db.add_task(String::from("one"));
    db.add_task(String::from("two"));
    db.change_task_state(2, String::from("1"));
    let (done, maxlen) = db.filt_kv(String::from("done"));
    assert_eq!(ids_and_descs(&done), vec![("1", "one")]);
    assert_eq!(maxlen, 1);
    let (todo, _) = db.filt_kv(String::from("todo"));
    assert_eq!(ids_and_descs(&todo), vec![("2", "two")]);
}

#[test]
fn filter_falls_back_to_exact_id() {
    let mut db = Database::new();
    db.add_task(String::from("one"));
    let (hit, maxlen) = db.filt_kv(String::from("1"));
    assert_eq!(ids_and_descs(&hit), vec![("1", "one")]);
    assert_eq!(maxlen, 1);
    let (miss, maxlen2) = db.filt_kv(String::from("nonexistent"));
    assert!(miss.is_empty());
    assert_eq!(maxlen2, 0);
}

#[test]
fn state_name_takes_precedence_over_id() {
    let mut db = Database::new();
    db.add_task_with_id(String::from("a task named done"), String::from("done"));
    db.change_task_state(0, String::from("done"));
    // "done" names a state, so the id fallback is never consulted
    let (hits, _) = db.filt_kv(String::from("done"));
    assert!(hits.is_empty());
}

#[test]
fn missing_id_mutations_are_silent_no_ops() {
    let mut db = Database::new();
    db.add_task(String::from("keep me"));
    let before = db.kv();
    db.update_task(String::from("x"), String::from("missing"));
    db.change_task_state(2, String::from("missing"));
    let after = db.kv();
    assert_eq!(before.0, after.0);
    assert_eq!(before.1, after.1);
    assert_eq!(db.ptr, 1);
}

#[test]
fn update_changes_description_in_place() {
    let mut db = Database::new();
    db.add_task(String::from("old words"));
    db.update_task(String::from("new words"), String::from("1"));
    let (pairs, _) = db.kv();
    assert_eq!(ids_and_descs(&pairs), vec![("1", "new words")]);
}

#[test]
fn delete_removes_and_reports() {
    let mut db = Database::new();
    db.add_task(String::from("one"));
    db.add_task(String::from("two"));
    assert!(db.delete_task(String::from("1")));
    let (pairs, _) = db.kv();
    assert_eq!(ids_and_descs(&pairs), vec![("2", "two")]);
    let (hit, _) = db.filt_kv(String::from("1"));
    assert!(hit.is_empty());
    assert!(!db.delete_task(String::from("1")));
    let (pairs2, _) = db.kv();
    assert_eq!(ids_and_descs(&pairs2), vec![("2", "two")]);
}

#[test]
fn kv_reports_longest_id_length() {
    let mut db = Database::new();
    db.add_task_with_id(String::from("a"), String::from("tiny"));
    db.add_task_with_id(String::from("b"), String::from("a much longer id"));
    let (pairs, maxlen) = db.kv();
    assert_eq!(pairs.len(), 2);
    assert_eq!(maxlen, "a much longer id".len());
}

#[test]
fn state_parsing_is_case_insensitive_and_total() {
    assert_eq!(TaskState::parse("todo"), Some(TaskState::Todo));
    assert_eq!(TaskState::parse("TODO"), Some(TaskState::Todo));
    assert_eq!(TaskState::parse("ToDo"), Some(TaskState::Todo));
    assert_eq!(TaskState::parse("in-progress"), Some(TaskState::InProgress));
    assert_eq!(TaskState::parse("IN_PROGRESS"), Some(TaskState::InProgress));
    assert_eq!(TaskState::parse("InProgress"), Some(TaskState::InProgress));
    assert_eq!(TaskState::parse("done"), Some(TaskState::Done));
    assert_eq!(TaskState::parse("DoNe"), Some(TaskState::Done));
    assert_eq!(TaskState::parse(""), None);
    assert_eq!(TaskState::parse("dones"), None);
    assert_eq!(TaskState::parse("in progress"), None);
    assert_eq!(TaskState::parse("1"), None);
}

#[test]
fn task_records_state_changes() {
    let mut t = Task::new(String::from("thing"));
    assert!(t.is_state(TaskState::Todo));
    assert_eq!(t.created_at, t.last_updated);
    t.change_state(1);
    assert!(t.is_state(TaskState::InProgress));
    t.change_state(2);
    assert!(t.is_state(TaskState::Done));
    t.change_state(0);
    assert!(t.is_state(TaskState::Todo));
    assert!(t.last_updated >= t.created_at);
    assert_eq!(t.desc(), "thing");
    t.update(String::from("other"));
    assert_eq!(t.desc(), "other");
    assert!(t.last_updated >= t.created_at);
}

#[test]
fn full_scenario_two_tasks() {
    let mut db = Database::new();
    assert_eq!(db.add_task(String::from("buy milk")), "1");
    assert_eq!(db.add_task(String::from("write spec")), "2");
    db.change_task_state(2, String::from("1"));
    let (done, _) = db.filt_kv(String::from("done"));
    assert_eq!(ids_and_descs(&done), vec![("1", "buy milk")]);
    let (todo, _) = db.filt_kv(String::from("todo"));
    assert_eq!(ids_and_descs(&todo), vec![("2", "write spec")]);
    let (all, maxlen) = db.kv();
    assert_eq!(
        ids_and_descs(&all),
        vec![("1", "buy milk"), ("2", "write spec")]
    );
    assert_eq!(maxlen, 1);
    assert_eq!(db.ptr, 2);
    let saved = tasktrack::codec::to_json(&db);
    assert!(saved.contains("\"ptr\": 2"));
}
