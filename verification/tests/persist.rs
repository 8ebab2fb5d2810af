use tasktrack::codec::from_json;
use tasktrack::codec::to_json;
use tasktrack::Database;
use tasktrack::Task;
use tasktrack::TaskState;

fn sample_task(desc: &str, state: TaskState, created: u64, updated: u64) -> Task {
    Task {
        desc: String::from(desc),
        state,
        created_at: created,
        last_updated: updated,
    }
}

#[test]
fn empty_store_renders_exactly() {
    let db = Database::new();
    assert_eq!(to_json(&db), "{\n    \"tasks\": {},\n    \"ptr\": 0\n}");
}

#[test]
fn one_entry_renders_exactly() {
    let db = Database {
        tasks: vec![(
            String::from("1"),
            sample_task("buy milk", TaskState::Done, 5, 9),
        )],
        ptr: 1,
    };
    let expected = "{\n    \"tasks\": {\n        \"1\": {\n            \"desc\": \"buy milk\",\n            \"state\": 2,\n            \"createdAt\": 5,\n            \"lastUpdated\": 9\n        }\n    },\n    \"ptr\": 1\n}";
    assert_eq!(to_json(&db), expected);
}

#[test]
fn empty_store_text_parses_back() {
    let db = from_json("{\n    \"tasks\": {},\n    \"ptr\": 0\n}").unwrap();
    assert_eq!(db.ptr, 0);
    let (pairs, _) = db.kv();
    assert!(pairs.is_empty());
}

#[test]
fn save_load_save_is_byte_identical() {
    let mut db = Database::new();
    db.add_task(String::from("buy milk"));
    db.add_task(String::from("write spec"));
    db.change_task_state(2, String::from("1"));
    db.add_task_with_id(String::from("extra"), String::from("by-hand"));
    let first = to_json(&db);
    let reloaded = from_json(&first).unwrap();
    let second = to_json(&reloaded);
    assert_eq!(first, second);
    let reloaded_again = from_json(&second).unwrap();
    assert_eq!(to_json(&reloaded_again), first);
}

#[test]
fn descriptions_with_quotes_and_backslashes_round_trip() {
    let db = Database {
        tasks: vec![
            (
                String::from("q\"uote"),
                sample_task("say \"hi\"", TaskState::Todo, 1, 2),
            ),
            (
                String::from("back\\slash"),
                sample_task("a\\b\\\\c", TaskState::InProgress, 3, 3),
            ),
        ],
        ptr: 7,
    };
    let text = to_json(&db);
    let back = from_json(&text).unwrap();
    assert_eq!(to_json(&back), text);
    let (pairs, _) = back.kv();
    assert_eq!(pairs[0].0, "q\"uote");
    assert_eq!(pairs[0].1, "say \"hi\"");
    assert_eq!(pairs[1].0, "back\\slash");
    assert_eq!(pairs[1].1, "a\\b\\\\c");
    assert_eq!(back.ptr, 7);
}

#[test]
fn parsed_values_match_rendered_store() {
    let db = Database {
        tasks: vec![
            (String::from("1"), sample_task("one", TaskState::Done, 10, 20)),
            (String::from("2"), sample_task("two", TaskState::Todo, 30, 30)),
        ],
        ptr: 2,
    };
    let back = from_json(&to_json(&db)).unwrap();
    let (done, _) = back.filt_kv(String::from("done"));
    assert_eq!(done.len(), 1);
    assert_eq!(done[0].0, "1");
    assert_eq!(done[0].1, "one");
}

#[test]
fn malformed_texts_are_refused() {
    assert!(from_json("").is_err());
    assert!(from_json("{}").is_err());
    assert!(from_json("not json at all").is_err());
    // other spacing than the canonical pretty-print
    assert!(from_json("{\"tasks\": {}, \"ptr\": 0}").is_err());
    // trailing garbage
    assert!(from_json("{\n    \"tasks\": {},\n    \"ptr\": 0\n} ").is_err());
    // missing the counter
    assert!(from_json("{\n    \"tasks\": {}\n}").is_err());
    // a leading zero is not canonical
    assert!(from_json("{\n    \"tasks\": {},\n    \"ptr\": 00\n}").is_err());
}

#[test]
fn bad_field_values_are_refused() {
    let with_state = |code: &str| {
        format!(
            "{{\n    \"tasks\": {{\n        \"1\": {{\n            \"desc\": \"d\",\n            \"state\": {},\n            \"createdAt\": 5,\n            \"lastUpdated\": 9\n        }}\n    }},\n    \"ptr\": 1\n}}",
            code
        )
    };
    assert!(from_json(&with_state("2")).is_ok());
    // a state code above 2 names no state
    assert!(from_json(&with_state("3")).is_err());
    // an update before the creation
    let twisted = with_state("2").replace("\"createdAt\": 5", "\"createdAt\": 10");
    assert!(from_json(&twisted).is_err());
    // an empty identifier
    let unnamed = with_state("2").replace("\"1\":", "\"\":");
    assert!(from_json(&unnamed).is_err());
    // the same identifier twice
    let once = with_state("2");
    let entry_start = once.find("        \"1\"").unwrap();
    let entry_end = once.find("\n    },").unwrap();
    let entry = &once[entry_start..entry_end];
    let doubled = once.replace(entry, &format!("{},\n{}", entry, entry));
    assert!(from_json(&doubled).is_err());
}
