use todo::CompleteOutcome;
use todo::ListOutcome;
use todo::NewOutcome;
use todo::ToDoItem;
use todo::complete_core;
use todo::list_core;
use todo::new_core;
use todo::parse_todo_list;
use todo::todo_list_to_json;

fn item(id: i32, text: &str, done: bool, created: i64, completed: Option<i64>) -> ToDoItem {
    ToDoItem { id, text: text.to_owned(), done, created_date: created, completed_date: completed }
}

fn assert_items_equal(a: &ToDoItem, b: &ToDoItem) {
    assert_eq!(a.id, b.id);
    assert_eq!(a.text, b.text);
    assert_eq!(a.done, b.done);
    assert_eq!(a.created_date, b.created_date);
    assert_eq!(a.completed_date, b.completed_date);
}

#[test]
fn serializes_one_item_exactly() {
    let list = vec![item(1, "Buy milk", false, 1640995200, None)];
    assert_eq!(
        todo_list_to_json(&list),
        "[{\"id\":1,\"text\":\"Buy milk\",\"done\":false,\"created_date\":1640995200,\"completed_date\":null}]"
    );
}

#[test]
fn serializes_empty_list() {
    assert_eq!(todo_list_to_json(&Vec::new()), "[]");
}

#[test]
fn serializes_done_item_with_completion_date() {
    let list = vec![item(12, "x", true, 100, Some(200))];
    assert_eq!(
        todo_list_to_json(&list),
        "[{\"id\":12,\"text\":\"x\",\"done\":true,\"created_date\":100,\"completed_date\":200}]"
    );
}

#[test]
fn escaping_matches_reference_json_writer() {
    let text = "say \"hi\"\n\tok\u{1f600}é\u{1}\u{8}\u{c}\r";
    let list = vec![item(3, text, false, -62135596800, None)];
    let escaped =
        serde_json::to_string(&serde_json::Value::String(text.to_owned())).unwrap();
    let expected = format!(
        "[{{\"id\":3,\"text\":{},\"done\":false,\"created_date\":-62135596800,\"completed_date\":null}}]",
        escaped
    );
    assert_eq!(todo_list_to_json(&list), expected);
}

#[test]
fn round_trip_keeps_every_field() {
    let list = vec![
        item(1, "Walk the dog", false, 1640995200, None),
        item(2, "quotes \" and \\ slashes", true, -5, Some(1700000000)),
        item(900, "tabs\tnewlines\nbell\u{7}controls\u{1f}", false, 0, None),
        item(-3, "unicode: grüße 你好 🎉", true, 1234567890, Some(1234567899)),
    ];
    let text = todo_list_to_json(&list);
    let back = parse_todo_list(&text).expect("canonical text must parse");
    assert_eq!(back.len(), list.len());
    for (a, b) in list.iter().zip(back.iter()) {
        assert_items_equal(a, b);
    }
}

#[test]
fn round_trip_empty_list() {
    let back = parse_todo_list("[]").expect("empty list parses");
    assert!(back.is_empty());
}

#[test]
fn parse_rejects_damaged_storage() {
    assert!(parse_todo_list("").is_err());
    assert!(parse_todo_list("not json").is_err());
    assert!(parse_todo_list("[").is_err());
    assert!(parse_todo_list("{}").is_err());
    assert!(parse_todo_list("[]extra").is_err());
    // a leading zero is not a storage integer
    assert!(
        parse_todo_list(
            "[{\"id\":01,\"text\":\"a\",\"done\":false,\"created_date\":0,\"completed_date\":null}]"
        )
        .is_err()
    );
    // truncated object
    assert!(parse_todo_list("[{\"id\":1,\"text\":\"a\",\"done\":false").is_err());
    // an id beyond i32 is refused
    assert!(
        parse_todo_list(
            "[{\"id\":2147483648,\"text\":\"a\",\"done\":false,\"created_date\":0,\"completed_date\":null}]"
        )
        .is_err()
    );
}

#[test]
fn parse_ignores_whitespace_outside_strings() {
    let empty = parse_todo_list("[ ]").expect("a spaced empty array reads");
    assert!(empty.is_empty());
    assert!(parse_todo_list(" \t[]\n").expect("padding around the array reads").is_empty());
    let spaced =
        "[{\"id\": 1,\"text\":\"a\",\"done\":false,\"created_date\":0,\"completed_date\":null}]";
    let back = parse_todo_list(spaced).expect("a spaced field reads");
    assert_eq!(back[0].id, 1);
    let pretty = "[\n  {\n    \"id\": 2,\n    \"text\": \"a b\",\n    \"done\": true,\n    \"created_date\": 5,\n    \"completed_date\": 9\n  }\n]\n";
    let items = parse_todo_list(pretty).expect("a pretty-printed file reads");
    assert_eq!(items.len(), 1);
    assert_eq!(items[0].id, 2);
    // whitespace inside the text is content, not formatting
    assert_eq!(items[0].text, "a b");
    assert!(items[0].done);
    assert_eq!(items[0].completed_date, Some(9));
}

#[test]
fn parse_accepts_what_the_tool_writes() {
    let text = "[{\"id\":1,\"text\":\"a\",\"done\":false,\"created_date\":0,\"completed_date\":null},{\"id\":2,\"text\":\"b\",\"done\":true,\"created_date\":5,\"completed_date\":9}]";
    let back = parse_todo_list(text).expect("parses");
    assert_eq!(back.len(), 2);
    assert_eq!(back[0].id, 1);
    assert_eq!(back[1].completed_date, Some(9));
    assert_eq!(todo_list_to_json(&back), text);
}

#[test]
fn renders_open_item_without_details() {
    let it = item(1, "Walk the dog", false, 1640995200, None);
    assert_eq!(it.to_string(false), "  1. [ ] Walk the dog ");
}

#[test]
fn renders_done_marker_and_wide_id() {
    let it = item(12345, "wide", true, 0, Some(1));
    assert_eq!(it.to_string(false), "12345. [X] wide ");
    let it2 = item(42, "padded", false, 0, None);
    assert_eq!(it2.to_string(false), " 42. [ ] padded ");
}

#[test]
fn verbose_rendering_appends_parenthesized_details() {
    let open_item = item(1, "a", false, 1640995200, None);
    let line = open_item.to_string(true);
    assert!(line.starts_with("  1. [ ] a (created: "));
    assert!(line.ends_with(")"));
    assert!(!line.contains(" completed: "));
    let done_item = item(1, "a", true, 1640995200, Some(1641000000));
    let line2 = done_item.to_string(true);
    assert!(line2.contains(" completed: "));
}

#[test]
fn new_fails_without_storage_file() {
    // init creates only the vestigial text file, never the real storage,
    // so the first add after a fresh init still finds no storage
    match new_core(&None, "Buy milk".to_owned()) {
        NewOutcome::NoStorage => {},
        _ => panic!("expected the missing-storage outcome"),
    }
}

#[test]
fn new_rejects_unreadable_storage() {
    match new_core(&Some("oops".to_owned()), "a".to_owned()) {
        NewOutcome::Corrupt => {},
        _ => panic!("expected the corrupt outcome"),
    }
}

#[test]
fn first_item_gets_id_one() {
    match new_core(&Some("[]".to_owned()), "Buy milk".to_owned()) {
        NewOutcome::Saved { id, contents } => {
            assert_eq!(id, 1);
            let back = parse_todo_list(&contents).unwrap();
            assert_eq!(back.len(), 1);
            assert_eq!(back[0].id, 1);
            assert_eq!(back[0].text, "Buy milk");
            assert!(!back[0].done);
            assert_eq!(back[0].completed_date, None);
            assert!(back[0].created_date >= todo::TS_MIN && back[0].created_date <= todo::TS_MAX);
        },
        _ => panic!("expected the saved outcome"),
    }
}

#[test]
fn next_id_is_max_plus_one_despite_gaps() {
    let list = vec![item(7, "a", false, 0, None), item(3, "b", true, 0, Some(1))];
    let stored = todo_list_to_json(&list);
    match new_core(&Some(stored), "c".to_owned()) {
        NewOutcome::Saved { id, contents } => {
            assert_eq!(id, 8);
            let back = parse_todo_list(&contents).unwrap();
            assert_eq!(back.len(), 3);
            assert_eq!(back[2].id, 8);
        },
        _ => panic!("expected the saved outcome"),
    }
}

#[test]
fn next_id_follows_a_negative_maximum() {
    let stored = todo_list_to_json(&vec![item(-5, "a", false, 0, None)]);
    match new_core(&Some(stored), "b".to_owned()) {
        NewOutcome::Saved { id, .. } => assert_eq!(id, -4),
        _ => panic!("expected the saved outcome"),
    }
}

#[test]
fn new_reports_exhausted_ids() {
    let list = vec![item(i32::MAX, "a", false, 0, None)];
    let stored = todo_list_to_json(&list);
    match new_core(&Some(stored), "b".to_owned()) {
        NewOutcome::IdOverflow => {},
        _ => panic!("expected the exhausted-ids outcome"),
    }
}

#[test]
fn complete_marks_exactly_one_item_and_only_once() {
    let list = vec![
        item(1, "first", false, 10, None),
        item(2, "second", false, 20, None),
        item(2, "second again", false, 30, None),
    ];
    let stored = todo_list_to_json(&list);
    let contents = match complete_core(&Some(stored), 2) {
        CompleteOutcome::Completed { text, contents } => {
            assert_eq!(text, "second");
            contents
        },
        _ => panic!("expected the completed outcome"),
    };
    let back = parse_todo_list(&contents).unwrap();
    assert!(!back[0].done);
    assert!(back[1].done);
    assert!(back[1].completed_date.is_some());
    assert!(!back[2].done);
    assert_eq!(back[2].completed_date, None);
    // the first open item with the id is now done; the next call finds the other
    let contents2 = match complete_core(&Some(contents), 2) {
        CompleteOutcome::Completed { text, contents } => {
            assert_eq!(text, "second again");
            contents
        },
        _ => panic!("expected the completed outcome"),
    };
    // with both done, the id no longer names an open item
    match complete_core(&Some(contents2), 2) {
        CompleteOutcome::NotFound => {},
        _ => panic!("expected the not-found outcome"),
    }
}

#[test]
fn complete_missing_id_reports_not_found() {
    let stored = todo_list_to_json(&vec![item(1, "a", false, 0, None)]);
    match complete_core(&Some(stored), 9) {
        CompleteOutcome::NotFound => {},
        _ => panic!("expected the not-found outcome"),
    }
}

#[test]
fn complete_without_storage_reports_it() {
    match complete_core(&None, 1) {
        CompleteOutcome::NoStorage => {},
        _ => panic!("expected the missing-storage outcome"),
    }
}

#[test]
fn list_hides_done_items_by_default() {
    let list = vec![
        item(1, "open", false, 0, None),
        item(2, "closed", true, 0, Some(1)),
        item(3, "also open", false, 0, None),
    ];
    let stored = todo_list_to_json(&list);
    match list_core(&Some(stored), false, false) {
        ListOutcome::Lines(lines) => {
            assert_eq!(lines, vec!["  1. [ ] open ", "  3. [ ] also open "]
                .into_iter()
                .map(|s| s.to_owned())
                .collect::<Vec<String>>());
        },
        _ => panic!("expected lines"),
    }
}

#[test]
fn list_all_shows_done_items_too() {
    let list = vec![item(1, "open", false, 0, None), item(2, "closed", true, 0, Some(1))];
    let stored = todo_list_to_json(&list);
    match list_core(&Some(stored), true, false) {
        ListOutcome::Lines(lines) => {
            assert_eq!(lines.len(), 2);
            assert_eq!(lines[1], "  2. [X] closed ");
        },
        _ => panic!("expected lines"),
    }
}

#[test]
fn list_reports_missing_and_corrupt_storage() {
    match list_core(&None, false, false) {
        ListOutcome::NoStorage => {},
        _ => panic!("expected the missing-storage outcome"),
    }
    match list_core(&Some("{bad".to_owned()), false, false) {
        ListOutcome::Corrupt => {},
        _ => panic!("expected the corrupt outcome"),
    }
}

#[test]
fn negative_id_and_timestamps_round_trip() {
    let list = vec![item(-2147483648, "edge", false, -8334601142400, Some(8210266790399))];
    let text = todo_list_to_json(&list);
    let back = parse_todo_list(&text).unwrap();
    assert_items_equal(&list[0], &back[0]);
}

#[test]
fn parse_rejects_timestamps_no_datetime_can_hold() {
    let text = "[{\"id\":1,\"text\":\"a\",\"done\":false,\"created_date\":9000000000000,\"completed_date\":null}]";
    assert!(parse_todo_list(text).is_err());
}
