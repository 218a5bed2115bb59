use todo_list::json::{tasks_from_json, tasks_to_json};
use todo_list::task::TodoItem;

fn item(text: &str, completed: bool, due_date: Option<i64>) -> TodoItem {
    TodoItem { text: text.to_string(), completed, due_date }
}

fn same(a: &[TodoItem], b: &[TodoItem]) -> bool {
    a.len() == b.len()
        && a.iter().zip(b.iter()).all(|(x, y)| {
            x.text == y.text && x.completed == y.completed && x.due_date == y.due_date
        })
}

#[test]
fn empty_list_serializes_to_empty_array() {
    let items: Vec<TodoItem> = Vec::new();
    assert_eq!(tasks_to_json(&items), "[]");
    let back = tasks_from_json("[]").unwrap();
    assert!(back.is_empty());
}

#[test]
fn one_task_has_the_pretty_object_form() {
    let items = vec![item("buy milk", false, Some(1_705_363_199))];
    let expected = "[\n  {\n    \"text\": \"buy milk\",\n    \"completed\": false,\n    \"due_date\": 1705363199\n  }\n]";
    assert_eq!(tasks_to_json(&items), expected);
}

#[test]
fn null_due_date_and_true_flag() {
    let items = vec![item("done", true, None)];
    let expected = "[\n  {\n    \"text\": \"done\",\n    \"completed\": true,\n    \"due_date\": null\n  }\n]";
    assert_eq!(tasks_to_json(&items), expected);
}

#[test]
fn round_trip_reproduces_the_list() {
    let items = vec![
        item("plain", false, None),
        item("dated", false, Some(123_456)),
        item("negative", true, Some(-86_400)),
        item("extremes", false, Some(i64::MIN)),
        item("max", true, Some(i64::MAX)),
    ];
    let text = tasks_to_json(&items);
    let back = tasks_from_json(&text).unwrap();
    assert!(same(&items, &back));
}

#[test]
fn round_trip_keeps_escaped_characters() {
    let items = vec![
        item("say \"hi\"", false, None),
        item("a\\b\\\\c", true, Some(0)),
        item("quote at end\"", false, None),
        item("\\", true, None),
    ];
    let text = tasks_to_json(&items);
    let back = tasks_from_json(&text).unwrap();
    assert!(same(&items, &back));
}

#[test]
fn control_characters_are_escaped_as_json_asks() {
    let items = vec![item("a\tb\nc\u{1b}d", false, None)];
    let expected = "[\n  {\n    \"text\": \"a\\tb\\nc\\u001bd\",\n    \"completed\": false,\n    \"due_date\": null\n  }\n]";
    assert_eq!(tasks_to_json(&items), expected);
    let back = tasks_from_json(expected).unwrap();
    assert!(same(&items, &back));
}

#[test]
fn round_trip_keeps_control_characters() {
    let items = vec![
        item("tab\tand\nnewline", false, Some(1)),
        item("bell\u{7}form\u{c}feed\u{8}", true, None),
        item("escape\u{1b}[0m", false, None),
    ];
    let text = tasks_to_json(&items);
    let back = tasks_from_json(&text).unwrap();
    assert!(same(&items, &back));
}

#[test]
fn reader_accepts_unicode_escapes() {
    let text = "[\n  {\n    \"text\": \"\\u0041\\u00e9\\u00E9\\/\",\n    \"completed\": false,\n    \"due_date\": null\n  }\n]";
    let back = tasks_from_json(text).unwrap();
    assert_eq!(back[0].text, "A\u{e9}\u{e9}/");
}

#[test]
fn reader_refuses_bad_escapes() {
    let bad = "[\n  {\n    \"text\": \"\\q\",\n    \"completed\": false,\n    \"due_date\": null\n  }\n]";
    assert!(tasks_from_json(bad).is_none());
    let surrogate = "[\n  {\n    \"text\": \"\\ud800\",\n    \"completed\": false,\n    \"due_date\": null\n  }\n]";
    assert!(tasks_from_json(surrogate).is_none());
}

#[test]
fn round_trip_keeps_unicode_text() {
    let items = vec![item("牛乳を買う", false, Some(42)), item("café ☕", true, None)];
    let text = tasks_to_json(&items);
    let back = tasks_from_json(&text).unwrap();
    assert!(same(&items, &back));
}

#[test]
fn malformed_input_is_refused() {
    assert!(tasks_from_json("").is_none());
    assert!(tasks_from_json("not json").is_none());
    assert!(tasks_from_json("[").is_none());
    assert!(tasks_from_json("[]x").is_none());
    assert!(tasks_from_json("{\"text\": \"a\"}").is_none());
    // A due date beyond i64 range is refused rather than wrapped.
    let too_big = "[\n  {\n    \"text\": \"a\",\n    \"completed\": false,\n    \"due_date\": 9223372036854775808\n  }\n]";
    assert!(tasks_from_json(too_big).is_none());
}

#[test]
fn parser_reads_minimum_due_date() {
    let text = "[\n  {\n    \"text\": \"a\",\n    \"completed\": false,\n    \"due_date\": -9223372036854775808\n  }\n]";
    let back = tasks_from_json(text).unwrap();
    assert_eq!(back[0].due_date, Some(i64::MIN));
}
