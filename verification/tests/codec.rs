use task_list::codec::{load_contents, parse_tasks, serialize_tasks, ParseError};
use task_list::task::Task;

fn store(entries: &[(u32, &str, bool)]) -> Vec<Task> {
    entries
        .iter()
        .map(|(id, d, c)| Task::new(*id, d.to_string(), *c))
        .collect()
}

fn assert_same(a: &[Task], b: &[Task]) {
    assert_eq!(a.len(), b.len());
    for (x, y) in a.iter().zip(b.iter()) {
        assert_eq!(x.id, y.id);
        assert_eq!(x.description, y.description);
        assert_eq!(x.completed, y.completed);
    }
}

#[test]
fn serialize_empty_store() {
    let tasks: Vec<Task> = Vec::new();
    assert_eq!(serialize_tasks(&tasks), "[]");
}

#[test]
fn serialize_one_task_exactly() {
    let tasks = store(&[(1, "x", false)]);
    let expected = "[\n  {\n    \"id\": 1,\n    \"description\": \"x\",\n    \"completed\": false\n  }\n]";
    assert_eq!(serialize_tasks(&tasks), expected);
}

#[test]
fn serialize_two_tasks_exactly() {
    let tasks = store(&[(1, "a", true), (2, "b", false)]);
    let expected = "[\n  {\n    \"id\": 1,\n    \"description\": \"a\",\n    \"completed\": true\n  },\n  {\n    \"id\": 2,\n    \"description\": \"b\",\n    \"completed\": false\n  }\n]";
    assert_eq!(serialize_tasks(&tasks), expected);
}

#[test]
fn round_trip_keeps_every_field_and_order() {
    let tasks = store(&[
        (1, "Buy milk", false),
        (2, "walk \"the\" dog \\ twice", true),
        (3, "line\nbreak\tand\rmore", false),
        (4294967295, "big id", true),
        (5, "", false),
        (5, "duplicate id survives", true),
    ]);
    let text = serialize_tasks(&tasks);
    let back = parse_tasks(&text).expect("rendered text parses");
    assert_same(&tasks, &back);
}

#[test]
fn round_trip_keeps_control_characters() {
    let tasks = store(&[(1, "a\u{1}b\u{1f}c\u{8}d\u{c}e", false)]);
    let text = serialize_tasks(&tasks);
    assert!(text.contains("\\u0001"));
    assert!(text.contains("\\u001f"));
    let back = parse_tasks(&text).expect("rendered text parses");
    assert_same(&tasks, &back);
}

#[test]
fn parse_accepts_other_whitespace() {
    let text = "  [ { \"id\" : 7 , \"description\" : \"x y\" , \"completed\" : true } ]  ";
    let back = parse_tasks(text).expect("spaced text parses");
    assert_same(&store(&[(7, "x y", true)]), &back);
}

#[test]
fn parse_accepts_named_and_hex_escapes() {
    let text = "[{\"id\": 1, \"description\": \"a\\\"b\\\\c\\/d\\n\\t\\r\\b\\f\\u0041\", \"completed\": false}]";
    let back = parse_tasks(text).expect("escapes parse");
    assert_eq!(back[0].description, "a\"b\\c/d\n\t\r\u{8}\u{c}A");
}

#[test]
fn parse_empty_array() {
    let back = parse_tasks("[]").expect("empty array parses");
    assert!(back.is_empty());
}

#[test]
fn parse_rejects_malformed_text() {
    for text in [
        "",
        "   ",
        "[",
        "]",
        "[{}]",
        "[{\"id\": 1}]",
        "[{\"id\": 1, \"description\": \"x\", \"completed\": false},]",
        "[{\"id\": 1, \"description\": \"x\", \"completed\": false}] trailing",
        "[{\"id\": -1, \"description\": \"x\", \"completed\": false}]",
        "[{\"id\": 01, \"description\": \"x\", \"completed\": false}]",
        "[{\"id\": 4294967296, \"description\": \"x\", \"completed\": false}]",
        "[{\"id\": 1, \"description\": \"x\", \"completed\": maybe}]",
        "[{\"id\": 1, \"description\": \"unterminated, \"completed\": false}]",
        "[{\"id\": 1, \"description\": \"bad \\q escape\", \"completed\": false}]",
        "[{\"id\": 1, \"description\": \"\\ud800\", \"completed\": false}]",
        "[{\"description\": \"x\", \"id\": 1, \"completed\": false}]",
    ] {
        assert!(matches!(parse_tasks(text), Err(ParseError::Malformed)), "text: {text}");
    }
}

#[test]
fn parse_boundary_id_values() {
    let back = parse_tasks("[{\"id\": 4294967295, \"description\": \"m\", \"completed\": true}]")
        .expect("largest id parses");
    assert_eq!(back[0].id, 4294967295);
    let back = parse_tasks("[{\"id\": 0, \"description\": \"z\", \"completed\": false}]")
        .expect("zero parses");
    assert_eq!(back[0].id, 0);
}

#[test]
fn load_missing_file_gives_empty_store() {
    let r = load_contents(None).expect("missing file is not an error");
    assert!(r.is_empty());
}

#[test]
fn load_existing_content_parses_it() {
    let tasks = store(&[(5, "x", false)]);
    let text = serialize_tasks(&tasks);
    let back = load_contents(Some(&text)).expect("good content loads");
    assert_same(&tasks, &back);
    assert!(matches!(load_contents(Some("nonsense")), Err(ParseError::Malformed)));
}

#[test]
fn completing_then_saving_is_visible_after_reload() {
    let mut tasks = store(&[(5, "x", false)]);
    task_list::ops::complete_task(5, &mut tasks).expect("task 5 exists");
    let text = serialize_tasks(&tasks);
    let back = load_contents(Some(&text)).expect("saved content loads");
    assert_eq!(back.len(), 1);
    assert_eq!(back[0].id, 5);
    assert!(back[0].completed);
}
