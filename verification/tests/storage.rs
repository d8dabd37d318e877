use doru::storage::{parse_todos, serialize_todos};
use doru::todo::{Todo, TodoStatus};

fn refs(todos: &[Todo]) -> Vec<&Todo> {
    todos.iter().collect()
}

#[test]
fn read_and_parse_valid_file_succeeds() {
    let todos = vec![
        Todo::new(0, "Lorem"),
        Todo::new(1, "Ipsum"),
        Todo::new(2, "Dolor"),
    ];

    let todos_json = serialize_todos(&refs(&todos));

    let parsed_todos = parse_todos(&todos_json).unwrap();

    assert_eq!(parsed_todos, todos);
}

#[test]
fn read_empty_file_returns_empty_vector() {
    let parsed_todos = parse_todos("").unwrap();

    assert_eq!(parsed_todos, vec![]);
}

#[test]
fn whitespace_only_text_is_an_empty_list() {
    let parsed_todos = parse_todos("  \t\r\n ").unwrap();

    assert_eq!(parsed_todos, vec![]);
}

#[test]
fn unicode_whitespace_only_text_is_an_empty_list() {
    assert_eq!(parse_todos("\u{c}").unwrap(), vec![]);
    assert_eq!(parse_todos("\u{b}\u{85}\u{a0}\u{1680}\u{2003}\u{3000}").unwrap(), vec![]);
    assert_eq!(parse_todos(" \u{2028}\u{2029}\u{202f}\u{205f}\n").unwrap(), vec![]);
}

#[test]
fn unicode_whitespace_next_to_tokens_is_an_error() {
    assert_eq!(parse_todos("\u{a0}[]"), None);
    assert_eq!(parse_todos("[]\u{a0}"), None);
}

#[test]
fn parse_invalid_json_fails() {
    let parsed_todos = parse_todos("Lorem ipsum not a todo list json");

    assert_eq!(parsed_todos, None);
}

#[test]
fn parse_rejects_trailing_text() {
    assert_eq!(parse_todos("[] trailing"), None);
    assert_eq!(parse_todos("[]]"), None);
}

#[test]
fn parse_rejects_missing_fields_and_wrong_spellings() {
    assert_eq!(parse_todos(r#"[{"id":1,"content":"x"}]"#), None);
    assert_eq!(
        parse_todos(r#"[{"id":1,"content":"x","status":"open"}]"#),
        None
    );
    assert_eq!(
        parse_todos(r#"[{"id":1,"id":2,"content":"x","status":"Open"}]"#),
        None
    );
}

#[test]
fn unknown_fields_are_ignored() {
    let parsed = parse_todos(r#"[{"id":1,"content":"x","status":"Open","extra":2}]"#).unwrap();
    assert_eq!(parsed, vec![Todo::new(1, "x")]);

    let parsed = parse_todos(
        r#"[{"note":"a \"quoted\" aside","id":3,"done":false,"content":"y","status":"Open"}]"#,
    )
    .unwrap();
    assert_eq!(parsed, vec![Todo::new(3, "y")]);
}

#[test]
fn unknown_fields_of_every_json_kind_are_skipped() {
    let text = r#"[ { "id" : 4 ,
        "n1" : -12.5e+3 , "n2" : 0.25 , "n3" : 1E9 ,
        "t" : true , "f" : false , "nothing" : null ,
        "obj" : { "inner" : [ 1 , { "deep" : "yes" } ] , "more" : {} } ,
        "arr" : [ [] , "s" , 7 , null ] ,
        "content" : "z" , "status" : "Done" } ]"#;
    let parsed = parse_todos(text).unwrap();

    let mut expected = vec![Todo::new(4, "z")];
    expected[0].set_status(doru::todo::TodoStatus::Done);
    assert_eq!(parsed, expected);
}

#[test]
fn malformed_unknown_values_are_errors() {
    assert_eq!(
        parse_todos(r#"[{"id":1,"extra":01,"content":"x","status":"Open"}]"#),
        None
    );
    assert_eq!(
        parse_todos(r#"[{"id":1,"extra":tru,"content":"x","status":"Open"}]"#),
        None
    );
    assert_eq!(
        parse_todos(r#"[{"id":1,"extra":{"open":1,"content":"x","status":"Open"}]"#),
        None
    );
    assert_eq!(
        parse_todos(r#"[{"id":1,"extra":1.,"content":"x","status":"Open"}]"#),
        None
    );
}

#[test]
fn serializes_empty_list_exactly() {
    let todos: Vec<Todo> = vec![];
    assert_eq!(serialize_todos(&refs(&todos)), "[]");
}

#[test]
fn serializes_one_task_exactly() {
    let todos = vec![Todo::new(1, "Lorem")];
    assert_eq!(
        serialize_todos(&refs(&todos)),
        r#"[{"id":1,"content":"Lorem","status":"Open"}]"#
    );
}

#[test]
fn serializes_statuses_and_order_exactly() {
    let mut todos = vec![Todo::new(1, "a"), Todo::new(2, "b"), Todo::new(3, "c")];
    todos[1].set_status(TodoStatus::InProgress);
    todos[2].set_status(TodoStatus::Done);
    assert_eq!(
        serialize_todos(&refs(&todos)),
        r#"[{"id":1,"content":"a","status":"Open"},{"id":2,"content":"b","status":"InProgress"},{"id":3,"content":"c","status":"Done"}]"#
    );
}

#[test]
fn escapes_content_exactly() {
    let todos = vec![Todo::new(7, "say \"hi\"\\\n\tdone\u{1}")];
    assert_eq!(
        serialize_todos(&refs(&todos)),
        "[{\"id\":7,\"content\":\"say \\\"hi\\\"\\\\\\n\\tdone\\u0001\",\"status\":\"Open\"}]"
    );
}

#[test]
fn round_trip_preserves_escapes_and_unicode() {
    let mut todos = vec![
        Todo::new(1, "quotes \" and \\ backslash"),
        Todo::new(2, "lines\nand\ttabs\rand\u{8}controls\u{1f}"),
        Todo::new(3, "unicode: über 🦀 タスク"),
        Todo::new(4, ""),
    ];
    todos[2].set_status(TodoStatus::Done);

    let text = serialize_todos(&refs(&todos));
    let back = parse_todos(&text).unwrap();

    assert_eq!(back, todos);
}

#[test]
fn parses_whitespace_and_field_order_variants() {
    let text = " [ { \"content\" : \"Lorem\" , \"status\" : \"Done\" , \"id\" : 12 } ,\n   { \"id\" : 3 , \"status\" : \"Open\" , \"content\" : \"Ipsum\" } ] ";
    let parsed = parse_todos(text).unwrap();

    let mut expected = vec![Todo::new(12, "Lorem"), Todo::new(3, "Ipsum")];
    expected[0].set_status(TodoStatus::Done);
    assert_eq!(parsed, expected);
}

#[test]
fn parses_escape_sequences() {
    let text = r#"[{"id":1,"content":"a\"b\\c\/d\be\ff\ng\rh\tiAj\u000a","status":"Open"}]"#;
    let parsed = parse_todos(text).unwrap();

    assert_eq!(
        parsed,
        vec![Todo::new(1, "a\"b\\c/d\u{8}e\u{c}f\ng\rh\tiAj\n")]
    );
}

#[test]
fn parses_unicode_escapes_and_surrogate_pairs() {
    let text = r#"[{"id":1,"content":"caf\u00e9 \u4e2D \uD83D\uDE00","status":"Open"}]"#;
    let parsed = parse_todos(text).unwrap();

    assert_eq!(parsed, vec![Todo::new(1, "café 中 😀")]);
}

#[test]
fn non_ascii_content_survives_unescaped() {
    let todos = vec![Todo::new(2, "café 中 😀")];

    let text = serialize_todos(&todos.iter().collect());

    assert_eq!(parse_todos(&text).unwrap(), todos);
}

#[test]
fn parse_rejects_lone_or_broken_surrogates() {
    assert_eq!(
        parse_todos(r#"[{"id":1,"content":"\uD83D","status":"Open"}]"#),
        None
    );
    assert_eq!(
        parse_todos(r#"[{"id":1,"content":"\uDE00","status":"Open"}]"#),
        None
    );
    assert_eq!(
        parse_todos(r#"[{"id":1,"content":"\uD83DA","status":"Open"}]"#),
        None
    );
}

#[test]
fn parse_rejects_bad_numbers_and_strings() {
    assert_eq!(
        parse_todos(r#"[{"id":01,"content":"x","status":"Open"}]"#),
        None
    );
    assert_eq!(
        parse_todos(r#"[{"id":-1,"content":"x","status":"Open"}]"#),
        None
    );
    assert_eq!(
        parse_todos("[{\"id\":1,\"content\":\"raw\ncontrol\",\"status\":\"Open\"}]"),
        None
    );
    assert_eq!(
        parse_todos(r#"[{"id":1,"content":"bad \q escape","status":"Open"}]"#),
        None
    );
}

#[test]
fn round_trip_largest_id() {
    let todos = vec![Todo::new(usize::MAX, "edge")];

    let text = serialize_todos(&refs(&todos));

    assert_eq!(parse_todos(&text).unwrap(), todos);
}

#[test]
fn parse_rejects_id_beyond_the_machine_word() {
    let too_big = u128::from(usize::MAX as u64) + 1;
    let text = format!("[{{\"id\":{too_big},\"content\":\"x\",\"status\":\"Open\"}}]");

    assert_eq!(parse_todos(&text), None);
}

#[test]
fn saving_to_existing_file_succeeds() {
    let todos = vec![
        Todo::new(0, "Lorem"),
        Todo::new(1, "Ipsum"),
        Todo::new(2, "Dolor"),
    ];

    let written = serialize_todos(&refs(&todos));

    // The written text is plain JSON: an independent JSON reader sees the
    // same array of task objects.
    let parsed: serde_json::Value = serde_json::from_str(&written).unwrap();

    let mut array: Vec<serde_json::Value> = Vec::new();
    for (id, content) in [(0u64, "Lorem"), (1u64, "Ipsum"), (2u64, "Dolor")] {
        let mut object = serde_json::Map::new();
        object.insert("id".to_string(), serde_json::Value::from(id));
        object.insert("content".to_string(), serde_json::Value::from(content));
        object.insert("status".to_string(), serde_json::Value::from("Open"));
        array.push(serde_json::Value::Object(object));
    }
    let expected = serde_json::Value::Array(array);

    assert_eq!(parsed, expected);
}

#[test]
fn reads_json_written_by_another_encoder() {
    let mut object = serde_json::Map::new();
    object.insert("id".to_string(), serde_json::Value::from(9u64));
    object.insert(
        "content".to_string(),
        serde_json::Value::from("from \"elsewhere\"\n"),
    );
    object.insert("status".to_string(), serde_json::Value::from("InProgress"));
    let text = serde_json::Value::Array(vec![serde_json::Value::Object(object)]).to_string();

    let parsed = parse_todos(&text).unwrap();

    let mut expected = vec![Todo::new(9, "from \"elsewhere\"\n")];
    expected[0].set_status(TodoStatus::InProgress);
    assert_eq!(parsed, expected);
}
