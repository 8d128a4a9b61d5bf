use jason::{
    decode_error_message, decode_pointer_segment, depth_of, diff, join_path, json_string, json_to_patch_operations, merge_patch,
    parse_from_str, patch_operation_to_json, patch_operations_to_json, split_parent,
    to_json_string, to_pretty_string, JsonError, Lexer, JsonNumber, JsonObject, JsonValue, ParserError,
    PatchDecodeError, PatchError, PatchOperation, Position,
};

fn num(v: i64) -> JsonValue {
    JsonValue::Number(JsonNumber::from_i64(v))
}

fn text(s: &str) -> JsonValue {
    JsonValue::String(s.to_string())
}

fn object(members: Vec<(&str, JsonValue)>) -> JsonValue {
    let mut o = JsonObject::new();
    for (k, v) in members {
        o.insert(k.to_string(), v);
    }
    JsonValue::Object(o)
}

#[test]
fn pointer_segments_are_unescaped() {
    assert_eq!(decode_pointer_segment("a~1b"), "a/b");
    assert_eq!(decode_pointer_segment("a~0b"), "a~b");
    assert_eq!(decode_pointer_segment("~01"), "~1");
    assert_eq!(decode_pointer_segment("plain"), "plain");
}

#[test]
fn split_parent_cuts_at_the_last_slash() {
    assert_eq!(
        split_parent("/a/b/c"),
        Some(("/a/b".to_string(), "c".to_string()))
    );
    assert_eq!(split_parent("/a"), Some(("".to_string(), "a".to_string())));
    assert_eq!(split_parent("abc"), None);
}

#[test]
fn join_path_adds_a_segment() {
    assert_eq!(join_path("", "a"), "/a");
    assert_eq!(join_path("/a", "b"), "/a/b");
    assert_eq!(join_path("/a", "x/y~z"), "/a/x~1y~0z");
}

#[test]
fn diff_escapes_keys_and_applies() {
    let old = object(vec![("a/b", JsonValue::Null), ("x~y", num(1)), ("gone/", num(2))]);
    let new = object(vec![("a/b", JsonValue::Bool(true)), ("x~y", num(1)), ("new~/", num(3))]);
    let ops = diff(&old, &new);
    assert_eq!(ops.len(), 3);
    assert!(matches!(&ops[0], PatchOperation::Replace { path, value } if path == "/a~1b" && *value == JsonValue::Bool(true)));
    assert!(matches!(&ops[1], PatchOperation::Remove { path } if path == "/gone~1"));
    assert!(matches!(&ops[2], PatchOperation::Add { path, value } if path == "/new~0~1" && *value == num(3)));
    let mut doc = old.clone();
    for op in ops {
        assert_eq!(doc.apply(op), Ok(()));
    }
    assert_eq!(doc, new);
}

#[test]
fn array_indices_follow_usize_parsing() {
    let value = JsonValue::Array(vec![num(10), num(20)]);
    assert_eq!(value.pointer("/+1"), Some(&num(20)));
    assert_eq!(value.pointer("/01"), Some(&num(20)));
    assert_eq!(value.pointer("/-1"), None);
    assert_eq!(value.pointer("/"), None);
    assert_eq!(value.pointer("/99999999999999999999999"), None);
}

#[test]
fn read_after_write_law_example() {
    let mut value = object(vec![("a", object(vec![("b", num(1))]))]);
    assert!(value.replace("/a/b", text("x")));
    assert_eq!(value.pointer("/a/b"), Some(&text("x")));
    assert!(value.replace("", num(5)));
    assert_eq!(value.pointer(""), Some(&num(5)));
}

#[test]
fn add_inserts_into_arrays_and_objects() {
    let mut value = object(vec![("list", JsonValue::Array(vec![num(1), num(3)]))]);
    assert_eq!(value.add("/list/1", num(2)), Ok(()));
    assert_eq!(value.add("/list/-", num(4)), Ok(()));
    assert_eq!(value.add("/extra", text("e")), Ok(()));
    let expected = object(vec![
        ("extra", text("e")),
        ("list", JsonValue::Array(vec![num(1), num(2), num(3), num(4)])),
    ]);
    assert_eq!(value, expected);
}

#[test]
fn add_reports_each_error() {
    let mut value = object(vec![("list", JsonValue::Array(vec![num(1)])), ("s", text("x"))]);
    assert_eq!(value.add("nolead", num(0)), Err(PatchError::InvalidPath));
    assert_eq!(value.add("/missing/x", num(0)), Err(PatchError::InvalidPath));
    assert_eq!(value.add("/list/x", num(0)), Err(PatchError::InvalidArrayIndex));
    assert_eq!(value.add("/list/5", num(0)), Err(PatchError::IndexOutOfBounds));
    assert_eq!(value.add("/s/x", num(0)), Err(PatchError::InvalidPath));
}

#[test]
fn remove_reports_each_error_and_returns_the_value() {
    let mut value = object(vec![("list", JsonValue::Array(vec![num(1), num(2)])), ("k", num(7))]);
    assert_eq!(value.remove("k"), Err(PatchError::InvalidPath));
    assert_eq!(value.remove("/list/x"), Err(PatchError::InvalidArrayIndex));
    assert_eq!(value.remove("/list/2"), Err(PatchError::IndexOutOfBounds));
    assert_eq!(value.remove("/nope"), Err(PatchError::MissingValue));
    assert_eq!(value.remove("/k/x"), Err(PatchError::InvalidPath));
    assert_eq!(value.remove("/k"), Ok(num(7)));
    assert_eq!(value.remove("/list/0"), Ok(num(1)));
    assert_eq!(value, object(vec![("list", JsonValue::Array(vec![num(2)]))]));
}

#[test]
fn move_copy_and_test() {
    let mut value = object(vec![("a", num(1)), ("b", JsonValue::Array(vec![]))]);
    assert_eq!(value.copy("/a", "/b/-"), Ok(()));
    assert_eq!(value.move_value("/a", "/c"), Ok(()));
    assert_eq!(
        value,
        object(vec![("b", JsonValue::Array(vec![num(1)])), ("c", num(1))])
    );
    assert_eq!(value.test("/c", num(1)), Ok(()));
    assert_eq!(value.test("/c", num(2)), Err(PatchError::TestFailed));
    assert_eq!(value.test("/zzz", num(2)), Err(PatchError::InvalidPath));
    assert_eq!(value.copy("/zzz", "/d"), Err(PatchError::InvalidPath));
    // a move whose addition fails leaves the document as it was
    assert_eq!(value.move_value("/c", "/nowhere/x"), Err(PatchError::InvalidPath));
    assert_eq!(
        value,
        object(vec![("b", JsonValue::Array(vec![num(1)])), ("c", num(1))])
    );
    let mut single = object(vec![("a", num(1))]);
    assert_eq!(single.move_value("/a", "/x/y"), Err(PatchError::InvalidPath));
    assert_eq!(single, object(vec![("a", num(1))]));
}

#[test]
fn apply_reports_a_failed_replace() {
    let mut value = object(vec![("a", num(1))]);
    let op = PatchOperation::Replace { path: "/b".to_string(), value: num(2) };
    assert_eq!(value.apply(op), Err(PatchError::InvalidPath));
    let op = PatchOperation::Test { path: "/a".to_string(), value: num(1) };
    assert_eq!(value.apply(op), Ok(()));
}

#[test]
fn diff_of_equal_documents_is_empty() {
    let doc = object(vec![("a", JsonValue::Array(vec![num(1), text("x")])), ("b", object(vec![("c", JsonValue::Null)]))]);
    assert!(diff(&doc, &doc.clone()).is_empty());
}

#[test]
fn diff_lists_operations_in_order() {
    let old = object(vec![("a", num(1)), ("b", num(2))]);
    let new = object(vec![("b", num(3)), ("c", num(4))]);
    let ops = diff(&old, &new);
    assert_eq!(
        patch_operations_to_json(&ops),
        "[\n  {\"op\":\"remove\",\"path\":\"/a\"},\n  {\"op\":\"replace\",\"path\":\"/b\",\"value\":3},\n  {\"op\":\"add\",\"path\":\"/c\",\"value\":4}\n]"
    );
    assert_eq!(patch_operations_to_json(&[]), "[]");
}

#[test]
fn diff_replaces_the_root_when_it_is_not_an_object() {
    let ops = diff(&num(1), &text("x"));
    assert_eq!(ops.len(), 1);
    assert_eq!(
        patch_operation_to_json(&ops[0]),
        "{\"op\":\"replace\",\"path\":\"\",\"value\":\"x\"}"
    );
}

#[test]
fn patch_operation_text_for_each_kind() {
    let ops = vec![
        PatchOperation::Move { from: "/a".to_string(), path: "/b".to_string() },
        PatchOperation::Copy { from: "/a".to_string(), path: "/b".to_string() },
        PatchOperation::Test { path: "/a".to_string(), value: JsonValue::Bool(true) },
    ];
    assert_eq!(patch_operation_to_json(&ops[0]), "{\"op\":\"move\",\"from\":\"/a\",\"path\":\"/b\"}");
    assert_eq!(patch_operation_to_json(&ops[1]), "{\"op\":\"copy\",\"from\":\"/a\",\"path\":\"/b\"}");
    assert_eq!(patch_operation_to_json(&ops[2]), "{\"op\":\"test\",\"path\":\"/a\",\"value\":true}");
}

#[test]
fn json_string_escapes() {
    assert_eq!(json_string("a\"b\\c\nd\te"), "\"a\\\"b\\\\c\\nd\\te\"");
}

#[test]
fn patch_documents_are_read() {
    let doc = parse_from_str(
        r#"[{"op":"add","path":"/a","value":1},{"op":"remove","path":"/b"},{"op":"move","from":"/c","path":"/d"}]"#,
    )
    .unwrap();
    let ops = json_to_patch_operations(&doc).unwrap();
    assert_eq!(ops.len(), 3);
    assert_eq!(patch_operation_to_json(&ops[0]), "{\"op\":\"add\",\"path\":\"/a\",\"value\":1}");
    assert_eq!(patch_operation_to_json(&ops[1]), "{\"op\":\"remove\",\"path\":\"/b\"}");
    assert_eq!(patch_operation_to_json(&ops[2]), "{\"op\":\"move\",\"from\":\"/c\",\"path\":\"/d\"}");
}

#[test]
fn patch_document_errors() {
    let not_array = parse_from_str("{}").unwrap();
    assert!(matches!(json_to_patch_operations(&not_array), Err(PatchDecodeError::NotAnArray)));
    let not_object = parse_from_str("[1]").unwrap();
    assert!(matches!(json_to_patch_operations(&not_object), Err(PatchDecodeError::NotAnObject(0))));
    let missing = parse_from_str(r#"[{"op":"add","path":"/a","value":1},{"op":"add"}]"#).unwrap();
    match json_to_patch_operations(&missing) {
        Err(PatchDecodeError::MissingField(1, key)) => assert_eq!(key, "path"),
        other => panic!("unexpected {:?}", other),
    }
    let not_string = parse_from_str(r#"[{"op":1,"path":"/a"}]"#).unwrap();
    match json_to_patch_operations(&not_string) {
        Err(PatchDecodeError::NotAString(0, key)) => assert_eq!(key, "op"),
        other => panic!("unexpected {:?}", other),
    }
    let unsupported = parse_from_str(r#"[{"op":"jump","path":"/a"}]"#).unwrap();
    match json_to_patch_operations(&unsupported) {
        Err(PatchDecodeError::UnsupportedOp(0, op)) => assert_eq!(op, "jump"),
        other => panic!("unexpected {:?}", other),
    }
    let no_value = parse_from_str(r#"[{"op":"test","path":"/a"}]"#).unwrap();
    match json_to_patch_operations(&no_value) {
        Err(PatchDecodeError::MissingField(0, key)) => assert_eq!(key, "value"),
        other => panic!("unexpected {:?}", other),
    }
}

#[test]
fn merge_patch_drops_nulls_of_new_objects() {
    let mut target = object(vec![("keep", num(1))]);
    let patch = object(vec![("new", object(vec![("inner", JsonValue::Null)]))]);
    merge_patch(&mut target, &patch);
    assert_eq!(target, object(vec![("keep", num(1)), ("new", object(vec![]))]));
}

#[test]
fn merge_patch_into_empty_object_drops_nested_null() {
    let mut target = object(vec![]);
    let patch = object(vec![("a", object(vec![("b", JsonValue::Null), ("c", num(1))]))]);
    merge_patch(&mut target, &patch);
    assert_eq!(target, object(vec![("a", object(vec![("c", num(1))]))]));
}

#[test]
fn merge_patch_onto_non_object_starts_from_empty() {
    let mut target = num(3);
    let patch = object(vec![("x", JsonValue::Null), ("y", text("z"))]);
    merge_patch(&mut target, &patch);
    assert_eq!(target, object(vec![("y", text("z"))]));
}

#[test]
fn escapes_slash_backspace_formfeed_return() {
    assert_eq!(parse_from_str("\"\\/\\b\\f\\r\"").unwrap(), text("/\u{8}\u{c}\r"));
    assert!(matches!(Lexer::new("/").read_escape(), Ok('/')));
    assert!(matches!(Lexer::new("b").read_escape(), Ok('\u{8}')));
    assert!(matches!(Lexer::new("f").read_escape(), Ok('\u{c}')));
    assert!(matches!(Lexer::new("r").read_escape(), Ok('\r')));
}

#[test]
fn numbers_are_written_exactly() {
    assert_eq!(to_json_string(&JsonValue::Number(JsonNumber::from_scaled(15, -4))), "0.0015");
    assert_eq!(to_json_string(&JsonValue::Number(JsonNumber::from_scaled(-25, 1))), "-250");
    assert_eq!(to_json_string(&parse_from_str("1.50e1").unwrap()), "15");
    assert_eq!(to_json_string(&parse_from_str("-0").unwrap()), "0");
}

#[test]
fn pretty_text_of_empty_containers() {
    assert_eq!(to_pretty_string(&JsonValue::Array(vec![])), "[]");
    assert_eq!(to_pretty_string(&object(vec![])), "{}");
    assert_eq!(to_pretty_string(&object(vec![("a", JsonValue::Array(vec![]))])), "{\n  \"a\": []\n}");
}

#[test]
fn parser_error_messages() {
    match parse_from_str("{\ntrue: 1}") {
        Err(e) => assert_eq!(e.message(), "Expected a string key at line 2, column 1"),
        Ok(_) => panic!("expected an error"),
    }
    match parse_from_str("[1, 2") {
        Err(JsonError::Parser(ParserError::ExpectedCommaOrRightBracket(p))) => {
            assert_eq!(
                ParserError::ExpectedCommaOrRightBracket(p).message(),
                format!("Expected comma or right bracket at line {}, column {}", p.line, p.column)
            );
        }
        other => panic!("unexpected {:?}", other),
    }
    assert_eq!(Position { line: 3, column: 14 }.message(), "line 3, column 14");
    assert_eq!(Position::default(), Position { line: 0, column: 0 });
}

#[test]
fn round_trip_of_a_built_document() {
    let doc = object(vec![
        ("list", JsonValue::Array(vec![num(-3), JsonValue::Number(JsonNumber::from_scaled(25, -1)), JsonValue::Null])),
        ("s", text("q\"\\\n\t\u{1}")),
        ("t", JsonValue::Bool(false)),
    ]);
    let again = parse_from_str(&to_json_string(&doc)).unwrap();
    assert_eq!(again, doc);
    let pretty = parse_from_str(&to_pretty_string(&doc)).unwrap();
    assert_eq!(pretty, doc);
}

#[test]
fn added_values_read_back() {
    let mut value = object(vec![("list", JsonValue::Array(vec![num(1), num(3)]))]);
    assert_eq!(value.add("/list/1", num(2)), Ok(()));
    assert_eq!(value.pointer("/list/1"), Some(&num(2)));
    assert_eq!(value.add("/k", text("v")), Ok(()));
    assert_eq!(value.pointer("/k"), Some(&text("v")));
    // the last token is unescaped as the key, as the pointer reads it
    assert_eq!(value.add("/a~1b", num(9)), Ok(()));
    assert_eq!(value.pointer("/a~1b"), Some(&num(9)));
    assert_eq!(value.remove("/a~1b"), Ok(num(9)));
    assert_eq!(value.pointer("/a~1b"), None);
}

#[test]
fn removed_values_are_what_the_pointer_named() {
    let mut value = object(vec![("a", object(vec![("b", num(4))])), ("l", JsonValue::Array(vec![num(5), num(6)]))]);
    let before = value.pointer("/a/b").cloned();
    assert_eq!(value.remove("/a/b").ok(), before);
    assert_eq!(value.pointer("/a/b"), None);
    let before = value.pointer("/l/0").cloned();
    assert_eq!(value.remove("/l/0").ok(), before);
    assert_eq!(value.pointer("/l/0"), Some(&num(6)));
}

#[test]
fn copied_values_read_back() {
    let mut value = object(vec![("a", JsonValue::Array(vec![num(1), num(2)]))]);
    assert_eq!(value.copy("/a", "/b"), Ok(()));
    assert_eq!(value.pointer("/b"), value.pointer("/a"));
}

#[test]
fn merge_keeps_untouched_members() {
    let mut target = object(vec![("a", num(1)), ("b", num(2)), ("c", object(vec![("d", num(3)), ("e", num(4))]))]);
    let patch = object(vec![("b", JsonValue::Null), ("c", object(vec![("d", JsonValue::Null)])), ("f", num(6))]);
    merge_patch(&mut target, &patch);
    assert_eq!(
        target,
        object(vec![("a", num(1)), ("c", object(vec![("e", num(4))])), ("f", num(6))])
    );
}

#[test]
fn diff_then_apply_gives_the_new_document() {
    let old = object(vec![
        ("keep", num(1)),
        ("drop", text("x")),
        ("nest", object(vec![("a", JsonValue::Array(vec![num(1)])), ("b", JsonValue::Bool(true))])),
    ]);
    let new = object(vec![
        ("keep", num(1)),
        ("nest", object(vec![("a", JsonValue::Array(vec![num(1), num(2)])), ("c", JsonValue::Null)])),
        ("new", text("y")),
    ]);
    let mut result = old.clone();
    for op in diff(&old, &new) {
        assert_eq!(result.apply(op), Ok(()));
    }
    assert_eq!(result, new);
}

#[test]
fn moved_values_read_back() {
    let mut value = object(vec![("a", object(vec![("x", num(1))])), ("b", JsonValue::Array(vec![]))]);
    let before = value.pointer("/a/x").cloned();
    assert_eq!(value.move_value("/a/x", "/b/0"), Ok(()));
    assert_eq!(value.pointer("/b/0").cloned(), before);
    assert_eq!(value.pointer("/a/x"), None);
}

#[test]
fn pretty_text_reads_back() {
    let doc = object(vec![
        ("a", JsonValue::Array(vec![num(1), object(vec![("b", JsonValue::Null)]), JsonValue::Array(vec![])])),
        ("c", object(vec![])),
        ("d", text("x\ny")),
    ]);
    assert_eq!(parse_from_str(&to_pretty_string(&doc)).unwrap(), doc);
}

#[test]
fn reading_sorts_keys_and_keeps_the_last_duplicate() {
    let value = parse_from_str(r#"{"b":1,"a":2,"b":3}"#).unwrap();
    assert_eq!(to_json_string(&value), r#"{"a":2,"b":3}"#);
}

#[test]
fn operations_keep_keys_sorted() {
    let mut value = object(vec![("m", num(1))]);
    assert_eq!(value.add("/a", num(0)), Ok(()));
    assert_eq!(value.add("/z", num(2)), Ok(()));
    let mut patch = object(vec![("c", num(5))]);
    merge_patch(&mut value, &patch);
    assert_eq!(to_json_string(&value), r#"{"a":0,"c":5,"m":1,"z":2}"#);
    patch = object(vec![("a", JsonValue::Null)]);
    merge_patch(&mut value, &patch);
    assert_eq!(to_json_string(&value), r#"{"c":5,"m":1,"z":2}"#);
}

#[test]
fn numbers_expose_their_decimal_form() {
    let n = JsonNumber::from_scaled(-1500, -3);
    assert!(n.is_negative());
    assert_eq!(n.digits(), &vec![1u8, 5]);
    assert_eq!(n.exponent(), -1);
    let zero = JsonNumber::from_i64(0);
    assert!(!zero.is_negative());
    assert!(zero.digits().is_empty());
    assert_eq!(zero.exponent(), 0);
}

#[test]
fn patch_document_error_messages() {
    assert_eq!(PatchDecodeError::NotAnArray.message(), "expected an array of JSON Patch operations");
    assert_eq!(PatchDecodeError::NotAnObject(3).message(), "operation 3 must be an object");
    assert_eq!(
        PatchDecodeError::MissingField(2, "path".to_string()).message(),
        "operation 2 is missing field \"path\""
    );
    assert_eq!(
        PatchDecodeError::NotAString(0, "op".to_string()).message(),
        "operation 0 field \"op\" must be a string"
    );
    assert_eq!(
        PatchDecodeError::UnsupportedOp(1, "x\"y".to_string()).message(),
        "operation 1 has unsupported op \"x\\\"y\""
    );
    assert_eq!(
        decode_error_message(&PatchDecodeError::MissingField(5, "k".to_string()), "<k>"),
        "operation 5 is missing field <k>"
    );
}

#[test]
fn nesting_depth_is_counted() {
    assert_eq!(depth_of(&num(1)), Some(0));
    assert_eq!(depth_of(&object(vec![])), Some(1));
    let nested = JsonValue::Array(vec![num(1), JsonValue::Array(vec![object(vec![("a", num(2))])])]);
    assert_eq!(depth_of(&nested), Some(3));
}

#[test]
fn apply_all_stops_at_the_first_failure() {
    let mut doc = object(vec![("a", num(1))]);
    let ops = vec![
        PatchOperation::Add { path: "/b".to_string(), value: num(2) },
        PatchOperation::Remove { path: "/zz".to_string() },
        PatchOperation::Add { path: "/c".to_string(), value: num(3) },
    ];
    assert_eq!(doc.apply_all(ops), Err(PatchError::MissingValue));
    assert_eq!(doc, object(vec![("a", num(1)), ("b", num(2))]));
    let ok = vec![
        PatchOperation::Replace { path: "/a".to_string(), value: num(5) },
        PatchOperation::Remove { path: "/b".to_string() },
    ];
    assert_eq!(doc.apply_all(ok), Ok(()));
    assert_eq!(doc, object(vec![("a", num(5))]));
}

#[test]
fn remove_undoes_add() {
    let original = object(vec![("a", JsonValue::Array(vec![num(1), num(2)]))]);
    let mut doc = original.clone();
    assert_eq!(doc.add("/a/1", num(9)), Ok(()));
    assert_eq!(doc.remove("/a/1"), Ok(num(9)));
    assert_eq!(doc, original);
    assert_eq!(doc.add("/k~0", text("v")), Ok(()));
    assert_eq!(doc.remove("/k~0"), Ok(text("v")));
    assert_eq!(doc, original);
}

#[test]
fn different_documents_give_operations() {
    let a = object(vec![("x", num(1))]);
    let b = object(vec![("x", num(2))]);
    assert!(!diff(&a, &b).is_empty());
    assert!(diff(&a, &a.clone()).is_empty());
    assert!(!diff(&num(1), &num(2)).is_empty());
}

#[test]
fn nested_pretty_text_is_the_child_text_indented() {
    let child = JsonValue::Array(vec![num(1), object(vec![("b", num(2))])]);
    let doc = object(vec![("a", child.clone())]);
    let inner = to_pretty_string(&child).replace('\n', "\n  ");
    assert_eq!(to_pretty_string(&doc), format!("{{\n  \"a\": {inner}\n}}"));
}

fn strip_layout(text: &str) -> String {
    let mut out = String::new();
    let mut inside = false;
    let mut escape = false;
    for c in text.chars() {
        if inside {
            if escape {
                escape = false;
            } else if c == '\\' {
                escape = true;
            } else if c == '"' {
                inside = false;
            }
            out.push(c);
        } else if c != ' ' && c != '\n' {
            if c == '"' {
                inside = true;
            }
            out.push(c);
        }
    }
    out
}

#[test]
fn pretty_text_without_layout_is_compact() {
    let doc = parse_from_str(r#"{"a b":[1,{"c":"x \"y\"\n z"}],"d":{},"e":[],"f":-1.5e-3}"#).unwrap();
    assert_eq!(strip_layout(&to_pretty_string(&doc)), to_json_string(&doc));
}

#[test]
fn error_positions_count_lines_and_columns() {
    assert!(matches!(
        parse_from_str("{\"a\" 1}"),
        Err(JsonError::Parser(ParserError::UnexpectedToken(Position { line: 1, column: 6 })))
    ));
    assert!(matches!(
        parse_from_str("{\n\"a\" 1}"),
        Err(JsonError::Parser(ParserError::UnexpectedToken(Position { line: 2, column: 5 })))
    ));
}

#[test]
fn object_members_come_in_key_order() {
    let doc = parse_from_str(r#"{"b":1,"a":2,"b":3}"#).unwrap();
    match doc {
        JsonValue::Object(o) => {
            let keys: Vec<&str> = o.members().iter().map(|(k, _)| k.as_str()).collect();
            assert_eq!(keys, vec!["a", "b"]);
            assert_eq!(o.members()[1].1, num(3));
        }
        _ => panic!("expected an object"),
    }
}

#[test]
fn failed_operations_change_nothing() {
    let mut doc = object(vec![("a", num(1)), ("l", JsonValue::Array(vec![num(1)]))]);
    let before = doc.clone();
    let failing = vec![
        PatchOperation::Move { from: "/a".to_string(), path: "/x/y".to_string() },
        PatchOperation::Move { from: "/l/0".to_string(), path: "/l/9".to_string() },
        PatchOperation::Copy { from: "/a".to_string(), path: "/l/x".to_string() },
        PatchOperation::Remove { path: "/zz".to_string() },
        PatchOperation::Test { path: "/a".to_string(), value: num(2) },
    ];
    for op in failing {
        assert!(doc.apply(op).is_err());
        assert_eq!(doc, before);
    }
}

#[test]
fn control_characters_are_escaped_when_written() {
    let doc = text("a\u{8}\u{c}\r\u{1}\u{1f}\n\tz");
    let written = to_json_string(&doc);
    assert_eq!(written, "\"a\\b\\f\\r\\u0001\\u001f\\n\\tz\"");
    assert_eq!(json_string("\u{0}"), "\"\\u0000\"");
    assert_eq!(parse_from_str(&written).unwrap(), doc);
}
