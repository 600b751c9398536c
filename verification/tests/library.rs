use path_ser::{
    is_supported, is_supported_from, render_bool, MapCall, render_i64, render_u64, replace_first_occurrence, to_string,
    trim_trailing_dash, Error, Serializer, Value,
};

fn text(s: &str) -> String {
    s.to_string()
}

fn fields(fs: Vec<(&str, Value)>) -> Value {
    Value::Struct(fs.into_iter().map(|(k, v)| (k.to_string(), v)).collect())
}

#[test]
fn error_messages() {
    assert_eq!(Error::Eof.message(), "eof");
    assert_eq!(Error::ExpectedInteger.message(), "expected integer");
    assert_eq!(Error::ExpectedString.message(), "expected string");
    assert_eq!(Error::ExpectedBoolean.message(), "expected boolean");
}

#[test]
fn integers_render_in_decimal() {
    assert_eq!(render_u64(0), "0");
    assert_eq!(render_u64(7), "7");
    assert_eq!(render_u64(10), "10");
    assert_eq!(render_u64(125454), "125454");
    assert_eq!(render_u64(u64::MAX), "18446744073709551615");
    assert_eq!(render_i64(0), "0");
    assert_eq!(render_i64(-1), "-1");
    assert_eq!(render_i64(-4096), "-4096");
    assert_eq!(render_i64(i64::MIN), "-9223372036854775808");
    assert_eq!(render_i64(i64::MAX), "9223372036854775807");
}

#[test]
fn decimal_rendering_denotes_the_number() {
    for n in [0u64, 9, 10, 99, 100, 101, 65535, 4294967296, u64::MAX] {
        let s = render_u64(n);
        assert!(s.chars().all(|c| c.is_ascii_digit()));
        assert!(!s.starts_with('0') || n == 0);
        assert_eq!(s.parse::<u64>().unwrap(), n);
    }
}

#[test]
fn booleans_render_as_words() {
    assert_eq!(render_bool(true), "true");
    assert_eq!(render_bool(false), "false");
}

#[test]
fn scalar_serializers() {
    let s = Serializer::new(text("/p"));
    assert_eq!(s.serialize_bool(true), "true");
    assert_eq!(s.serialize_i8(-128), "-128");
    assert_eq!(s.serialize_i16(-300), "-300");
    assert_eq!(s.serialize_i32(123456), "123456");
    assert_eq!(s.serialize_i64(-42), "-42");
    assert_eq!(s.serialize_u8(255), "255");
    assert_eq!(s.serialize_u16(65535), "65535");
    assert_eq!(s.serialize_u32(4000000000), "4000000000");
    assert_eq!(s.serialize_u64(5), "5");
    assert_eq!(s.serialize_char('é'), "é");
    assert_eq!(s.serialize_str("a b"), "a b");
    assert_eq!(s.serialize_unit_variant("Left"), "Left");
    assert_eq!(s.end(), "");
    assert_eq!(s.into_output(), "/p");
}

#[test]
fn replace_first_only() {
    assert_eq!(replace_first_occurrence("/:a/:a", ":a", "x"), "/x/:a");
    assert_eq!(replace_first_occurrence("/:a/b", ":c", "x"), "/:a/b");
    assert_eq!(replace_first_occurrence("", ":c", "x"), "");
    assert_eq!(replace_first_occurrence("日本:k語", ":k", "ü"), "日本ü語");
    assert_eq!(replace_first_occurrence("ab", "", "x"), "xab");
}

#[test]
fn replacement_keeps_prefix_and_suffix() {
    let s = "/users/:id/posts/:id";
    let r = replace_first_occurrence(s, ":id", "42");
    assert_eq!(r, "/users/42/posts/:id");
    assert_eq!(r.chars().count(), s.chars().count() - 3 + 2);
}

#[test]
fn trailing_dash_is_trimmed_once() {
    let mut s = text("a--");
    trim_trailing_dash(&mut s);
    assert_eq!(s, "a-");
    let mut t = text("ab");
    trim_trailing_dash(&mut t);
    assert_eq!(t, "ab");
    let mut e = text("");
    trim_trailing_dash(&mut e);
    assert_eq!(e, "");
}

#[test]
fn field_placeholder_prefix_matches_first() {
    // `:s` also matches the start of `:str`, which comes first
    let v = fields(vec![("s", Value::Str(text("X")))]);
    assert_eq!(to_string(text("/:str/:s"), &v).unwrap(), "/Xtr/:s");
}

#[test]
fn missing_placeholder_leaves_path() {
    let v = fields(vec![("id", Value::U64(3)), ("name", Value::Str(text("n")))]);
    assert_eq!(to_string(text("/users/all"), &v).unwrap(), "/users/all");
}

#[test]
fn plain_path_kept_for_map() {
    let v = Value::Mapping(vec![MapCall::Key(Value::Str(text("k"))), MapCall::Value(Value::I64(-1))]);
    assert_eq!(to_string(text("/static"), &v).unwrap(), "/static");
}

#[test]
fn map_entries_fill_placeholders() {
    let v = Value::Mapping(vec![
        MapCall::Key(Value::Str(text("user"))),
        MapCall::Value(Value::Str(text("bob"))),
        MapCall::Key(Value::U64(7)),
        MapCall::Value(Value::Bool(true)),
    ]);
    assert_eq!(to_string(text("/:user/:7"), &v).unwrap(), "/bob/true");
}

#[test]
fn sequence_appends_to_path_end() {
    let v = fields(vec![(
        "xs",
        Value::Sequence(vec![Value::Char('a'), Value::I64(-2)]),
    )]);
    // the elements go to the end of the path; the placeholder is then removed
    assert_eq!(to_string(text("/:xs/tail"), &v).unwrap(), "//taila--2");
}

#[test]
fn sequence_at_top_level_joins_with_hyphen() {
    let v = Value::Sequence(vec![Value::U64(1), Value::Str(text("b")), Value::Bool(false)]);
    assert_eq!(to_string(text("/p/"), &v).unwrap(), "/p/1-b-false");
}

#[test]
fn empty_sequence_drops_trailing_hyphen() {
    let v = Value::Sequence(vec![]);
    assert_eq!(to_string(text("/a-"), &v).unwrap(), "/a");
    assert_eq!(to_string(text("/a"), &v).unwrap(), "/a");
}

#[test]
fn element_then_end_seq() {
    let mut s = Serializer::new(text("/"));
    s.serialize_element(&Value::U64(1));
    s.serialize_element(&Value::U64(2));
    assert_eq!(s.end_seq(), "");
    assert_eq!(s.into_output(), "/1-2");
}

#[test]
fn key_then_value() {
    let mut s = Serializer::new(text("/:k"));
    s.serialize_key(&Value::Str(text("k")));
    s.serialize_value(&Value::U64(9));
    assert_eq!(s.into_output(), "/9");
}

#[test]
fn value_without_key_does_nothing() {
    let mut s = Serializer::new(text("/:k"));
    s.serialize_value(&Value::U64(9));
    assert_eq!(s.into_output(), "/:k");
}

#[test]
fn field_replaces_placeholder() {
    let mut s = Serializer::new(text("/:a/:b"));
    s.serialize_field("b", &Value::Float(text("1.5")));
    assert_eq!(s.into_output(), "/:a/1.5");
}

#[test]
fn serialize_returns_scalar_text_and_keeps_path() {
    let mut s = Serializer::new(text("/x"));
    assert_eq!(s.serialize(&Value::Optional(Some(Box::new(Value::I64(-5))))), "-5");
    assert_eq!(s.serialize(&Value::NewtypeStruct(Box::new(Value::Char('z')))), "z");
    assert_eq!(s.into_output(), "/x");
}

#[test]
fn nested_struct_flattens_into_path() {
    let inner = fields(vec![("s", Value::U64(1))]);
    let nested = fields(vec![("nested", fields(vec![("s", Value::U64(1))]))]);
    assert_eq!(
        to_string(text("/:s"), &nested).unwrap(),
        to_string(text("/:s"), &inner).unwrap()
    );
    assert_eq!(to_string(text("/:s"), &nested).unwrap(), "/1");
}

#[test]
fn unsupported_values_are_detected() {
    assert!(!is_supported(&Value::Unit));
    assert!(!is_supported(&Value::UnitStruct));
    assert!(!is_supported(&Value::Bytes(vec![1, 2])));
    assert!(!is_supported(&Value::Optional(None)));
    assert!(!is_supported(&Value::TupleStruct(vec![])));
    assert!(!is_supported(&Value::TupleVariant(vec![])));
    assert!(!is_supported(&Value::StructVariant(vec![])));
    assert!(!is_supported(&fields(vec![("a", Value::Optional(None))])));
    assert!(!is_supported(&Value::Sequence(vec![Value::U64(1), Value::Unit])));
    assert!(!is_supported(&Value::Mapping(vec![MapCall::Key(Value::Unit), MapCall::Value(Value::U64(1))])));
    // a map value with no key before it is never serialized
    assert!(is_supported(&Value::Mapping(vec![MapCall::Value(Value::Unit)])));
    assert!(!is_supported(&Value::Mapping(vec![MapCall::Key(Value::U64(1)), MapCall::Value(Value::Unit)])));
    assert_eq!(is_supported_from(true, &Value::U64(1)), (true, true));
    assert_eq!(is_supported_from(false, &Value::Mapping(vec![MapCall::Key(Value::U64(1))])), (true, true));
    assert!(is_supported(&Value::Optional(Some(Box::new(Value::U64(1))))));
    assert!(is_supported(&Value::Mapping(vec![MapCall::Key(Value::U64(1)), MapCall::Value(Value::U64(1))])));
    assert!(is_supported(&Value::Tuple(vec![])));
}

#[test]
fn second_key_replaces_pending_key() {
    let mut s = Serializer::new(text("/:a/:b"));
    s.serialize_key(&Value::Str(text("a")));
    s.serialize_key(&Value::Str(text("b")));
    s.serialize_value(&Value::U64(2));
    assert_eq!(s.into_output(), "/:a/2");
}

#[test]
fn element_and_field_keep_pending_key() {
    let mut s = Serializer::new(text("/:k/:f/"));
    s.serialize_key(&Value::Str(text("k")));
    s.serialize_element(&Value::U64(1));
    s.serialize_field("f", &Value::Bool(true));
    s.serialize_value(&Value::Char('x'));
    assert_eq!(s.into_output(), "/x/true/1-");
}

#[test]
fn map_value_without_key_is_skipped() {
    let v = Value::Mapping(vec![
        MapCall::Value(Value::U64(5)),
        MapCall::Key(Value::Str(text("k"))),
        MapCall::Value(Value::U64(6)),
    ]);
    assert_eq!(to_string(text("/:k"), &v).unwrap(), "/6");
}

#[test]
fn map_key_left_waiting_is_used_by_next_value() {
    // the inner map leaves its key waiting; the outer map's next value takes it
    let inner = Value::Mapping(vec![MapCall::Key(Value::Str(text("in")))]);
    let v = Value::Sequence(vec![inner, Value::Mapping(vec![MapCall::Value(Value::U64(3))])]);
    assert_eq!(to_string(text("/:in/"), &v).unwrap(), "/3/-");
}

#[test]
fn flattened_map_fills_like_nested_struct() {
    let nested = fields(vec![
        ("user_id", Value::Str(text("u"))),
        ("nested", fields(vec![("s", Value::U64(7)), ("t", Value::Bool(true))])),
        ("z", Value::Char('z')),
    ]);
    let flattened = Value::Mapping(vec![
        MapCall::Key(Value::Str(text("user_id"))),
        MapCall::Value(Value::Str(text("u"))),
        MapCall::Key(Value::Str(text("s"))),
        MapCall::Value(Value::U64(7)),
        MapCall::Key(Value::Str(text("t"))),
        MapCall::Value(Value::Bool(true)),
        MapCall::Key(Value::Str(text("z"))),
        MapCall::Value(Value::Char('z')),
    ]);
    let path = text("/:user_id/:s/:t/:z");
    assert_eq!(to_string(path.clone(), &nested).unwrap(), "/u/7/true/z");
    assert_eq!(to_string(path.clone(), &nested).unwrap(), to_string(path, &flattened).unwrap());
}
