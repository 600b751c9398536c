use path_ser::{to_string, Value};
use uuid::Uuid;

fn text(s: &str) -> String {
    s.to_string()
}

fn string(s: &str) -> Value {
    Value::Str(s.to_string())
}

fn fields(fs: Vec<(&str, Value)>) -> Value {
    Value::Struct(fs.into_iter().map(|(k, v)| (k.to_string(), v)).collect())
}

#[test]
fn test_str() {
    let test = fields(vec![("str", string("test whitespace"))]);
    let expected = "/test whitespace/hello";
    assert_eq!(to_string(text("/:str/hello"), &test).unwrap(), expected);
}

#[test]
fn test_hypen() {
    let test = fields(vec![("str", string("test whitespace")), ("x", string("world"))]);
    let expected = "/test whitespace-world/hello";
    assert_eq!(to_string(text("/:str-:x/hello"), &test).unwrap(), expected);
}

#[test]
fn test_int() {
    let test = fields(vec![("int", Value::U64(1u32 as u64))]);
    let expected = "/1/hello";
    assert_eq!(to_string(text("/:int/hello"), &test).unwrap(), expected);
}

#[test]
fn test_tuple() {
    let test = fields(vec![(
        "tuple",
        Value::Tuple(vec![Value::U64(35523usize as u64), string("test whitespace")]),
    )]);
    let expected = "/35523-test whitespace";
    assert_eq!(to_string(text("/:tuple"), &test).unwrap(), expected);
}

#[test]
fn test_unit_variant() {
    let test = fields(vec![("unit_variant", Value::UnitVariant(text("A")))]);
    let expected = "/A";
    assert_eq!(to_string(text("/:unit_variant"), &test).unwrap(), expected);
}

#[test]
fn test_seq() {
    let seq: Vec<usize> = vec![1, 2, 6, 3, 7, 2, 5, 11];
    let test = fields(vec![(
        "seq",
        Value::Sequence(seq.into_iter().map(|n| Value::U64(n as u64)).collect()),
    )]);
    let expected = "/1-2-6-3-7-2-5-11";
    assert_eq!(to_string(text("/:seq"), &test).unwrap(), expected);
}

#[test]
fn test_uuid() {
    let test = fields(vec![("user_id", Value::Str(Uuid::nil().to_string()))]);
    let expected = "/users/00000000-0000-0000-0000-000000000000";
    assert_eq!(to_string(text("/users/:user_id"), &test).unwrap(), expected);
}

#[test]
fn test_either() {
    // `Either::Left(uuid)` is a newtype variant around the uuid's string
    let test = fields(vec![(
        "user_id",
        Value::NewtypeVariant(Box::new(Value::Str(Uuid::nil().to_string()))),
    )]);
    let expected = "/users/00000000-0000-0000-0000-000000000000";
    assert_eq!(to_string(text("/users/:user_id"), &test).unwrap(), expected);
}

#[test]
fn test_nested_field() {
    let test = fields(vec![
        ("user_id", Value::Str(Uuid::nil().to_string())),
        ("nested", fields(vec![("s", Value::U64(125454usize as u64))])),
    ]);
    let expected = "/users/00000000-0000-0000-0000-000000000000/125454";
    assert_eq!(to_string(text("/users/:user_id/:s"), &test).unwrap(), expected);
}
