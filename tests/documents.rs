use kagikachi::json::Value;
use kagikachi::parser::ParseError;

fn text_of(v: &Value) -> String {
    v.serialize()
}

#[test]
fn empty_text_is_null() {
    assert_eq!(text_of(&Value::deserialize("").unwrap()), "null");
}

#[test]
fn scalars_parse_and_print() {
    assert_eq!(text_of(&Value::deserialize("  42").unwrap()), "42");
    assert_eq!(text_of(&Value::deserialize("-17").unwrap()), "-17");
    assert_eq!(text_of(&Value::deserialize("true").unwrap()), "true");
    assert_eq!(text_of(&Value::deserialize("false").unwrap()), "false");
    assert_eq!(text_of(&Value::deserialize("null").unwrap()), "null");
    assert_eq!(text_of(&Value::deserialize("\"Ann\"").unwrap()), "\"Ann\"");
    assert_eq!(text_of(&Value::deserialize("1.5e3").unwrap()), "1.5e3");
}

#[test]
fn integer_limits() {
    assert_eq!(text_of(&Value::deserialize("9223372036854775807").unwrap()), "9223372036854775807");
    assert_eq!(text_of(&Value::deserialize("-9223372036854775808").unwrap()), "-9223372036854775808");
    assert!(matches!(Value::deserialize("9223372036854775808"), Err(ParseError::InvalidToken)));
}

#[test]
fn containers_print_in_order() {
    let v = Value::deserialize("{\"a\": [1,2, {\"b\":null}], \"c\" : \"x\"}").unwrap();
    assert_eq!(text_of(&v), "{\"a\": [1, 2, {\"b\": null}], \"c\": \"x\"}");
    assert_eq!(text_of(&Value::deserialize("[]").unwrap()), "[]");
    assert_eq!(text_of(&Value::deserialize("{ }").unwrap()), "{}");
}

#[test]
fn repeated_key_keeps_last_value() {
    let v = Value::deserialize("{\"a\": 1, \"a\": 2}").unwrap();
    assert_eq!(text_of(&v), "{\"a\": 2}");
}

#[test]
fn escapes_pass_through() {
    let v = Value::deserialize("\"a\\\"b\\n\"").unwrap();
    assert_eq!(text_of(&v), "\"a\\\"b\\n\"");
}

#[test]
fn parse_errors() {
    assert!(matches!(Value::deserialize("x"), Err(ParseError::InvalidValue)));
    assert!(matches!(Value::deserialize("[1,"), Err(ParseError::InvalidData)));
    assert!(matches!(Value::deserialize("[1 2]"), Err(ParseError::InvalidToken)));
    assert!(matches!(Value::deserialize("{1: 2}"), Err(ParseError::InvalidKey)));
    assert!(matches!(Value::deserialize("{\"a\" 2}"), Err(ParseError::InvalidToken)));
    assert!(matches!(Value::deserialize("1.2.3"), Err(ParseError::InvalidToken)));
    assert!(matches!(Value::deserialize("1-2"), Err(ParseError::InvalidToken)));
    assert!(matches!(Value::deserialize("1e"), Err(ParseError::InvalidToken)));
    assert!(matches!(Value::deserialize("tru"), Err(ParseError::InvalidData)));
    assert!(matches!(Value::deserialize("trux"), Err(ParseError::InvalidToken)));
    assert!(matches!(Value::deserialize("\"abc"), Err(ParseError::InvalidData)));
    assert!(matches!(Value::deserialize("   "), Err(ParseError::InvalidData)));
    assert_eq!(ParseError::InvalidToken.as_str(), "Invalid token");
}

#[test]
fn reparse_prints_the_same() {
    let texts = ["{\"a\": [1, 2.50, -3e2], \"b\": {\"c\": \"d\\\"e\"}, \"t\": true}", "[[], {}, null, false]", "  7  "];
    for t in texts.iter() {
        let once = text_of(&Value::deserialize(t).unwrap());
        let twice = text_of(&Value::deserialize(&once).unwrap());
        assert_eq!(once, twice);
    }
}

#[test]
fn path_reads() {
    let v = Value::deserialize("{\"user\": {\"name\": \"Ann\", \"tags\": [\"x\", \"y\"]}}").unwrap();
    assert_eq!(text_of(v.get_element("user.name").unwrap()), "\"Ann\"");
    assert_eq!(text_of(v.get_element("user.tags.1").unwrap()), "\"y\"");
    assert_eq!(text_of(v.get_element("").unwrap()), text_of(&v));
    assert_eq!(v.get_element("user.age").err().unwrap(), "Key age not found");
    assert_eq!(v.get_element("user.tags.5").err().unwrap(), "Index 5 out of range");
    assert_eq!(v.get_element("user.tags.x").err().unwrap(), "x is not a valid index for array");
    assert_eq!(v.get_element("user.name.first").err().unwrap(), "Invalid type: expected Object, got String");
}

#[test]
fn path_writes_then_reads() {
    let mut v = Value::deserialize("{\"a\": [1, {\"b\": 2}]}").unwrap();
    v.set_element("a.1.b", Value::deserialize("[true]").unwrap()).unwrap();
    assert_eq!(text_of(v.get_element("a.1.b").unwrap()), "[true]");
    assert_eq!(v.set_element("a.7", Value::Null).err().unwrap(), "Index 7 out of range");
    assert_eq!(text_of(&v), "{\"a\": [1, {\"b\": [true]}]}");
}

#[test]
fn path_removals() {
    let mut v = Value::deserialize("{\"a\": [1, 2, 3], \"k\": {\"x\": 1, \"y\": 2}}").unwrap();
    v.remove_element("a.0").unwrap();
    v.remove_element("k.x").unwrap();
    assert_eq!(text_of(&v), "{\"a\": [2, 3], \"k\": {\"y\": 2}}");
    assert_eq!(v.remove_element("a.9").err().unwrap(), "Index out of range");
    assert_eq!(v.remove_element("a.z").err().unwrap(), "Invalid index");
    assert_eq!(v.remove_element("k.q").err().unwrap(), "Key not found");
    assert_eq!(v.remove_element("k.y.z").err().unwrap(), "Invalid type");
}

#[test]
fn typed_accessors() {
    let v = Value::deserialize("{\"s\": \"t\", \"a\": [1], \"f\": -2.5, \"i\": 3}").unwrap();
    assert_eq!(v.object().unwrap().len(), 4);
    assert_eq!(v.get_element("s").unwrap().string().unwrap(), "t");
    assert_eq!(v.get_element("a").unwrap().array().unwrap().len(), 1);
    assert_eq!(v.get_element("f").unwrap().float().unwrap(), "-2.5");
    assert_eq!(v.get_element("i").unwrap().integer().unwrap(), 3);
    assert_eq!(v.get_element("i").unwrap().string().err().unwrap(), "Invalid type");
    assert_eq!(v.integer().err().unwrap(), "Invalid type");
}
