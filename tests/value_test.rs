use agent_stream_kit::{AgentError, AgentValue, JsonValue};

fn text(s: &str) -> String {
    s.to_string()
}

#[test]
fn test_agent_value_constructors() {
    let unit = AgentValue::unit();
    assert_eq!(unit, AgentValue::Unit);

    let boolean = AgentValue::boolean(true);
    assert_eq!(boolean, AgentValue::Boolean(true));

    let integer = AgentValue::integer(42);
    assert_eq!(integer, AgentValue::Integer(42));

    let number = AgentValue::number(3.14f64.to_bits());
    assert!(matches!(number, AgentValue::Number(_)));
    if let AgentValue::Number(num) = number {
        assert!((f64::from_bits(num) - 3.14).abs() < f64::EPSILON);
    }

    let string = AgentValue::string("hello");
    assert!(matches!(string, AgentValue::String(_)));
    assert_eq!(string.as_str().unwrap(), "hello");

    let text_value = AgentValue::string("multiline\ntext");
    assert!(matches!(text_value, AgentValue::String(_)));
    assert_eq!(text_value.as_str().unwrap(), "multiline\ntext");

    let array = AgentValue::array(vec![AgentValue::integer(1), AgentValue::integer(2)]);
    assert!(matches!(array, AgentValue::Array(_)));
    if let AgentValue::Array(arr) = array {
        assert_eq!(arr.len(), 2);
        assert_eq!(arr[0].as_i64().unwrap(), 1);
        assert_eq!(arr[1].as_i64().unwrap(), 2);
    }

    let obj = AgentValue::object(vec![
        (text("key1"), AgentValue::string("string1")),
        (text("key2"), AgentValue::integer(2)),
    ]);
    assert!(matches!(obj, AgentValue::Object(_)));
    assert_eq!(obj.get("key1").and_then(|v| v.as_str()), Some("string1"));
    assert_eq!(obj.get("key2").and_then(|v| v.as_i64()), Some(2));
}

#[test]
fn test_agent_value_from_json_value() {
    let null = AgentValue::from_json(JsonValue::Null).unwrap();
    assert_eq!(null, AgentValue::Unit);

    let boolean = AgentValue::from_json(JsonValue::Bool(true)).unwrap();
    assert_eq!(boolean, AgentValue::Boolean(true));

    let integer = AgentValue::from_json(JsonValue::Int(42)).unwrap();
    assert_eq!(integer, AgentValue::Integer(42));

    let number = AgentValue::from_json(JsonValue::Float(3.14f64.to_bits())).unwrap();
    assert!(matches!(number, AgentValue::Number(_)));
    if let AgentValue::Number(num) = number {
        assert!((f64::from_bits(num) - 3.14).abs() < f64::EPSILON);
    }

    let string = AgentValue::from_json(JsonValue::Str(text("hello"))).unwrap();
    if let AgentValue::String(s) = string {
        assert_eq!(s, "hello");
    } else {
        panic!("Expected string value");
    }

    let array = AgentValue::from_json(JsonValue::Array(vec![
        JsonValue::Int(1),
        JsonValue::Str(text("test")),
        JsonValue::Bool(true),
    ]))
    .unwrap();
    if let AgentValue::Array(arr) = array {
        assert_eq!(arr.len(), 3);
        assert_eq!(arr[0], AgentValue::Integer(1));
        if let AgentValue::String(s) = &arr[1] {
            assert_eq!(*s, "test");
        } else {
            panic!("Expected string value");
        }
        assert_eq!(arr[2], AgentValue::Boolean(true));
    } else {
        panic!("Expected array value");
    }

    let object = AgentValue::from_json(JsonValue::Object(vec![
        (text("key1"), JsonValue::Str(text("string1"))),
        (text("key2"), JsonValue::Int(2)),
    ]))
    .unwrap();
    assert!(object.is_object());
    assert_eq!(object.get("key1").and_then(|v| v.as_str()), Some("string1"));
    assert_eq!(object.get("key2").and_then(|v| v.as_i64()), Some(2));
}

#[test]
fn test_agent_value_set() {
    let mut obj = AgentValue::object(Vec::new());
    assert!(obj.set("key1".to_string(), AgentValue::integer(42)).is_ok());
    assert_eq!(obj.get_i64("key1"), Some(42));

    let mut not_obj = AgentValue::integer(10);
    assert!(not_obj.set("key1".to_string(), AgentValue::integer(42)).is_err());
}

#[test]
fn test_to_json() {
    assert_eq!(AgentValue::unit().to_json(), JsonValue::Null);
    assert_eq!(AgentValue::boolean(true).to_json(), JsonValue::Bool(true));
    assert_eq!(AgentValue::integer(42).to_json(), JsonValue::Int(42));
    assert_eq!(AgentValue::number(3.14f64.to_bits()).to_json(), JsonValue::Float(3.14f64.to_bits()));
    assert_eq!(AgentValue::string("hello").to_json(), JsonValue::Str(text("hello")));

    let array = AgentValue::array(vec![AgentValue::integer(1), AgentValue::string("test")]);
    assert_eq!(
        array.to_json(),
        JsonValue::Array(vec![JsonValue::Int(1), JsonValue::Str(text("test"))])
    );

    let obj = AgentValue::object(vec![
        (text("key1"), AgentValue::string("string1")),
        (text("key2"), AgentValue::integer(2)),
    ]);
    assert_eq!(
        obj.to_json(),
        JsonValue::Object(vec![
            (text("key1"), JsonValue::Str(text("string1"))),
            (text("key2"), JsonValue::Int(2)),
        ])
    );
}

#[test]
fn json_round_trip_keeps_values() {
    let v = AgentValue::object(vec![
        (text("a"), AgentValue::array(vec![AgentValue::number(2.5f64.to_bits()), AgentValue::unit()])),
        (text("b"), AgentValue::boolean(false)),
        (text("c"), AgentValue::number(3.0f64.to_bits())),
    ]);
    let back = AgentValue::from_json(v.to_json()).unwrap();
    assert_eq!(back, v);
    assert_eq!(back.to_json(), v.to_json());
}

#[test]
fn non_finite_numbers_become_null() {
    assert_eq!(AgentValue::number(f64::NAN.to_bits()).to_json(), JsonValue::Null);
    assert_eq!(AgentValue::number(f64::INFINITY.to_bits()).to_json(), JsonValue::Null);
    let r = AgentValue::from_json(JsonValue::Float(f64::INFINITY.to_bits()));
    assert!(matches!(r, Err(AgentError::InvalidValue(_))));
    let nested = AgentValue::from_json(JsonValue::Array(vec![JsonValue::Float(f64::NAN.to_bits())]));
    assert!(matches!(nested, Err(AgentError::InvalidValue(_))));
}

#[test]
fn as_i64_truncates_numbers() {
    assert_eq!(AgentValue::number(3.9f64.to_bits()).as_i64(), Some(3));
    assert_eq!(AgentValue::number((-2.5f64).to_bits()).as_i64(), Some(-2));
    assert_eq!(AgentValue::number(0.25f64.to_bits()).as_i64(), Some(0));
    assert_eq!(AgentValue::number(f64::NAN.to_bits()).as_i64(), Some(0));
    assert_eq!(AgentValue::number(1e300f64.to_bits()).as_i64(), Some(i64::MAX));
    assert_eq!(AgentValue::number((-1e300f64).to_bits()).as_i64(), Some(i64::MIN));
    assert_eq!(AgentValue::number(4503599627370497.0f64.to_bits()).as_i64(), Some(4503599627370497));
    assert_eq!(AgentValue::number(123456789.0f64.to_bits()).as_i64(), Some(123456789));
    assert_eq!(AgentValue::string("x").as_i64(), None);
}

#[test]
fn set_replaces_first_entry_and_appends_new_keys() {
    let mut obj = AgentValue::object_default();
    obj.set(text("a"), AgentValue::integer(1)).unwrap();
    obj.set(text("b"), AgentValue::integer(2)).unwrap();
    obj.set(text("a"), AgentValue::integer(3)).unwrap();
    assert_eq!(obj.get_i64("a"), Some(3));
    assert_eq!(obj.get_i64("b"), Some(2));
    assert_eq!(obj.as_object().unwrap().len(), 2);
    assert_eq!(obj.as_object().unwrap()[0].0, "a");
    let mut s = AgentValue::string("x");
    assert!(matches!(s.set(text("a"), AgentValue::unit()), Err(AgentError::InvalidValue(_))));
    assert_eq!(s, AgentValue::string("x"));
}

#[test]
fn observers_and_defaults() {
    assert!(AgentValue::unit().is_unit());
    assert!(AgentValue::boolean_default().is_boolean());
    assert_eq!(AgentValue::boolean_default().as_bool(), Some(false));
    assert_eq!(AgentValue::integer_default(), AgentValue::Integer(0));
    assert!(AgentValue::number_default().is_number());
    assert_eq!(AgentValue::string_default().as_str(), Some(""));
    assert!(AgentValue::array_default().is_array());
    assert!(AgentValue::object_default().is_object());
    assert_eq!(AgentValue::integer(1).as_bool(), None);
    assert!(AgentValue::integer(1).get("k").is_none());
    let o = AgentValue::object(vec![(text("s"), AgentValue::string("v")), (text("t"), AgentValue::boolean(true))]);
    assert_eq!(o.get_str("s"), Some("v"));
    assert_eq!(o.get_bool("t"), Some(true));
    assert!(o.get_array("s").is_none());
    assert!(o.get_object("s").is_none());
}
