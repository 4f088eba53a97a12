use agent_stream_kit::AgentValue;

fn obj2() -> AgentValue {
    AgentValue::object(vec![
        ("key1".to_string(), AgentValue::string("string1")),
        ("key2".to_string(), AgentValue::integer(2)),
    ])
}

#[test]
fn test_partial_eq() {
    assert_eq!(AgentValue::unit(), AgentValue::unit());
    assert_eq!(AgentValue::boolean(true), AgentValue::boolean(true));
    let integer1 = AgentValue::integer(42);
    assert_eq!(integer1, AgentValue::integer(42));
    assert_ne!(integer1, AgentValue::integer(100));
    assert_eq!(AgentValue::number(3.14f64.to_bits()), AgentValue::number(3.14f64.to_bits()));
    assert_eq!(AgentValue::string("hello"), AgentValue::string("hello"));
    let obj1 = AgentValue::object(vec![
        ("key1".to_string(), AgentValue::string("value1")),
        ("key2".to_string(), AgentValue::integer(2)),
    ]);
    let objb = AgentValue::object(vec![
        ("key1".to_string(), AgentValue::string("value1")),
        ("key2".to_string(), AgentValue::integer(2)),
    ]);
    assert_eq!(obj1, objb);
    let arr1 = AgentValue::array(vec![AgentValue::integer(1), AgentValue::string("two"), AgentValue::boolean(true)]);
    let arr2 = AgentValue::array(vec![AgentValue::integer(1), AgentValue::string("two"), AgentValue::boolean(true)]);
    assert_eq!(arr1, arr2);
    assert_ne!(AgentValue::boolean(true), AgentValue::integer(1));
}

#[test]
fn test_agent_value_test_methods() {
    let all = vec![
        AgentValue::unit(),
        AgentValue::boolean(true),
        AgentValue::integer(42),
        AgentValue::number(3.14f64.to_bits()),
        AgentValue::string("hello"),
        AgentValue::array(vec![AgentValue::integer(1)]),
        obj2(),
    ];
    for (i, v) in all.iter().enumerate() {
        assert_eq!(v.is_unit(), i == 0);
        assert_eq!(v.is_boolean(), i == 1);
        assert_eq!(v.is_integer(), i == 2);
        assert_eq!(v.is_number(), i == 3);
        assert_eq!(v.is_string(), i == 4);
        assert_eq!(v.is_array(), i == 5);
        assert_eq!(v.is_object(), i == 6);
    }
}

#[test]
fn test_agent_value_as_methods() {
    let boolean = AgentValue::boolean(true);
    assert_eq!(boolean.as_bool(), Some(true));
    assert_eq!(boolean.as_i64(), None);
    assert_eq!(boolean.as_str(), None);
    assert!(boolean.as_array().is_none());
    assert!(boolean.as_object().is_none());

    let integer = AgentValue::integer(42);
    assert_eq!(integer.as_bool(), None);
    assert_eq!(integer.as_i64(), Some(42));
    assert_eq!(integer.as_str(), None);

    let number = AgentValue::number(3.14f64.to_bits());
    assert_eq!(number.as_bool(), None);
    assert_eq!(number.as_i64(), Some(3));
    assert_eq!(number.as_str(), None);

    let string = AgentValue::string("hello");
    assert_eq!(string.as_str(), Some("hello"));
    assert_eq!(string.as_i64(), None);

    let array = AgentValue::array(vec![AgentValue::integer(1), AgentValue::integer(2)]);
    assert!(array.as_array().is_some());
    if let Some(arr) = array.as_array() {
        assert_eq!(arr.len(), 2);
        assert_eq!(arr[0].as_i64().unwrap(), 1);
        assert_eq!(arr[1].as_i64().unwrap(), 2);
    }
    assert!(array.as_object().is_none());

    let mut array = AgentValue::array(vec![AgentValue::integer(1), AgentValue::integer(2)]);
    if let Some(arr) = array.as_array_mut() {
        arr.push(AgentValue::integer(3));
    }
    assert_eq!(array.as_array().unwrap().len(), 3);

    let obj = obj2();
    assert!(obj.as_array().is_none());
    assert!(obj.as_object().is_some());
    assert_eq!(obj.get("key1").and_then(|v| v.as_str()), Some("string1"));
    assert_eq!(obj.get("key2").and_then(|v| v.as_i64()), Some(2));

    let mut obj = obj2();
    if let Some(value) = obj.as_object_mut() {
        value.push(("key3".to_string(), AgentValue::boolean(true)));
    }
    assert_eq!(obj.get_bool("key3"), Some(true));
}

#[test]
fn test_agent_value_get_methods() {
    const KEY: &str = "key";
    assert_eq!(AgentValue::boolean(true).get(KEY), None);
    assert_eq!(AgentValue::integer(42).get(KEY), None);
    assert_eq!(AgentValue::number(3.14f64.to_bits()).get(KEY), None);
    assert_eq!(AgentValue::string("hello").get(KEY), None);
    let array = AgentValue::array(vec![AgentValue::integer(1), AgentValue::integer(2)]);
    assert_eq!(array.get(KEY), None);
    let mut array = AgentValue::array(vec![AgentValue::integer(1), AgentValue::integer(2)]);
    assert_eq!(array.get_mut(KEY), None);

    let mut obj = AgentValue::object(vec![
        ("k_boolean".to_string(), AgentValue::boolean(true)),
        ("k_integer".to_string(), AgentValue::integer(42)),
        ("k_number".to_string(), AgentValue::number(3.14f64.to_bits())),
        ("k_string".to_string(), AgentValue::string("string1")),
        ("k_array".to_string(), AgentValue::array(vec![AgentValue::integer(1)])),
        (
            "k_object".to_string(),
            AgentValue::object(vec![("inner_key".to_string(), AgentValue::integer(100))]),
        ),
    ]);
    assert_eq!(obj.get(KEY), None);
    assert_eq!(obj.get_bool("k_boolean"), Some(true));
    assert_eq!(obj.get_i64("k_integer"), Some(42));
    assert_eq!(obj.get_i64("k_number"), Some(3));
    assert_eq!(obj.get_str("k_string"), Some("string1"));
    assert!(obj.get_array("k_array").is_some());
    assert!(obj.get_array_mut("k_array").is_some());
    assert!(obj.get_object("k_object").is_some());
    assert!(obj.get_object_mut("k_object").is_some());
    if let Some(v) = obj.get_mut("k_integer") {
        *v = AgentValue::integer(7);
    }
    assert_eq!(obj.get_i64("k_integer"), Some(7));
}

#[test]
fn test_agent_value_default() {
    assert_eq!(AgentValue::default(), AgentValue::Unit);
    assert_eq!(AgentValue::boolean_default(), AgentValue::Boolean(false));
    assert_eq!(AgentValue::integer_default(), AgentValue::Integer(0));
    assert_eq!(AgentValue::number_default(), AgentValue::Number(0.0f64.to_bits()));
    assert_eq!(AgentValue::string_default(), AgentValue::String(String::new()));
    assert_eq!(AgentValue::array_default(), AgentValue::Array(Vec::new()));
    assert_eq!(AgentValue::object_default(), AgentValue::Object(Vec::new()));
}

#[test]
fn test_agent_value_into() {
    let from_unit: AgentValue = ().into();
    assert_eq!(from_unit, AgentValue::Unit);
    let from_bool: AgentValue = true.into();
    assert_eq!(from_bool, AgentValue::Boolean(true));
    let from_i32: AgentValue = 42i32.into();
    assert_eq!(from_i32, AgentValue::Integer(42));
    let from_i64: AgentValue = 100i64.into();
    assert_eq!(from_i64, AgentValue::Integer(100));
    let from_f64 = AgentValue::number(3.14f64.to_bits());
    assert_eq!(from_f64, AgentValue::Number(3.14f64.to_bits()));
    let from_string: AgentValue = "hello".to_string().into();
    assert_eq!(from_string, AgentValue::String("hello".to_string()));
    let from_str = AgentValue::string("world");
    assert_eq!(from_str, AgentValue::String("world".to_string()));
}

#[test]
fn clone_copies_deeply() {
    let v = obj2();
    let mut w = v.clone();
    w.set("key1".to_string(), AgentValue::integer(9)).unwrap();
    assert_eq!(v.get_str("key1"), Some("string1"));
    assert_eq!(w.get_i64("key1"), Some(9));
}
