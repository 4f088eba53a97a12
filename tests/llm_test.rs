use agent_stream_kit::{AgentError, AgentValue, JsonValue, Message, ToolCall, ToolCallFunction};

fn object(entries: Vec<(&str, AgentValue)>) -> AgentValue {
    AgentValue::object(entries.into_iter().map(|(k, v)| (k.to_string(), v)).collect())
}

#[test]
fn test_message_to_from_agent_value() {
    let msg = Message::user("What is the weather today?".to_string());
    let value = msg.to_value().unwrap();
    assert!(value.is_object());
    assert_eq!(value.get_str("role"), Some("user"));
    assert_eq!(value.get_str("content"), Some("What is the weather today?"));
    let msg_converted = Message::try_from_value(&value).unwrap();
    assert_eq!(msg_converted.role, "user");
    assert_eq!(msg_converted.content, "What is the weather today?");
}

#[test]
fn test_message_with_tool_calls_to_from_agent_value() {
    let mut msg = Message::assistant("".to_string());
    msg.tool_calls = Some(vec![ToolCall {
        function: ToolCallFunction {
            id: Some("call1".to_string()),
            name: "get_weather".to_string(),
            parameters: JsonValue::Object(vec![(
                "location".to_string(),
                JsonValue::Str("San Francisco".to_string()),
            )]),
        },
    }]);
    let value = msg.to_value().unwrap();
    assert_eq!(value.get_str("role"), Some("assistant"));
    assert_eq!(value.get_str("content"), Some(""));
    let calls = value.get_array("tool_calls").unwrap();
    assert_eq!(calls.len(), 1);
    let function = calls[0].get("function").unwrap();
    assert_eq!(function.get_str("name"), Some("get_weather"));
    assert_eq!(function.get("parameters").unwrap().get_str("location"), Some("San Francisco"));

    let msg_converted = Message::try_from_value(&value).unwrap();
    assert_eq!(msg_converted.role, "assistant");
    assert_eq!(msg_converted.content, "");
    let tool_calls = msg_converted.tool_calls.unwrap();
    assert_eq!(tool_calls.len(), 1);
    assert_eq!(tool_calls[0].function.name, "get_weather");
    assert_eq!(
        tool_calls[0].function.parameters,
        JsonValue::Object(vec![("location".to_string(), JsonValue::Str("San Francisco".to_string()))])
    );
}

#[test]
fn test_tool_message_to_from_agent_value() {
    let msg = Message::tool("get_time".to_string(), "2025-01-02 03:04:05".to_string());
    let value = msg.to_value().unwrap();
    assert_eq!(value.get_str("role"), Some("tool"));
    assert_eq!(value.get_str("tool_name"), Some("get_time"));
    assert_eq!(value.get_str("content"), Some("2025-01-02 03:04:05"));
    let msg_converted = Message::try_from_value(&value).unwrap();
    assert_eq!(msg_converted.role, "tool");
    assert_eq!(msg_converted.tool_name.unwrap(), "get_time");
    assert_eq!(msg_converted.content, "2025-01-02 03:04:05");
}

#[test]
fn test_message_from_string_value() {
    let value = AgentValue::string("Just a simple message");
    let msg = Message::try_from_value(&value).unwrap();
    assert_eq!(msg.role, "user");
    assert_eq!(msg.content, "Just a simple message");
}

#[test]
fn test_message_from_object_value() {
    let value = object(vec![
        ("role", AgentValue::string("assistant")),
        ("content", AgentValue::string("Here is some information.")),
    ]);
    let msg = Message::try_from_value(&value).unwrap();
    assert_eq!(msg.role, "assistant");
    assert_eq!(msg.content, "Here is some information.");
}

#[test]
fn test_message_from_invalid_value() {
    let value = AgentValue::integer(42);
    let result: Result<Message, AgentError> = Message::try_from_value(&value);
    assert!(result.is_err());
}

#[test]
fn test_message_invalid_object() {
    let value = object(vec![("some_key", AgentValue::string("some_value"))]);
    let result: Result<Message, AgentError> = Message::try_from_value(&value);
    assert!(result.is_err());
}

#[test]
fn test_message_to_agent_value_with_tool_calls() {
    let message = Message {
        role: "assistant".to_string(),
        content: "".to_string(),
        thinking: None,
        streaming: false,
        tool_calls: Some(vec![ToolCall {
            function: ToolCallFunction {
                id: Some("call1".to_string()),
                name: "active_applications".to_string(),
                parameters: JsonValue::Object(Vec::new()),
            },
        }]),
        id: None,
        tool_name: None,
    };
    let value = message.to_value().unwrap();
    let back = Message::try_from_value(&value).unwrap();
    assert_eq!(back.role, "assistant");
    assert_eq!(back.content, "");
    let tool_calls = back.tool_calls.as_ref().unwrap();
    assert_eq!(tool_calls.len(), 1);
    assert_eq!(tool_calls[0].function.name, "active_applications");
    assert_eq!(tool_calls[0].function.parameters, JsonValue::Object(Vec::new()));
    assert_eq!(back, message);
}

#[test]
fn test_message_partial_eq() {
    let msg1 = Message::user("hello".to_string());
    let msg2 = Message::user("hello".to_string());
    let msg3 = Message::user("world".to_string());
    assert_eq!(msg1, msg2);
    assert_ne!(msg1, msg3);
    let mut msg4 = Message::user("hello".to_string());
    msg4.id = Some("123".to_string());
    assert_ne!(msg1, msg4);
}

#[test]
fn message_field_errors_and_defaults() {
    let no_role = object(vec![("content", AgentValue::string("c")), ("streaming", AgentValue::boolean(true))]);
    let m = Message::try_from_value(&no_role).unwrap();
    assert_eq!(m.role, "user");
    assert!(m.streaming);
    let bad_tool_name = object(vec![("content", AgentValue::string("c")), ("tool_name", AgentValue::integer(1))]);
    assert!(matches!(Message::try_from_value(&bad_tool_name), Err(AgentError::InvalidValue(_))));
    let bad_calls = object(vec![("content", AgentValue::string("c")), ("tool_calls", AgentValue::integer(1))]);
    assert!(matches!(Message::try_from_value(&bad_calls), Err(AgentError::InvalidValue(_))));
    let call_without_function = object(vec![
        ("content", AgentValue::string("c")),
        ("tool_calls", AgentValue::array(vec![object(vec![("id", AgentValue::string("x"))])])),
    ]);
    assert!(matches!(Message::try_from_value(&call_without_function), Err(AgentError::InvalidValue(_))));
    let mut full = Message::system("s".to_string());
    full.id = Some("m1".to_string());
    full.thinking = Some("t".to_string());
    full.streaming = true;
    let back = Message::try_from_value(&full.to_value().unwrap()).unwrap();
    assert_eq!(back, full);
    let mut nan = Message::user("u".to_string());
    nan.tool_calls = Some(vec![ToolCall {
        function: ToolCallFunction { id: None, name: "f".to_string(), parameters: JsonValue::Float(f64::NAN.to_bits()) },
    }]);
    assert!(matches!(nan.to_value(), Err(AgentError::InvalidValue(_))));
}
