use agent_stream_kit::{
    ASKit, AgentConfigs, AgentContext, AgentDefinition, AgentError, AgentStream, AgentStreamSpec, AgentValue, IdGen,
};

#[test]
fn object_keeps_one_entry_per_key() {
    let v = AgentValue::object(vec![
        ("a".to_string(), AgentValue::integer(1)),
        ("b".to_string(), AgentValue::integer(2)),
        ("a".to_string(), AgentValue::integer(3)),
    ]);
    let entries = v.as_object().unwrap();
    assert_eq!(entries.len(), 2);
    assert_eq!(entries[0].0, "a");
    assert_eq!(v.get_i64("a"), Some(3));
    assert_eq!(v.get_i64("b"), Some(2));
}

#[test]
fn map_frame_length_must_fit_an_i64() {
    let mut ids = IdGen::new();
    let ctx = AgentContext::new(&mut ids);
    assert!(matches!(ctx.push_map_frame(0, usize::MAX), Err(AgentError::InvalidValue(_))));
    let ok = ctx.push_map_frame(5, i64::MAX as usize).unwrap();
    assert_eq!(ok.current_map_frame().unwrap(), Some((5, i64::MAX as usize)));
}

#[test]
fn new_agent_spec_uses_the_definition() {
    let mut hub = ASKit::init(vec![AgentDefinition::new("Agent", "d")]);
    let spec = hub.new_agent_spec("d").unwrap();
    assert_eq!(spec.def_name, "d");
    assert!(!spec.id.is_empty());
    assert!(matches!(hub.new_agent_spec("missing"), Err(AgentError::AgentDefinitionNotFound(_))));
}

#[test]
fn global_configs_map_round_trips() {
    let mut hub = ASKit::new();
    let mut a = AgentConfigs::new();
    a.set("x".to_string(), AgentValue::integer(1));
    let mut b = AgentConfigs::new();
    b.set("y".to_string(), AgentValue::integer(2));
    hub.set_global_configs_map(vec![("d1".to_string(), a), ("d2".to_string(), b)]);
    let map = hub.get_global_configs_map();
    assert_eq!(map.len(), 2);
    assert_eq!(map[0].0, "d1");
    assert_eq!(map[1].1.get("y"), Some(&AgentValue::integer(2)));
}

#[test]
fn streams_are_listed_as_specs_and_accessed() {
    let mut hub = ASKit::new();
    let s = hub.new_agent_stream("s").unwrap();
    let specs = hub.get_agent_streams();
    assert_eq!(specs.len(), 1);
    assert!(specs[0].agents.is_empty());
    let mut ids = IdGen::new();
    let mut st = AgentStream::new("n".to_string(), AgentStreamSpec::new(), &mut ids);
    assert_eq!(st.id(), "1");
    assert_eq!(st.name(), "n");
    assert!(!st.running());
    st.set_name("m".to_string());
    assert_eq!(st.name(), "m");
    st.spec_mut().run_on_start = true;
    assert!(st.spec().run_on_start);
    assert!(!s.is_empty());
}

#[test]
fn init_seeds_global_configs_of_given_definitions() {
    let mut d = AgentDefinition::new("Agent", "g");
    d.global_configs = Some(vec![(
        "k".to_string(),
        agent_stream_kit::AgentConfigEntry::new(AgentValue::string("v"), "string"),
    )]);
    let hub = ASKit::init(vec![d]);
    assert_eq!(hub.get_global_configs("g").unwrap().get_string("k").unwrap(), "v");
    assert_eq!(hub.get_agent_definition("g").unwrap().kind, "Agent");
}
