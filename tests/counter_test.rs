use agent_stream_kit::{ASKit, AgentDefinition, AgentSpec, AgentStatus, IdGen};

const COUNTER_DEF: &str = "counter_test::common::agents::CounterAgent";

fn init() -> ASKit {
    let mut def = AgentDefinition::for_type("counter_test::common::agents", "CounterAgent");
    def.title = Some("Counter".to_string());
    def.inputs = Some(vec!["in".to_string(), "reset".to_string()]);
    def.outputs = Some(vec!["count".to_string()]);
    ASKit::init(vec![def])
}

#[test]
fn counter_test_test_register_agent_definiton() {
    let mut askit = init();

    let counter_def = askit.get_agent_definition(COUNTER_DEF).unwrap();
    assert_eq!(counter_def.title, Some("Counter".into()));
    assert_eq!(counter_def.inputs, Some(vec!["in".into(), "reset".into()]));
    assert_eq!(counter_def.outputs, Some(vec!["count".into()]));

    askit.quit();
}

#[test]
fn counter_test_test_agent_new() {
    let mut askit = init();
    let mut ids = IdGen::new();
    let def = askit.get_agent_definition(COUNTER_DEF).unwrap();
    let mut spec = AgentSpec::from_def(def, &mut ids);
    spec.id = "agent_1".into();
    askit.add_agent_internal(String::new(), spec).unwrap();
    assert_eq!(askit.agent_status("agent_1"), Some(AgentStatus::Init));
    assert!(askit.agent_status("agent_2").is_none());

    askit.quit();
}
