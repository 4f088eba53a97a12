use agent_stream_kit::{ASKit, AgentConfigEntry, AgentDefinition, AgentValue};

const COUNTER_DEF: &str = "askit_test::common::agents::CounterAgent";

fn counter_definition() -> AgentDefinition {
    let mut def = AgentDefinition::for_type("askit_test::common::agents", "CounterAgent");
    def.title = Some("Counter".to_string());
    def.category = Some("Tests".to_string());
    def.inputs = Some(vec!["in".to_string(), "reset".to_string()]);
    def.outputs = Some(vec!["count".to_string()]);
    def.configs = Some(vec![(
        "initial_count".to_string(),
        AgentConfigEntry::new(AgentValue::integer(0), "integer"),
    )]);
    def.global_configs = Some(vec![(
        "global_string".to_string(),
        AgentConfigEntry::new(AgentValue::string("gs"), "string"),
    )]);
    def
}

fn probe_definition() -> AgentDefinition {
    let mut def = AgentDefinition::for_type("agent_stream_kit::test_utils", "TestProbeAgent");
    def.inputs = Some(vec!["*".to_string()]);
    def
}

fn init() -> ASKit {
    ASKit::init(vec![probe_definition(), counter_definition()])
}

#[test]
fn test_init() {
    let mut askit = init();

    let defs = askit.get_agent_definitions();
    assert_eq!(defs.len(), 6);
    let mut keys: Vec<String> = defs.iter().map(|d| d.name.clone()).collect();
    keys.sort();
    let expected = vec![
        "agent_stream_kit::board_agent::BoardInAgent",
        "agent_stream_kit::board_agent::BoardOutAgent",
        "agent_stream_kit::board_agent::VarInAgent",
        "agent_stream_kit::board_agent::VarOutAgent",
        "agent_stream_kit::test_utils::TestProbeAgent",
        "askit_test::common::agents::CounterAgent",
    ];
    assert_eq!(keys, expected);

    askit.quit();
}

#[test]
fn test_agent_definition() {
    let mut askit = init();

    let def = askit.get_agent_definition(COUNTER_DEF).unwrap();
    assert_eq!(def.name, COUNTER_DEF);

    askit.quit();
}

#[test]
fn test_agent_default_configs() {
    let mut askit = init();

    let def = askit.get_agent_definition(COUNTER_DEF).unwrap();
    let configs = def.configs.as_ref().unwrap();
    assert_eq!(configs.len(), 1);
    assert!(configs.iter().any(|(k, _)| k == "initial_count"));

    askit.quit();
}

#[test]
fn test_global_configs() {
    let mut askit = init();

    let gc = askit.get_global_configs(COUNTER_DEF).unwrap();
    assert_eq!(gc.get_string("global_string").unwrap(), "gs");

    askit.quit();
}

#[test]
fn registering_again_keeps_one_definition_and_merges_globals() {
    let mut askit = init();
    let mut again = counter_definition();
    again.title = Some("Counter 2".to_string());
    again.global_configs = Some(vec![(
        "other".to_string(),
        AgentConfigEntry::new(AgentValue::integer(7), "integer"),
    )]);
    askit.register_agent_definiton(again);
    assert_eq!(askit.get_agent_definitions().len(), 6);
    assert_eq!(askit.get_agent_definition(COUNTER_DEF).unwrap().title, Some("Counter 2".to_string()));
    let gc = askit.get_global_configs(COUNTER_DEF).unwrap();
    assert_eq!(gc.get_string("global_string").unwrap(), "gs");
    assert_eq!(gc.get("other"), Some(&AgentValue::integer(7)));
    assert!(askit.get_global_configs("missing").is_none());
}

#[test]
fn registering_distinct_definitions_yields_exactly_their_names() {
    let mut askit = ASKit::new();
    askit.register_agent_definiton(AgentDefinition::new("Agent", "a"));
    askit.register_agent_definiton(AgentDefinition::new("Agent", "b"));
    askit.register_agent_definiton(AgentDefinition::new("Agent", "c"));
    let names: Vec<String> = askit.get_agent_definitions().iter().map(|d| d.name.clone()).collect();
    assert_eq!(names, vec!["a", "b", "c"]);
    assert_eq!(askit.get_agent_definition("b").unwrap().name, "b");
    assert!(askit.get_agent_definition("d").is_none());
}

#[test]
fn config_specs_come_from_the_definition() {
    let askit = init();
    let specs = askit.get_agent_config_specs(COUNTER_DEF).unwrap();
    assert_eq!(specs.len(), 1);
    assert_eq!(specs[0].0, "initial_count");
    assert!(askit.get_agent_config_specs("agent_stream_kit::test_utils::TestProbeAgent").is_none());
    assert!(askit.get_agent_config_specs("missing").is_none());
}
