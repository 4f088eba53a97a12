use agent_stream_kit::{ASKit, AgentDefinition, AgentSpec, AgentStreamSpec, ChannelSpec, IdGen};

const COUNTER_DEF: &str = "stream_test::common::agents::CounterAgent";

fn init() -> ASKit {
    let mut def = AgentDefinition::for_type("stream_test::common::agents", "CounterAgent");
    def.inputs = Some(vec!["in".to_string(), "reset".to_string()]);
    def.outputs = Some(vec!["count".to_string()]);
    ASKit::init(vec![def])
}

#[test]
fn stream_test_test_agent_spec_from_def() {
    let askit = init();
    let mut ids = IdGen::new();

    let def = askit.get_agent_definition(COUNTER_DEF).unwrap();

    let spec = AgentSpec::from_def(def, &mut ids);

    assert_eq!(spec.def_name, COUNTER_DEF);

    let spec2 = AgentSpec::from_def(def, &mut ids);
    assert_eq!(spec2.def_name, COUNTER_DEF);
    assert!(spec.id != spec2.id);
}

#[test]
fn stream_test_test_agent_stream_add_agent() {
    let askit = init();
    let mut ids = IdGen::new();

    let mut spec = AgentStreamSpec::new();
    assert_eq!(spec.agents.len(), 0);

    let def = askit.get_agent_definition(COUNTER_DEF).unwrap();
    let agent_spec = AgentSpec::from_def(def, &mut ids);

    spec.add_agent(agent_spec);

    assert_eq!(spec.agents.len(), 1);
}

#[test]
fn stream_test_test_agent_stream_remove_agent() {
    let askit = init();
    let mut ids = IdGen::new();

    let mut spec = AgentStreamSpec::new();
    assert_eq!(spec.agents.len(), 0);

    let def = askit.get_agent_definition(COUNTER_DEF).unwrap();
    let agent_spec = AgentSpec::from_def(def, &mut ids);
    let agent_id = agent_spec.id.clone();

    spec.add_agent(agent_spec);
    assert_eq!(spec.agents.len(), 1);

    spec.remove_agent(&agent_id);
    assert_eq!(spec.agents.len(), 0);
}

fn channel(s: &str, sp: &str, t: &str, tp: &str) -> ChannelSpec {
    ChannelSpec {
        source: s.to_string(),
        source_handle: sp.to_string(),
        target: t.to_string(),
        target_handle: tp.to_string(),
    }
}

#[test]
fn stream_spec_channels_are_added_and_removed() {
    let mut spec = AgentStreamSpec::new();
    spec.add_channels(channel("a", "out", "b", "in"));
    spec.add_channels(channel("a", "out", "c", "in"));
    assert_eq!(spec.channels.len(), 2);
    let removed = spec.remove_channel(&channel("a", "out", "c", "in")).unwrap();
    assert_eq!(removed.target, "c");
    assert_eq!(spec.channels.len(), 1);
    assert!(spec.remove_channel(&channel("x", "out", "c", "in")).is_none());
}

#[test]
fn copy_sub_stream_mints_fresh_ids_and_keeps_linkage() {
    let askit = init();
    let mut ids = IdGen::new();
    let def = askit.get_agent_definition(COUNTER_DEF).unwrap();
    let mut a = def.to_spec();
    a.id = "old_a".to_string();
    let mut b = def.to_spec();
    b.id = "old_b".to_string();
    let agents = vec![a, b];
    let channels = vec![
        channel("old_a", "count", "old_b", "in"),
        channel("old_a", "count", "outside", "in"),
    ];
    let mut fresh = IdGen::new();
    let _ = fresh.fresh();
    let (new_agents, new_channels) = agent_stream_kit::spec::copy_sub_stream(&agents, &channels, &mut ids);
    assert_eq!(new_agents.len(), 2);
    assert_eq!(new_agents[0].id, "1");
    assert_eq!(new_agents[1].id, "2");
    assert_ne!(new_agents[0].id, new_agents[1].id);
    assert_eq!(new_agents[0].def_name, COUNTER_DEF);
    assert_eq!(new_channels.len(), 1);
    assert_eq!(new_channels[0].source, "1");
    assert_eq!(new_channels[0].target, "2");
    assert_eq!(new_channels[0].source_handle, "count");
}
