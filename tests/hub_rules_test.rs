use agent_stream_kit::{
    ASKit, AgentConfigs, AgentDefinition, AgentError, AgentSpec, AgentStatus, AgentStreamSpec, AgentValue,
    ChannelSpec, InputAction,
};

const COUNTER: &str = "hub_rules_test::agents::CounterAgent";
const PROBE: &str = "hub_rules_test::agents::TestProbeAgent";

fn hub() -> ASKit {
    let counter = AgentDefinition::for_type("hub_rules_test::agents", "CounterAgent");
    let probe = AgentDefinition::for_type("hub_rules_test::agents", "TestProbeAgent");
    let mut hub = ASKit::init(vec![counter, probe]);
    hub.ready();
    hub
}

fn spec(id: &str, def: &str) -> AgentSpec {
    let mut s = AgentDefinition::new("Agent", def).to_spec();
    s.id = id.to_string();
    s
}

fn channel(s: &str, sp: &str, t: &str, tp: &str) -> ChannelSpec {
    ChannelSpec {
        source: s.to_string(),
        source_handle: sp.to_string(),
        target: t.to_string(),
        target_handle: tp.to_string(),
    }
}

#[test]
fn config_to_stopped_agent_without_configs_fails() {
    let mut hub = hub();
    let s = hub.new_agent_stream("s").unwrap();
    hub.add_agent(&s, spec("a", COUNTER)).unwrap();
    let ctx = hub.new_context();
    let r = hub.agent_input("a", ctx, "config:k".to_string(), AgentValue::integer(1));
    assert!(matches!(r, Err(AgentError::NoConfig)));
    assert!(matches!(hub.set_agent_config("a", "k".to_string(), AgentValue::unit()), Err(AgentError::NoConfig)));
    hub.store_agent_configs("a", AgentConfigs::new()).unwrap();
    let ctx = hub.new_context();
    assert!(matches!(
        hub.agent_input("a", ctx, "config:k".to_string(), AgentValue::integer(1)).unwrap(),
        InputAction::ConfigApplied { .. }
    ));
}

#[test]
fn added_stream_checks_before_it_changes_anything() {
    let mut hub = hub();
    let mut unknown = AgentStreamSpec::new();
    unknown.add_agent(spec("x", "nope"));
    assert!(matches!(hub.add_agent_stream("u".to_string(), unknown), Err(AgentError::UnknownDefName(_))));

    let mut empty_pin = AgentStreamSpec::new();
    empty_pin.add_agent(spec("x", COUNTER));
    empty_pin.add_channels(channel("x", "", "x", "in"));
    assert!(matches!(hub.add_agent_stream("e".to_string(), empty_pin), Err(AgentError::EmptySourceHandle)));

    let mut empty_target = AgentStreamSpec::new();
    empty_target.add_agent(spec("x", COUNTER));
    empty_target.add_channels(channel("x", "out", "x", ""));
    assert!(matches!(hub.add_agent_stream("t".to_string(), empty_target), Err(AgentError::EmptyTargetHandle)));
    assert!(hub.get_agent_stream_infos().is_empty());
    assert!(hub.get_agent_spec("x").is_none());

    let next = hub.ids_left();
    let minted = (usize::MAX - next).to_string();
    let mut clash = AgentStreamSpec::new();
    clash.add_agent(spec(&minted, COUNTER));
    let sid = hub.add_agent_stream("c".to_string(), clash).unwrap();
    assert_eq!(hub.get_agent_stream_spec(&sid).unwrap().agents[0].id, minted);
    let s2 = hub.new_agent_stream("taken").unwrap();
    let next = hub.ids_left();
    let taken = (usize::MAX - next).to_string();
    hub.add_agent(&s2, spec(&taken, COUNTER)).unwrap();
    let mut clash2 = AgentStreamSpec::new();
    clash2.add_agent(spec("y", COUNTER));
    assert!(matches!(hub.add_agent_stream("d".to_string(), clash2), Err(AgentError::DuplicateId(_))));
    assert_eq!(hub.get_agent_stream_infos().len(), 2);
}

#[test]
fn added_stream_puts_agents_and_channels_in_the_hub() {
    let mut hub = hub();
    let mut s = AgentStreamSpec::new();
    s.add_agent(spec("a", COUNTER));
    s.add_agent(spec("b", PROBE));
    s.add_channels(channel("a", "count", "b", "in"));
    s.add_channels(channel("a", "count", "b", "in"));
    let id = hub.add_agent_stream("copy".to_string(), s).unwrap();
    let stored = hub.get_agent_stream_spec(&id).unwrap();
    let a = stored.agents[0].id.clone();
    let b = stored.agents[1].id.clone();
    assert_ne!(a, "a");
    assert_ne!(b, "b");
    assert_eq!(hub.agent_status(&a), Some(AgentStatus::Init));
    assert_eq!(hub.agent_status(&b), Some(AgentStatus::Init));
    assert_eq!(stored.channels.len(), 2);
    assert_eq!(hub.agent_out_deliveries(&a, &"count".to_string()), vec![(b.clone(), "in".to_string())]);
    assert!(!hub.get_agent_stream_info(&id).unwrap().running);
}

#[test]
fn stopping_a_stream_returns_what_ran_and_leaves_all_in_init() {
    let mut hub = hub();
    let s = hub.new_agent_stream("s").unwrap();
    hub.add_agent(&s, spec("a", COUNTER)).unwrap();
    hub.add_agent(&s, spec("b", COUNTER)).unwrap();
    hub.start_agent("b").unwrap();
    let stopped = hub.stop_agent_stream(&s).unwrap();
    assert_eq!(stopped, vec!["b".to_string()]);
    assert_eq!(hub.agent_status("a"), Some(AgentStatus::Init));
    assert_eq!(hub.agent_status("b"), Some(AgentStatus::Init));
    let started = hub.start_agent_stream(&s).unwrap();
    assert_eq!(started, vec!["a".to_string(), "b".to_string()]);
}

#[test]
fn contexts_and_observers_get_fresh_ids() {
    let mut hub = hub();
    let a = hub.new_context();
    let b = hub.new_context();
    assert_ne!(a.id(), b.id());
    assert!(a.frames().is_none());
    let (_, c) = hub.write_board_value("b".to_string()).unwrap();
    assert_eq!(c.id(), b.id() + 1);
    assert!(c.get_var("x").is_none());
    let o1 = hub.subscribe();
    let o2 = hub.subscribe();
    assert_eq!(o2, o1 + 1);
}

#[test]
fn merging_global_configs_leaves_other_definitions() {
    let mut hub = ASKit::new();
    let mut a = AgentConfigs::new();
    a.set("x".to_string(), AgentValue::integer(1));
    hub.set_global_configs("d1".to_string(), a);
    let mut b = AgentConfigs::new();
    b.set("x".to_string(), AgentValue::integer(2));
    hub.set_global_configs("d2".to_string(), b);
    assert_eq!(hub.get_global_configs("d1").unwrap().get("x"), Some(&AgentValue::integer(1)));
    assert_eq!(hub.get_global_configs("d2").unwrap().get("x"), Some(&AgentValue::integer(2)));
}

#[test]
fn failed_channel_and_agent_changes_leave_the_stream() {
    let mut hub = hub();
    let s = hub.new_agent_stream("s").unwrap();
    hub.add_agent(&s, spec("a", COUNTER)).unwrap();
    hub.add_agent(&s, spec("b", PROBE)).unwrap();
    let c = channel("a", "count", "b", "in");
    hub.add_channel(&s, channel("a", "count", "b", "in")).unwrap();
    assert!(matches!(hub.add_channel(&s, channel("a", "count", "b", "in")), Err(AgentError::ChannelAlreadyExists)));
    assert_eq!(hub.get_agent_stream_spec(&s).unwrap().channels.len(), 1);
    assert!(matches!(hub.remove_agent(&s, &"zz".to_string()), Err(AgentError::AgentNotFound(_))));
    assert_eq!(hub.get_agent_stream_spec(&s).unwrap().agents.len(), 2);
    hub.remove_channel(&s, &c).unwrap();
    assert!(hub.get_agent_stream_info(&s).is_some());
    assert_eq!(hub.get_agent_stream_spec(&s).unwrap().channels.len(), 0);
}

#[test]
fn registered_definition_comes_back_whole() {
    let mut hub = ASKit::new();
    let mut d = AgentDefinition::new("Kind", "n");
    d.title = Some("T".to_string());
    d.inputs = Some(vec!["in".to_string()]);
    d.native_thread = true;
    hub.register_agent_definiton(d);
    let got = hub.get_agent_definition("n").unwrap();
    assert_eq!(got.kind, "Kind");
    assert_eq!(got.title, Some("T".to_string()));
    assert_eq!(got.inputs, Some(vec!["in".to_string()]));
    assert!(got.native_thread);
}
