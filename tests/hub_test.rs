use agent_stream_kit::board_agent::{
    board_in_target, board_name_for_var, board_out_rename, board_out_start, var_in_target,
};
use agent_stream_kit::stream::{is_valid_stream_name, unique_name};
use agent_stream_kit::{
    ASKit, AgentConfigEntry, AgentConfigs, AgentDefinition, AgentError, AgentMessage, AgentSpec,
    AgentStatus, AgentValue, ChannelSpec, InputAction,
};

const COUNTER: &str = "hub_test::agents::CounterAgent";
const PROBE: &str = "hub_test::agents::TestProbeAgent";
const BOARD_IN: &str = "agent_stream_kit::board_agent::BoardInAgent";
const BOARD_OUT: &str = "agent_stream_kit::board_agent::BoardOutAgent";
const VAR_IN: &str = "agent_stream_kit::board_agent::VarInAgent";
const VAR_OUT: &str = "agent_stream_kit::board_agent::VarOutAgent";

fn hub() -> ASKit {
    let mut counter = AgentDefinition::for_type("hub_test::agents", "CounterAgent");
    counter.inputs = Some(vec!["in".to_string(), "reset".to_string()]);
    counter.outputs = Some(vec!["count".to_string()]);
    let probe = AgentDefinition::for_type("hub_test::agents", "TestProbeAgent");
    let mut hub = ASKit::init(vec![counter, probe]);
    hub.ready();
    hub
}

fn spec(id: &str, def: &str) -> AgentSpec {
    let mut d = AgentDefinition::new("Agent", def);
    d.configs = None;
    let mut s = d.to_spec();
    s.id = id.to_string();
    s
}

fn board_spec(id: &str, def: &str, key: &str, name: &str) -> AgentSpec {
    let mut s = spec(id, def);
    let mut c = AgentConfigs::new();
    c.set(key.to_string(), AgentValue::string(name));
    s.configs = Some(c);
    s
}

fn channel(s: &str, sp: &str, t: &str, tp: &str) -> ChannelSpec {
    ChannelSpec {
        source: s.to_string(),
        source_handle: sp.to_string(),
        target: t.to_string(),
        target_handle: tp.to_string(),
    }
}

fn pairs(v: &[(&str, &str)]) -> Vec<(String, String)> {
    v.iter().map(|(a, b)| (a.to_string(), b.to_string())).collect()
}

#[test]
fn channel_added_twice_is_refused_and_removal_prunes() {
    let mut hub = hub();
    let s = hub.new_agent_stream("s").unwrap();
    hub.add_agent(&s, spec("a", COUNTER)).unwrap();
    hub.add_agent(&s, spec("b", PROBE)).unwrap();
    let c = channel("a", "count", "b", "in");
    assert!(hub.add_channel_internal(&c).is_ok());
    assert!(matches!(hub.add_channel_internal(&c), Err(AgentError::ChannelAlreadyExists)));
    assert_eq!(hub.agent_out_deliveries(&"a".to_string(), &"count".to_string()), pairs(&[("b", "in")]));
    hub.remove_channel_internal(&c);
    assert!(hub.agent_out_deliveries(&"a".to_string(), &"count".to_string()).is_empty());
    assert!(hub.add_channel_internal(&c).is_ok());
}

#[test]
fn channel_errors() {
    let mut hub = hub();
    let s = hub.new_agent_stream("s").unwrap();
    hub.add_agent(&s, spec("a", COUNTER)).unwrap();
    assert!(matches!(hub.add_channel_internal(&channel("x", "o", "a", "i")), Err(AgentError::SourceAgentNotFound(_))));
    assert!(matches!(hub.add_channel_internal(&channel("a", "", "a", "i")), Err(AgentError::EmptySourceHandle)));
    assert!(matches!(hub.add_channel_internal(&channel("a", "o", "a", "")), Err(AgentError::EmptyTargetHandle)));
    assert!(matches!(hub.add_channel(&"nope".to_string(), channel("a", "o", "a", "i")), Err(AgentError::StreamNotFound(_))));
}

#[test]
fn agent_errors() {
    let mut hub = hub();
    let s = hub.new_agent_stream("s").unwrap();
    hub.add_agent(&s, spec("a", COUNTER)).unwrap();
    assert!(matches!(hub.add_agent(&s, spec("a", COUNTER)), Err(AgentError::AgentAlreadyExists(_))));
    assert!(matches!(hub.add_agent(&s, spec("z", "unknown")), Err(AgentError::UnknownDefName(_))));
    assert!(matches!(hub.start_agent("missing"), Err(AgentError::AgentNotFound(_))));
    assert!(matches!(hub.stop_agent("missing"), Err(AgentError::AgentNotFound(_))));
    assert!(matches!(hub.start_agent_stream("nope"), Err(AgentError::StreamNotFound(_))));
    let mut ctx_hub = ASKit::new();
    assert!(matches!(ctx_hub.write_board_value("b".to_string()), Err(AgentError::TxNotInitialized)));
}

#[test]
fn wildcard_channels_pass_pins_through() {
    let mut hub = hub();
    let s = hub.new_agent_stream("s").unwrap();
    hub.add_agent(&s, spec("src", COUNTER)).unwrap();
    hub.add_agent(&s, spec("probe", PROBE)).unwrap();
    hub.add_channel(&s, channel("src", "*", "probe", "*")).unwrap();
    for pin in ["a", "count", "other"] {
        let d = hub.agent_out_deliveries(&"src".to_string(), &pin.to_string());
        assert_eq!(d, pairs(&[("probe", pin)]));
    }
}

#[test]
fn routing_follows_pins_and_skips_missing_targets() {
    let mut hub = hub();
    let s = hub.new_agent_stream("s").unwrap();
    hub.add_agent(&s, spec("a", COUNTER)).unwrap();
    hub.add_agent(&s, spec("b", PROBE)).unwrap();
    hub.add_agent(&s, spec("c", PROBE)).unwrap();
    hub.add_channel(&s, channel("a", "p", "b", "q")).unwrap();
    hub.add_channel(&s, channel("a", "p", "c", "*")).unwrap();
    hub.add_channel(&s, channel("a", "other", "b", "x")).unwrap();
    let d = hub.agent_out_deliveries(&"a".to_string(), &"p".to_string());
    assert_eq!(d, pairs(&[("b", "q"), ("c", "p")]));
    hub.remove_agent_internal(&"c".to_string()).unwrap();
    let d = hub.agent_out_deliveries(&"a".to_string(), &"p".to_string());
    assert_eq!(d, pairs(&[("b", "q")]));
}

#[test]
fn config_pin_goes_to_mailbox_or_spec() {
    let mut hub = hub();
    let s = hub.new_agent_stream("s").unwrap();
    hub.add_agent(&s, board_spec("bi", BOARD_IN, "name", "")).unwrap();
    let ctx = hub.new_context();
    let r = hub.agent_input("bi", ctx, "config:name".to_string(), AgentValue::string("b")).unwrap();
    match r {
        InputAction::ConfigApplied { key, value } => {
            assert_eq!(key, "name");
            assert_eq!(value, AgentValue::string("b"));
        }
        _ => panic!("config should be stored at once"),
    }
    let spec = hub.get_agent_spec("bi").unwrap();
    assert_eq!(spec.configs.as_ref().unwrap().get_string("name").unwrap(), "b");

    hub.start_agent_stream(&s).unwrap();
    let ctx = hub.new_context();
    match hub.agent_input("bi", ctx, "config:name".to_string(), AgentValue::string("c")).unwrap() {
        InputAction::Enqueue(AgentMessage::Config { key, value }) => {
            assert_eq!(key, "name");
            assert_eq!(value, AgentValue::string("c"));
        }
        _ => panic!("config should go through the mailbox"),
    }
    let ctx = hub.new_context();
    assert!(matches!(
        hub.agent_input("bi", ctx, "value".to_string(), AgentValue::integer(1)).unwrap(),
        InputAction::Enqueue(AgentMessage::Input { .. })
    ));
    hub.stop_agent_stream(&s).unwrap();
    let ctx = hub.new_context();
    assert!(matches!(
        hub.agent_input("bi", ctx, "value".to_string(), AgentValue::integer(1)).unwrap(),
        InputAction::Dropped
    ));
    let ctx = hub.new_context();
    assert!(matches!(hub.agent_input("zz", ctx, "value".to_string(), AgentValue::unit()), Err(AgentError::AgentNotFound(_))));
}

#[test]
fn stream_lifecycle_starts_only_enabled_agents() {
    let mut hub = hub();
    let s = hub.new_agent_stream("s").unwrap();
    hub.add_agent(&s, spec("on", COUNTER)).unwrap();
    let mut off = spec("off", COUNTER);
    off.disabled = true;
    hub.add_agent(&s, off).unwrap();
    let started = hub.start_agent_stream(&s).unwrap();
    assert_eq!(started, vec!["on".to_string()]);
    assert_eq!(hub.agent_status("on"), Some(AgentStatus::Start));
    assert_eq!(hub.agent_status("off"), Some(AgentStatus::Init));
    assert!(hub.get_agent_stream_info(&s).unwrap().running);
    assert!(hub.start_agent_stream(&s).unwrap().is_empty());
    let stopped = hub.stop_agent_stream(&s).unwrap();
    assert_eq!(stopped, vec!["on".to_string()]);
    assert_eq!(hub.agent_status("on"), Some(AgentStatus::Init));
    assert!(!hub.get_agent_stream_info(&s).unwrap().running);
}

#[test]
fn disabled_agent_receives_nothing() {
    let mut hub = hub();
    let s = hub.new_agent_stream("s").unwrap();
    hub.add_agent(&s, spec("src", COUNTER)).unwrap();
    hub.add_agent(&s, spec("on", PROBE)).unwrap();
    let mut off = spec("off", PROBE);
    off.disabled = true;
    hub.add_agent(&s, off).unwrap();
    hub.add_channel(&s, channel("src", "count", "on", "in")).unwrap();
    hub.add_channel(&s, channel("src", "count", "off", "in")).unwrap();
    hub.start_agent_stream(&s).unwrap();
    let mut got = Vec::new();
    for (target, pin) in hub.agent_out_deliveries(&"src".to_string(), &"count".to_string()) {
        let ctx = hub.new_context();
        if let InputAction::Enqueue(_) = hub.agent_input(&target, ctx, pin, AgentValue::integer(1)).unwrap() {
            got.push(target);
        }
    }
    assert_eq!(got, vec!["on".to_string()]);
}

#[test]
fn counter_feeds_probe_in_order() {
    let mut hub = hub();
    let s = hub.new_agent_stream("counter_probe_stream").unwrap();
    hub.add_agent(&s, spec("counter", COUNTER)).unwrap();
    hub.add_agent(&s, spec("probe", PROBE)).unwrap();
    hub.add_channel(&s, channel("counter", "count", "probe", "in")).unwrap();
    hub.start_agent_stream(&s).unwrap();
    let mut count = 0i64;
    let mut received = Vec::new();
    for _ in 0..2 {
        let ctx = hub.new_context();
        match hub.agent_input("counter", ctx, "in".to_string(), AgentValue::unit()).unwrap() {
            InputAction::Enqueue(AgentMessage::Input { pin, .. }) if pin == "in" => count += 1,
            _ => panic!("counter should take the pulse"),
        }
        for (target, pin) in hub.agent_out_deliveries(&"counter".to_string(), &"count".to_string()) {
            let ctx = hub.new_context();
            if let InputAction::Enqueue(AgentMessage::Input { value, .. }) =
                hub.agent_input(&target, ctx, pin, AgentValue::integer(count)).unwrap()
            {
                received.push(value);
            }
        }
    }
    assert_eq!(received, vec![AgentValue::integer(1), AgentValue::integer(2)]);
}

fn deliver_board(hub: &mut ASKit, name: &str, value: &AgentValue, seen: &mut Vec<String>) -> Vec<(String, String)> {
    seen.push(name.to_string());
    hub.board_out(&name.to_string(), value)
}

#[test]
fn board_routing_across_streams() {
    let mut hub = hub();
    let s1 = hub.new_agent_stream("stream1").unwrap();
    let s2 = hub.new_agent_stream("stream2").unwrap();
    hub.add_agent(&s1, board_spec("in1", BOARD_IN, "name", "board1")).unwrap();
    hub.add_agent(&s2, board_spec("out1", BOARD_OUT, "name", "board1")).unwrap();
    hub.add_agent(&s2, board_spec("in2", BOARD_IN, "name", "board2")).unwrap();
    hub.add_agent(&s2, board_spec("out2", BOARD_OUT, "name", "board2")).unwrap();
    hub.add_agent(&s2, spec("probe", PROBE)).unwrap();
    hub.add_channel(&s2, channel("out1", "*", "in2", "*")).unwrap();
    hub.add_channel(&s2, channel("out2", "*", "probe", "out")).unwrap();
    hub.start_agent_stream(&s1).unwrap();
    hub.start_agent_stream(&s2).unwrap();
    board_out_start(&mut hub, &"out1".to_string(), &Some("board1".to_string()));
    board_out_start(&mut hub, &"out2".to_string(), &Some("board2".to_string()));

    let value = AgentValue::string("hello");
    let mut seen = Vec::new();
    let (name, _ctx) = hub.write_board_value("board1".to_string()).unwrap();
    let first = deliver_board(&mut hub, &name, &value, &mut seen);
    assert_eq!(first, pairs(&[("in2", "board1")]));
    let next = board_in_target(&Some("board2".to_string())).unwrap();
    let second = deliver_board(&mut hub, &next, &value, &mut seen);
    assert_eq!(second, pairs(&[("probe", "out")]));
    assert_eq!(seen, vec!["board1".to_string(), "board2".to_string()]);
    assert_eq!(hub.get_board_value("board1"), Some(&value));
    assert_eq!(hub.get_board_value("board2"), Some(&value));
}

#[test]
fn variables_stay_in_their_stream() {
    let mut hub = hub();
    let s = hub.new_agent_stream("S").unwrap();
    let t = hub.new_agent_stream("T").unwrap();
    hub.add_agent(&s, board_spec("vin", VAR_IN, "name", "x")).unwrap();
    hub.add_agent(&s, board_spec("vout", VAR_OUT, "name", "x")).unwrap();
    hub.add_agent(&t, board_spec("tout", VAR_OUT, "name", "x")).unwrap();
    hub.add_agent(&s, spec("probe_s", PROBE)).unwrap();
    hub.add_agent(&t, spec("probe_t", PROBE)).unwrap();
    hub.add_channel(&s, channel("vout", "*", "probe_s", "*")).unwrap();
    hub.add_channel(&t, channel("tout", "*", "probe_t", "*")).unwrap();
    let board_s = board_name_for_var(&s, "x");
    let board_t = board_name_for_var(&t, "x");
    assert_eq!(board_s, format!("%{}/x", s));
    assert_ne!(board_s, board_t);
    board_out_start(&mut hub, &"vout".to_string(), &Some(board_s.clone()));
    board_out_start(&mut hub, &"tout".to_string(), &Some(board_t.clone()));

    let (name, _ctx) = hub.write_var_value(&s, "x").unwrap();
    assert_eq!(name, board_s);
    let d = hub.board_out(&name, &AgentValue::string("hi"));
    assert_eq!(d, pairs(&[("probe_s", board_s.as_str())]));
    assert_eq!(var_in_target(&s, &Some("x".to_string())), Some(board_s.clone()));
    assert_eq!(var_in_target(&s, &Some(String::new())), None);
}

#[test]
fn board_in_name_update_switches_forwarding() {
    assert_eq!(board_in_target(&Some(String::new())), None);
    assert_eq!(board_in_target(&None), None);
    assert_eq!(board_in_target(&Some("b".to_string())), Some("b".to_string()));

    let mut hub = hub();
    let s = hub.new_agent_stream("s").unwrap();
    hub.add_agent(&s, board_spec("out", BOARD_OUT, "name", "")).unwrap();
    hub.add_agent(&s, spec("probe", PROBE)).unwrap();
    hub.add_channel(&s, channel("out", "*", "probe", "*")).unwrap();
    let now = board_out_rename(&mut hub, &"out".to_string(), None, Some("b".to_string()));
    assert_eq!(now, Some("b".to_string()));
    assert_eq!(hub.board_out(&"b".to_string(), &AgentValue::integer(1)), pairs(&[("probe", "b")]));
    let now = board_out_rename(&mut hub, &"out".to_string(), now, None);
    assert_eq!(now, None);
    assert!(hub.board_out(&"b".to_string(), &AgentValue::integer(2)).is_empty());
}

#[test]
fn stream_names_are_validated_and_made_unique() {
    assert!(is_valid_stream_name("abc"));
    assert!(is_valid_stream_name("a/b/c"));
    assert!(is_valid_stream_name("."));
    assert!(!is_valid_stream_name(""));
    assert!(!is_valid_stream_name("   "));
    assert!(!is_valid_stream_name("/a"));
    assert!(!is_valid_stream_name("a/"));
    assert!(!is_valid_stream_name("a//b"));
    assert!(!is_valid_stream_name("a/./b"));
    assert!(!is_valid_stream_name("a/../b"));
    assert!(!is_valid_stream_name("./a"));
    for bad in ["a\\b", "a:b", "a*b", "a?b", "a\"b", "a<b", "a>b", "a|b"] {
        assert!(!is_valid_stream_name(bad));
    }
    let names = vec!["s".to_string(), "s2".to_string()];
    assert_eq!(unique_name(" s ", &names), "s3");
    assert_eq!(unique_name("t", &names), "t");
    assert_eq!(unique_name(" x ", &names), "x");

    let mut hub = hub();
    assert!(matches!(hub.new_agent_stream("a:b"), Err(AgentError::InvalidStreamName(_))));
    let a = hub.new_agent_stream("flow").unwrap();
    let b = hub.new_agent_stream("flow").unwrap();
    let c = hub.new_agent_stream("flow").unwrap();
    assert_eq!(hub.get_agent_stream_info(&a).unwrap().name, "flow");
    assert_eq!(hub.get_agent_stream_info(&b).unwrap().name, "flow2");
    assert_eq!(hub.get_agent_stream_info(&c).unwrap().name, "flow3");
}

#[test]
fn global_configs_merge_key_by_key() {
    let mut hub = ASKit::new();
    let mut a = AgentConfigs::new();
    a.set("x".to_string(), AgentValue::integer(1));
    a.set("y".to_string(), AgentValue::integer(2));
    hub.set_global_configs("d".to_string(), a);
    let mut b = AgentConfigs::new();
    b.set("y".to_string(), AgentValue::integer(3));
    hub.set_global_configs("d".to_string(), b);
    let g = hub.get_global_configs("d").unwrap();
    assert_eq!(g.get("x"), Some(&AgentValue::integer(1)));
    assert_eq!(g.get("y"), Some(&AgentValue::integer(3)));
    let e = AgentConfigEntry::new(AgentValue::integer(1), "integer");
    assert_eq!(e.type_, "integer");
}

#[test]
fn added_stream_gets_fresh_ids_and_keeps_links() {
    let mut hub = hub();
    let mut spec = agent_stream_kit::AgentStreamSpec::new();
    spec.add_agent(spec_of("x", COUNTER));
    spec.add_agent(spec_of("y", PROBE));
    spec.add_channels(channel("x", "count", "y", "in"));
    spec.add_channels(channel("x", "count", "gone", "in"));
    let id = hub.add_agent_stream("copied".to_string(), spec).unwrap();
    let stored = hub.get_agent_stream_spec(&id).unwrap();
    assert_eq!(stored.agents.len(), 2);
    let a = stored.agents[0].id.clone();
    let b = stored.agents[1].id.clone();
    assert_ne!(a, "x");
    assert_ne!(b, "y");
    assert_ne!(a, b);
    assert_eq!(stored.channels.len(), 1);
    assert_eq!(stored.channels[0].source, a);
    assert_eq!(stored.channels[0].target, b);
    assert_eq!(hub.agent_out_deliveries(&a, &"count".to_string()), vec![(b.clone(), "in".to_string())]);
    assert!(hub.get_agent_spec("x").is_none());
}

fn spec_of(id: &str, def: &str) -> AgentSpec {
    spec(id, def)
}

#[test]
fn streams_are_listed_renamed_and_removed() {
    let mut hub = hub();
    let a = hub.new_agent_stream("one").unwrap();
    let b = hub.new_agent_stream("two").unwrap();
    hub.add_agent(&a, spec("p", PROBE)).unwrap();
    hub.add_agent(&a, spec("q", PROBE)).unwrap();
    hub.add_channel(&a, channel("p", "out", "q", "in")).unwrap();
    let infos = hub.get_agent_stream_infos();
    assert_eq!(infos.len(), 2);
    assert_eq!(infos[0].name, "one");
    assert_eq!(infos[1].id, b);
    hub.start_agent_stream(&a).unwrap();
    assert_eq!(hub.get_running_agent_streams(), vec![a.clone()]);
    assert!(hub.run_on_start_streams().is_empty());
    assert_eq!(hub.rename_agent_stream(&b, "one").unwrap(), "one2");
    assert!(matches!(hub.rename_agent_stream("nope", "z"), Err(AgentError::RenameStreamFailed(_))));
    assert!(matches!(hub.rename_agent_stream(&b, "a|b"), Err(AgentError::InvalidStreamName(_))));
    let stopped = hub.remove_agent_stream(&a).unwrap();
    assert_eq!(stopped, vec!["p".to_string(), "q".to_string()]);
    assert!(hub.get_agent_spec("p").is_none());
    assert!(hub.get_agent_spec("q").is_none());
    assert!(hub.get_agent_stream_info(&a).is_none());
    assert!(matches!(hub.remove_agent_stream(&a), Err(AgentError::StreamNotFound(_))));
}

#[test]
fn agents_and_channels_leave_their_stream() {
    let mut hub = hub();
    let s = hub.new_agent_stream("s").unwrap();
    hub.add_agent(&s, spec("p", PROBE)).unwrap();
    hub.add_agent(&s, spec("q", PROBE)).unwrap();
    let c = channel("p", "out", "q", "in");
    hub.add_channel(&s, channel("p", "out", "q", "in")).unwrap();
    hub.remove_channel(&s, &c).unwrap();
    assert!(matches!(hub.remove_channel(&s, &c), Err(AgentError::ChannelNotFound(_))));
    assert!(hub.agent_out_deliveries(&"p".to_string(), &"out".to_string()).is_empty());
    assert_eq!(hub.remove_agent(&s, &"q".to_string()).unwrap(), false);
    assert_eq!(hub.get_agent_stream_spec(&s).unwrap().agents.len(), 1);
    assert!(matches!(hub.remove_agent(&s, &"q".to_string()), Err(AgentError::AgentNotFound(_))));
}

#[test]
fn configs_are_replaced_at_once_or_through_the_mailbox() {
    let mut hub = hub();
    let s = hub.new_agent_stream("s").unwrap();
    hub.add_agent(&s, board_spec("o", BOARD_OUT, "name", "a")).unwrap();
    let mut c = AgentConfigs::new();
    c.set("name".to_string(), AgentValue::string("b"));
    assert!(hub.set_agent_configs("o", c).unwrap().is_none());
    assert_eq!(hub.get_agent_spec("o").unwrap().configs.as_ref().unwrap().get_string("name").unwrap(), "b");
    hub.set_agent_config("o", "name".to_string(), AgentValue::string("z")).unwrap();
    assert_eq!(hub.get_agent_spec("o").unwrap().configs.as_ref().unwrap().get_string("name").unwrap(), "z");
    hub.start_agent("o").unwrap();
    let mut d = AgentConfigs::new();
    d.set("name".to_string(), AgentValue::string("c"));
    assert!(matches!(hub.set_agent_configs("o", d), Ok(Some(AgentMessage::Configs { .. }))));
    assert!(matches!(hub.set_agent_configs("zz", AgentConfigs::new()), Err(AgentError::AgentNotFound(_))));
}

#[test]
fn hub_copies_sub_streams_with_its_own_ids() {
    let mut hub = hub();
    let agents = vec![spec("a", COUNTER), spec("b", PROBE)];
    let channels = vec![channel("a", "count", "b", "in")];
    let (one, ch1) = hub.copy_sub_stream(&agents, &channels);
    let (two, _) = hub.copy_sub_stream(&agents, &channels);
    assert_ne!(one[0].id, two[0].id);
    assert_ne!(one[0].id, one[1].id);
    assert_eq!(ch1[0].source, one[0].id);
    assert_eq!(ch1[0].target, one[1].id);
}

#[test]
fn config_lookup_errors() {
    let mut c = AgentConfigs::new();
    c.set("n".to_string(), AgentValue::integer(1));
    c.set("s".to_string(), AgentValue::string("x"));
    assert!(matches!(c.get_string("missing"), Err(AgentError::UnknownConfig(_))));
    assert!(matches!(c.get_string("n"), Err(AgentError::InvalidConfig(_))));
    assert_eq!(c.get_string("s").unwrap(), "x");
    let d = c.copy();
    assert_eq!(d.get("n"), Some(&AgentValue::integer(1)));
}
