use agent_stream_kit::{AgentContext, AgentError, AgentValue, IdGen};

#[test]
fn new_assigns_unique_ids() {
    let mut ids = IdGen::new();
    let ctx1 = AgentContext::new(&mut ids);
    let ctx2 = AgentContext::new(&mut ids);

    assert_ne!(ctx1.id(), 0);
    assert_ne!(ctx2.id(), 0);
    assert_ne!(ctx1.id(), ctx2.id());
    assert_eq!(ctx1.id(), ctx1.copy().id());
}

#[test]
fn with_var_sets_value_without_mutating_original() {
    let mut ids = IdGen::new();
    let ctx = AgentContext::new(&mut ids);
    assert!(ctx.get_var("answer").is_none());

    let updated = ctx.with_var("answer".into(), AgentValue::integer(42));

    assert!(ctx.get_var("answer").is_none());
    assert_eq!(updated.get_var("answer"), Some(&AgentValue::integer(42)));
    assert_eq!(ctx.id(), updated.id());
}

#[test]
fn push_and_pop_frames() {
    let mut ids = IdGen::new();
    let ctx = AgentContext::new(&mut ids);
    assert!(ctx.frames().is_none());

    let ctx = ctx
        .push_frame("first".into(), AgentValue::string("a"))
        .push_frame("second".into(), AgentValue::integer(2));

    let frames = ctx.frames().expect("frames should be present");
    assert_eq!(frames.len(), 2);
    assert_eq!(frames[0].name, "first");
    assert_eq!(frames[1].name, "second");
    assert_eq!(frames[1].data, AgentValue::integer(2));

    let (popped_second, ctx) = ctx.pop_frame();
    let popped_second = popped_second.expect("second frame should exist");
    assert_eq!(popped_second.name, "second");
    assert_eq!(ctx.frames().unwrap().len(), 1);
    assert_eq!(ctx.frames().unwrap()[0].name, "first");

    let (popped_first, ctx) = ctx.pop_frame();
    assert_eq!(popped_first.unwrap().name, "first");
    assert!(ctx.frames().is_none());

    let (no_frame, ctx_after_empty) = ctx.pop_frame();
    assert!(no_frame.is_none());
    assert!(ctx_after_empty.frames().is_none());
}

#[test]
fn clone_preserves_vars() {
    let mut ids = IdGen::new();
    let ctx = AgentContext::new(&mut ids).with_var("key".into(), AgentValue::integer(1));
    let cloned = ctx.copy();

    assert_eq!(cloned.get_var("key"), Some(&AgentValue::integer(1)));
    assert_eq!(cloned.id(), ctx.id());
}

#[test]
fn clone_preserves_frames() {
    let mut ids = IdGen::new();
    let ctx = AgentContext::new(&mut ids).push_frame("frame".into(), AgentValue::string("data"));
    let cloned = ctx.copy();

    let frames = cloned.frames().expect("cloned frames should exist");
    assert_eq!(frames.len(), 1);
    assert_eq!(frames[0].name, "frame");
    assert_eq!(frames[0].data, AgentValue::string("data"));
    assert_eq!(cloned.id(), ctx.id());
}

#[test]
fn map_frame_helpers_validate_and_track_indices() -> Result<(), AgentError> {
    let mut ids = IdGen::new();
    let ctx = AgentContext::new(&mut ids);
    let ctx = ctx.push_map_frame(0, 2)?;
    let ctx = ctx.push_map_frame(1, 3)?;

    let indices = ctx.map_frame_indices()?;
    assert_eq!(indices, vec![(0, 2), (1, 3)]);

    let current = ctx.current_map_frame()?.expect("map frame should exist");
    assert_eq!(current, (1, 3));

    let key = ctx.ctx_key()?;
    assert_eq!(key, format!("{}:0:2,1:3", ctx.id()));

    let ctx = ctx.pop_map_frame()?;
    let current_after_pop = ctx.current_map_frame()?.expect("map frame should remain");
    assert_eq!(current_after_pop, (0, 2));

    Ok(())
}

#[test]
fn pop_map_frame_errors_when_missing_or_wrong_kind() {
    let mut ids = IdGen::new();
    let ctx = AgentContext::new(&mut ids);
    assert!(ctx.pop_map_frame().is_err());

    let ctx = ctx.push_frame("other".into(), AgentValue::unit());
    assert!(ctx.pop_map_frame().is_err());
}

#[test]
fn push_map_frame_rejects_invalid_bounds() {
    let mut ids = IdGen::new();
    let ctx = AgentContext::new(&mut ids);
    assert!(ctx.push_map_frame(0, 0).is_err());
    assert!(ctx.push_map_frame(2, 1).is_err());
}

#[test]
fn ctx_key_without_map_frames_is_the_id() {
    let mut ids = IdGen::new();
    let _ = AgentContext::new(&mut ids);
    let ctx = AgentContext::new(&mut ids).push_frame("other".into(), AgentValue::unit());
    assert_eq!(ctx.id(), 2);
    assert_eq!(ctx.ctx_key().unwrap(), "2");
}

#[test]
fn derivations_keep_the_id_and_leave_the_source_alone() {
    let mut ids = IdGen::new();
    let ctx = AgentContext::new(&mut ids);
    let a = ctx.with_var("k".into(), AgentValue::boolean(true));
    let b = a.push_frame("f".into(), AgentValue::integer(3));
    let c = b.with_var("k".into(), AgentValue::boolean(false));
    assert_eq!(a.id(), ctx.id());
    assert_eq!(b.id(), ctx.id());
    assert_eq!(c.id(), ctx.id());
    assert!(ctx.frames().is_none());
    assert_eq!(a.get_var("k"), Some(&AgentValue::boolean(true)));
    assert_eq!(c.get_var("k"), Some(&AgentValue::boolean(false)));
    assert_eq!(b.get_var("k"), Some(&AgentValue::boolean(true)));
}

#[test]
fn map_frame_with_wrong_data_fails_to_read() {
    let mut ids = IdGen::new();
    let ctx = AgentContext::new(&mut ids).push_frame("map".into(), AgentValue::integer(1));
    assert!(matches!(ctx.current_map_frame(), Err(AgentError::InvalidValue(_))));
    assert!(ctx.ctx_key().is_err());
    assert!(ctx.map_frame_indices().is_err());
}

#[test]
fn pop_map_frame_on_map_top_removes_it() {
    let mut ids = IdGen::new();
    let ctx = AgentContext::new(&mut ids).push_map_frame(0, 1).unwrap();
    let popped = ctx.pop_map_frame().unwrap();
    assert!(popped.frames().is_none());
    assert_eq!(popped.ctx_key().unwrap(), format!("{}", ctx.id()));
}
