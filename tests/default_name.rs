use agent_stream_kit::AgentDefinition;

#[test]
fn default_name_uses_module_path_and_ident() {
    let def = AgentDefinition::for_type("default_name", "MyAgent");
    assert_eq!(def.name, "default_name::MyAgent");
}

#[test]
fn explicit_definition_keeps_its_kind_and_name() {
    let def = AgentDefinition::new("CustomAgent", "custom_name");
    assert_eq!(def.kind, "CustomAgent");
    assert_eq!(def.name, "custom_name");
    assert!(def.title.is_none());
}
