use agent_stream_kit::AgentDefinition;

#[test]
fn default_kind_is_agent() {
    let mut def = AgentDefinition::for_type("default_kind", "NoKindAgent");
    def.title = Some("No Kind".to_string());
    def.category = Some("Tests".to_string());
    assert_eq!(def.kind, "Agent");
    assert_eq!(def.title.as_deref(), Some("No Kind"));
    assert_eq!(def.category.as_deref(), Some("Tests"));
}
