use meritrank::registry::{NodeKind, NodeRegistry};

#[test]
fn test_node_registry() {
    let mut registry = NodeRegistry::new();

    let user_id = registry.register("Alice".to_string(), NodeKind::User);
    assert_eq!(user_id, 0);
    assert_eq!(registry.get_id("Alice"), Some(0));
    assert_eq!(registry.get_name(0), Some("Alice"));
    assert_eq!(registry.get_kind("Alice"), Some(NodeKind::User));

    let comment_id = registry.register("Comment1".to_string(), NodeKind::Comment);
    assert_eq!(comment_id, 1);
    assert_eq!(registry.get_id("Comment1"), Some(1));
    assert_eq!(registry.get_name(1), Some("Comment1"));
    assert_eq!(registry.get_kind("Comment1"), Some(NodeKind::Comment));

    // Test registering an existing name
    let existing_id = registry.register("Alice".to_string(), NodeKind::User);
    assert_eq!(existing_id, 0);

    assert_eq!(registry.len(), 2);
    assert!(!registry.is_empty());

    // Test non-existent entries
    assert_eq!(registry.get_id("Bob"), None);
    assert_eq!(registry.get_name(2), None);
    assert_eq!(registry.get_kind("Bob"), None);
    assert_eq!(registry.get_kind_by_id(2), None);
}

#[test]
fn registry_kind_by_id_roundtrip() {
    let mut registry = NodeRegistry::new();
    registry.register("a".to_string(), NodeKind::Beacon);
    registry.register("b".to_string(), NodeKind::Opinion);
    assert_eq!(registry.get_kind_by_id(0), Some(NodeKind::Beacon));
    assert_eq!(registry.get_kind_by_id(1), Some(NodeKind::Opinion));
    assert_eq!(registry.get_name(1), Some("b"));
}
