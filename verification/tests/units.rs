use orphans::CompilationUnit;
use orphans::DependencyNode;
use orphans::ManifestError;

#[test]
fn unit_from_complete_fields() {
    let u = CompilationUnit::from_manifest_fields(
        Some("core".to_string()),
        Some("the core package".to_string()),
        vec!["util".to_string(), "serde".to_string()],
        "core/Cargo.toml".to_string(),
    )
    .unwrap();
    assert_eq!(u.name, "core");
    assert_eq!(u.description, "the core package");
    assert_eq!(u.dependencies, vec!["util".to_string(), "serde".to_string()]);
    assert_eq!(u.manifest, "core/Cargo.toml");
}

#[test]
fn missing_description_gets_placeholder() {
    let u = CompilationUnit::from_manifest_fields(
        Some("core".to_string()),
        None,
        Vec::new(),
        "core/Cargo.toml".to_string(),
    )
    .unwrap();
    assert_eq!(u.description, "<no description>");
}

#[test]
fn missing_name_is_rejected() {
    let r = CompilationUnit::from_manifest_fields(
        None,
        Some("anonymous".to_string()),
        vec!["util".to_string()],
        "somewhere/Cargo.toml".to_string(),
    );
    assert_eq!(r, Err(ManifestError::MissingPackageName));
}

#[test]
fn manifest_error_message_is_descriptive() {
    assert_eq!(
        ManifestError::MissingPackageName.message(),
        "manifest is missing a package name"
    );
}

#[test]
fn new_node_is_not_required() {
    let n = DependencyNode::new("core", true);
    assert_eq!(n.name, "core");
    assert!(n.is_entry_point);
    assert!(!n.required);

    let m = DependencyNode::new("util", false);
    assert_eq!(m.name, "util");
    assert!(!m.is_entry_point);
    assert!(!m.required);
}
