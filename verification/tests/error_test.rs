use kg_core::error::Error;

#[test]
fn not_implemented_serializes_with_kind_and_message() {
    let err = Error::NotImplemented { feature: "parse".into() };
    assert_eq!(err.kind(), "not_implemented");
    let message = err.message();
    assert!(message.contains("parse"), "message should mention feature, got {message:?}");
}

#[test]
fn display_is_concise_human_string() {
    let err = Error::NotImplemented { feature: "parse".into() };
    assert_eq!(err.message(), "not implemented: parse");
}

#[test]
fn io_error_serializes_with_kind_and_path() {
    let err = Error::Io { source: "file not found".into(), path: "/some/path.md".into() };
    assert_eq!(err.kind(), "io");
    let message = err.message();
    assert!(message.contains("/some/path.md"), "got {message:?}");
}

#[test]
fn database_error_serializes() {
    let err = Error::Database { message: "table not found".into() };
    assert_eq!(err.kind(), "database");
    let message = err.message();
    assert!(message.contains("table not found"), "got {message:?}");
}

#[test]
fn vault_not_found_serializes() {
    let err = Error::VaultNotFound { path: "/vault".into() };
    assert_eq!(err.kind(), "vault_not_found");
    let message = err.message();
    assert!(message.contains("/vault"), "got {message:?}");
}

#[test]
fn node_not_found_names_the_node() {
    let err = Error::NodeNotFound { id: "Z".into() };
    assert_eq!(err.kind(), "node_not_found");
    assert_eq!(err.message(), "node not found: Z");
}

#[test]
fn io_message_has_path_then_cause() {
    let err = Error::Io { source: "denied".into(), path: "a.md".into() };
    assert_eq!(err.message(), "I/O error at a.md: denied");
}
