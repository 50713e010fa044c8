use atlas_extract::error::ExtractError;

#[test]
fn too_many_nodes_message_mentions_v1_limitation() {
    let e = ExtractError::TooManyNodes { seen: 11_000_000, max: 10_000_000 };
    let msg = e.message();
    assert!(msg.contains("planet-scale extracts are not supported in v1"), "message was: {msg}");
    assert!(msg.contains("11000000"));
    assert!(msg.contains("10000000"));
}

#[test]
fn too_many_nodes_message_exact_text() {
    let e = ExtractError::TooManyNodes { seen: 12, max: 3 };
    assert_eq!(e.message(), "too many nodes: seen 12, max 3 — planet-scale extracts are not supported in v1");
}

#[test]
fn from_io_error() {
    let io_err = std::io::Error::new(std::io::ErrorKind::NotFound, "nope");
    let e: ExtractError = io_err.into();
    assert!(matches!(e, ExtractError::Io(_)));
    assert_eq!(e.message(), "io error: nope");
}
