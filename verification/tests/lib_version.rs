use ici_core::placeholder_version;

#[test]
fn placeholder_version_is_nonempty() {
    assert!(!placeholder_version().is_empty());
}
