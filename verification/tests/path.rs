use octane::error::InvalidPathError;
use octane::path::{segment_of, PathBuf, PathSegment};

#[test]
fn parse_drops_empty_components() {
    let p = PathBuf::parse("//users//42/").unwrap();
    assert_eq!(p.chunks, vec!["users".to_string(), "42".to_string()]);
}

#[test]
fn parse_of_the_root_has_no_components() {
    assert!(PathBuf::parse("/").unwrap().chunks.is_empty());
    assert!(PathBuf::parse("").unwrap().chunks.is_empty());
}

#[test]
fn parse_without_slashes_is_one_component() {
    assert_eq!(PathBuf::parse("users").unwrap().chunks, vec!["users".to_string()]);
}

#[test]
fn parse_rejects_a_variable_without_a_name() {
    assert_eq!(PathBuf::parse("/users/:").err(), Some(InvalidPathError));
    assert!(PathBuf::parse("/users/:id").is_ok());
    assert!(PathBuf::parse("/:/x").is_err());
}

#[test]
fn split_keeps_what_parse_rejects() {
    let p = PathBuf::split("/users/:");
    assert_eq!(p.chunks, vec!["users".to_string(), ":".to_string()]);
    assert!(!p.is_valid());
    assert!(PathBuf::split("/users/:id").is_valid());
}

#[test]
fn components_are_classified() {
    assert!(matches!(segment_of("*"), PathSegment::Wildcard));
    match segment_of(":id") {
        PathSegment::Variable(name) => assert_eq!(name, "id"),
        _ => panic!("a variable was expected"),
    }
    match segment_of("users") {
        PathSegment::Static(text) => assert_eq!(text, "users"),
        _ => panic!("a literal was expected"),
    }
    match segment_of("**") {
        PathSegment::Static(text) => assert_eq!(text, "**"),
        _ => panic!("a literal was expected"),
    }
    match segment_of("a:b") {
        PathSegment::Static(text) => assert_eq!(text, "a:b"),
        _ => panic!("a literal was expected"),
    }
}
