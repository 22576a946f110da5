use runtime_modules::ModuleFile;

// The exact rendered record for a small activation set.
#[test]
fn test_generate_content_exact() {
    let mut module_file = ModuleFile::empty();
    module_file.enable_modules(&["alpha".to_string(), "beta".to_string()]);
    assert_eq!(
        module_file.generate_content(),
        r#"{"enabled":["alpha","beta"]}"#
    );
}

// The empty activation set renders as an empty record and parses back to
// the empty list.
#[test]
fn test_generate_content_empty() {
    let module_file = ModuleFile::empty();
    let content = module_file.generate_content();
    assert_eq!(content, r#"{"enabled":[]}"#);
    assert!(ModuleFile::parse_active_modules(&content).is_empty());
}

// Rendering then parsing reproduces the name list, order preserved.
#[test]
fn test_render_parse_round_trip() {
    let names = vec![
        "alpha".to_string(),
        "beta".to_string(),
        "a name, with punctuation!".to_string(),
        "".to_string(),
    ];
    let mut module_file = ModuleFile::empty();
    module_file.enable_modules(&names);

    let parsed = ModuleFile::parse_active_modules(&module_file.generate_content());
    assert_eq!(parsed, names);
}

// Truncated or reordered records are rejected as a whole.
#[test]
fn test_parse_malformed_records() {
    assert!(ModuleFile::parse_active_modules(r#"{"enabled":["a""#).is_empty());
    assert!(ModuleFile::parse_active_modules(r#"{"enabled":[a]}"#).is_empty());
    assert!(ModuleFile::parse_active_modules(r#"{"enabled":["a",]}"#).is_empty());
    assert!(ModuleFile::parse_active_modules(r#"["a","b"]"#).is_empty());
    assert!(ModuleFile::parse_active_modules(r#"{"enabled":["a"]} "#).is_empty());
}

// Duplicates in persisted content are dropped on load.
#[test]
fn test_from_content_deduplicates() {
    let module_file = ModuleFile::from_content(r#"{"enabled":["a","a","b"]}"#);
    assert_eq!(module_file.active_modules, vec!["a".to_string(), "b".to_string()]);
    assert_eq!(
        module_file.get_content(),
        Some(&r#"{"enabled":["a","a","b"]}"#.to_string())
    );
}

// A freshly built activation set has no raw content yet.
#[test]
fn test_empty_has_no_content() {
    assert_eq!(ModuleFile::empty().get_content(), None);
}
