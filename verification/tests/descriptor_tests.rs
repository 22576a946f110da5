use runtime_modules::{Module, ModuleFile, ModuleManager, ModuleRegistry, ModuleState};

fn catalog(names: &[&str]) -> ModuleRegistry {
    let modules: Vec<Module> = names
        .iter()
        .map(|n| Module {
            name: n.to_string(),
            path: format!("/path/to/{}", n),
            desc: String::new(),
            state: ModuleState::Disabled,
        })
        .collect();
    let mut registry = ModuleRegistry::new(modules);
    registry.init_lookup();
    registry
}

// The exact descriptor for two resolvable active modules: one line per
// module with its quoted path and name tag, in activation-set order.
#[test]
fn test_render_descriptor_exact() {
    let registry = catalog(&["test1", "test2"]);
    let mut module_file = ModuleFile::empty();
    module_file.enable_modules(&["test2".to_string(), "test1".to_string()]);

    let descriptor = module_file.render_descriptor(&registry);
    assert_eq!(
        descriptor,
        "# runtime-module import list\n\
         { ... }:\n\
         {\n\
         \x20 imports = [\n\
         \x20   \"/path/to/test2\" # test2\n\
         \x20   \"/path/to/test1\" # test1\n\
         \x20 ];\n\
         }\n"
    );
}

// An empty activation set renders the explicit marker instead of an
// import list.
#[test]
fn test_render_descriptor_empty_marker() {
    let registry = catalog(&["test1"]);
    let module_file = ModuleFile::empty();

    let descriptor = module_file.render_descriptor(&registry);
    assert_eq!(
        descriptor,
        "# runtime-module import list\n\
         { ... }:\n\
         {\n\
         \x20 # No active modules\n\
         }\n"
    );
}

// A name the catalog cannot resolve is skipped without error; the
// descriptor is still produced for the resolvable names.
#[test]
fn test_render_descriptor_skips_unresolved() {
    let registry = catalog(&["test1"]);
    let mut module_file = ModuleFile::empty();
    module_file.enable_modules(&["ghost".to_string(), "test1".to_string()]);

    let descriptor = module_file.render_descriptor(&registry);
    assert!(descriptor.contains("\"/path/to/test1\" # test1"));
    assert!(!descriptor.contains("ghost"));

    // When nothing resolves, the empty marker is rendered.
    let mut dangling_only = ModuleFile::empty();
    dangling_only.enable_modules(&["ghost".to_string()]);
    assert!(dangling_only
        .render_descriptor(&registry)
        .contains("# No active modules"));
}

// The per-entry name tag is recoverable verbatim from the entry lines.
#[test]
fn test_render_descriptor_tag_recoverable() {
    let registry = catalog(&["test1", "test2"]);
    let mut manager = ModuleManager::new(registry, ModuleFile::empty());
    manager.enable_modules(&["test1".to_string(), "test2".to_string()], false);

    let descriptor = manager.render_descriptor();
    let recovered: Vec<&str> = descriptor
        .lines()
        .filter_map(|line| line.split(" # ").nth(1))
        .collect();
    assert_eq!(recovered, vec!["test1", "test2"]);
}
