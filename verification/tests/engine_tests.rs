use runtime_modules::{Module, ModuleError, ModuleFile, ModuleManager, ModuleRegistry, ModuleState};

fn registry_disabled(names: &[&str]) -> ModuleRegistry {
    let modules: Vec<Module> = names
        .iter()
        .map(|n| Module {
            name: n.to_string(),
            path: format!("/path/to/{}", n),
            desc: String::new(),
            state: ModuleState::Disabled,
        })
        .collect();
    let mut registry = ModuleRegistry::new(modules);
    registry.init_lookup();
    registry
}

fn manager_disabled(names: &[&str]) -> ModuleManager {
    ModuleManager::new(registry_disabled(names), ModuleFile::empty())
}

// A succeeding apply enables exactly the requested module; the others
// stay disabled.
#[test]
fn test_enable_with_succeeding_applier() {
    let mut manager = manager_disabled(&["test1", "test2", "test3"]);

    let (changed, needs_apply) = manager.enable_modules(&["test1".to_string()], false);
    assert!(changed);
    assert!(needs_apply);

    // Before the outcome is confirmed the module is in flight.
    let pending = manager.get_status(&["test1".to_string()]);
    assert_eq!(pending[0].state, ModuleState::Uncertain);

    let content = manager.generate_content();
    assert!(content.contains("test1"));

    manager.commit_apply(true);

    let status = manager.get_status(&[
        "test1".to_string(),
        "test2".to_string(),
        "test3".to_string(),
    ]);
    assert_eq!(status[0].state, ModuleState::Enabled);
    assert_eq!(status[1].state, ModuleState::Disabled);
    assert_eq!(status[2].state, ModuleState::Disabled);
    assert_eq!(status[0].path, "/path/to/test1");
}

// A failing apply leaves the module durably uncertain; a forced rebuild
// with a succeeding apply resolves it.
#[test]
fn test_enable_with_failing_applier_then_rebuild() {
    let mut manager = manager_disabled(&["test1"]);

    let (changed, needs_apply) = manager.enable_modules(&["test1".to_string()], false);
    assert!(changed);
    assert!(needs_apply);
    manager.commit_apply(false);

    let status = manager.get_status(&["test1".to_string()]);
    assert_eq!(status[0].state, ModuleState::Uncertain);

    let retry = manager.rebuild(true);
    assert!(retry);
    manager.commit_apply(true);

    let resolved = manager.get_status(&["test1".to_string()]);
    assert_eq!(resolved[0].state, ModuleState::Enabled);
}

// Disabling a module that is already disabled is a pure no-op.
#[test]
fn test_disable_already_disabled_is_noop() {
    let mut manager = manager_disabled(&["test1"]);

    let (changed, needs_apply) = manager.disable_modules(&["test1".to_string()], false);
    assert!(!changed);
    assert!(!needs_apply);
    let status = manager.get_status(&["test1".to_string()]);
    assert_eq!(status[0].state, ModuleState::Disabled);
}

// Resetting an already empty activation set is a pure no-op.
#[test]
fn test_reset_empty_is_noop() {
    let mut manager = manager_disabled(&["test1"]);

    let (changed, needs_apply) = manager.reset(false);
    assert!(!changed);
    assert!(!needs_apply);
}

// A forced reset applies even from the base state.
#[test]
fn test_reset_forced_applies() {
    let mut manager = manager_disabled(&["test1"]);

    let (changed, needs_apply) = manager.reset(true);
    assert!(!changed);
    assert!(needs_apply);
    manager.commit_apply(true);
    assert_eq!(
        manager.get_status(&["test1".to_string()])[0].state,
        ModuleState::Disabled
    );
}

// Reset marks every active module uncertain and empties the set; a
// successful apply then confirms everything disabled.
#[test]
fn test_reset_clears_active_modules() {
    let mut manager = manager_disabled(&["test1", "test2"]);

    manager.enable_modules(&["test1".to_string(), "test2".to_string()], false);
    manager.commit_apply(true);
    assert!(manager.module_file.active_modules.len() == 2);

    let (changed, needs_apply) = manager.reset(false);
    assert!(changed);
    assert!(needs_apply);
    assert!(manager.module_file.active_modules.is_empty());
    assert_eq!(
        manager.get_status(&["test1".to_string()])[0].state,
        ModuleState::Uncertain
    );

    manager.commit_apply(true);
    let status = manager.get_status(&["test1".to_string(), "test2".to_string()]);
    assert_eq!(status[0].state, ModuleState::Disabled);
    assert_eq!(status[1].state, ModuleState::Disabled);
}

// Enabling modules that are already effectively enabled performs no work.
#[test]
fn test_enable_idempotent() {
    let mut manager = manager_disabled(&["test1", "test2"]);

    let (first_changed, first_apply) = manager.enable_modules(
        &["test1".to_string(), "test2".to_string()],
        false,
    );
    assert!(first_changed);
    assert!(first_apply);
    manager.commit_apply(true);

    let (second_changed, second_apply) =
        manager.enable_modules(&["test1".to_string(), "test2".to_string()], false);
    assert!(!second_changed);
    assert!(!second_apply);

    // force overrides the no-change gate for the apply step, but the
    // change report stays truthful
    let (forced_changed, forced_apply) = manager.enable_modules(&["test1".to_string()], true);
    assert!(!forced_changed);
    assert!(forced_apply);
}

// Rebuild is a no-op on an empty activation set unless forced.
#[test]
fn test_rebuild_gate() {
    let mut manager = manager_disabled(&["test1"]);

    assert!(!manager.rebuild(false));
    assert!(manager.rebuild(true));

    manager.enable_modules(&["test1".to_string()], false);
    manager.commit_apply(true);
    assert!(manager.rebuild(false));
}

// An unknown name is reported before any mutation.
#[test]
fn test_verify_modules_exist() {
    let manager = manager_disabled(&["test1", "test2"]);

    assert!(manager.verify_modules_exist(&["test1".to_string(), "test2".to_string()]));
    assert!(!manager.verify_modules_exist(&["test1".to_string(), "missing".to_string()]));
    assert!(manager.verify_modules_exist(&[]));
}

// The catalog answers lookups the same with and without the index.
#[test]
fn test_get_module_path() {
    let registry = registry_disabled(&["test1", "test2"]);
    assert_eq!(
        registry.get_module_path("test2"),
        Some("/path/to/test2".to_string())
    );
    assert_eq!(registry.get_module_path("missing"), None);

    let plain = ModuleRegistry::new(vec![Module {
        name: "test1".to_string(),
        path: "/path/to/test1".to_string(),
        desc: String::new(),
        state: ModuleState::Disabled,
    }]);
    assert!(!plain.has_lookup_map());
    assert_eq!(
        plain.get_module_path("test1"),
        Some("/path/to/test1".to_string())
    );
    assert_eq!(plain.get_module_path("missing"), None);
}

// Setting the state of an unknown name changes nothing.
#[test]
fn test_set_state_unknown_name() {
    let mut registry = registry_disabled(&["test1"]);
    assert!(!registry.set_state("missing", ModuleState::Enabled));
    assert_eq!(registry.get_state("test1"), ModuleState::Disabled);
    assert!(registry.set_state("test1", ModuleState::Enabled));
    assert_eq!(registry.get_state("test1"), ModuleState::Enabled);
}

// An uncertain catalog entry outranks activation-set membership.
#[test]
fn test_uncertain_takes_precedence() {
    let registry = registry_disabled(&["test1"]);
    let mut module_file = ModuleFile::empty();
    module_file.enable_modules(&["test1".to_string()]);
    let mut manager = ModuleManager::new(registry, module_file);

    assert_eq!(
        manager.get_status(&["test1".to_string()])[0].state,
        ModuleState::Enabled
    );

    manager.registry.set_state("test1", ModuleState::Uncertain);
    assert_eq!(
        manager.get_status(&["test1".to_string()])[0].state,
        ModuleState::Uncertain
    );
}

// A dangling activation-set entry still reads as enabled but resolves to
// no path.
#[test]
fn test_dangling_activation_entry() {
    let registry = registry_disabled(&["test1"]);
    let mut module_file = ModuleFile::empty();
    module_file.enable_modules(&["ghost".to_string()]);
    let manager = ModuleManager::new(registry, module_file);

    let status = manager.get_status(&["ghost".to_string()]);
    assert_eq!(status[0].state, ModuleState::Enabled);
    assert_eq!(status[0].path, "");
}

// One status row per catalog entry, in catalog order.
#[test]
fn test_get_all_status() {
    let mut manager = manager_disabled(&["test1", "test2"]);
    manager.enable_modules(&["test2".to_string()], false);
    manager.commit_apply(true);

    let all = manager.get_all_status();
    assert_eq!(all.len(), 2);
    assert_eq!(all[0].name, "test1");
    assert_eq!(all[0].state, ModuleState::Disabled);
    assert_eq!(all[1].name, "test2");
    assert_eq!(all[1].state, ModuleState::Enabled);
    assert_eq!(all[1].path, "/path/to/test2");
}

// Each error variant renders a message naming what failed.
#[test]
fn test_error_messages() {
    let io_err = ModuleError::IoError("disk unplugged".to_string());
    assert_eq!(io_err.message(), "IO error: disk unplugged");

    let parse_err = ModuleError::ParseError("bad record".to_string());
    assert_eq!(parse_err.message(), "Parse error: bad record");

    let missing = ModuleError::ModuleNotFound("ghost".to_string());
    assert_eq!(missing.message(), "Module not found: ghost");
}

// The uniqueness half of the catalog invariant is checkable at load
// time: a duplicated name is detected, a clean catalog passes.
#[test]
fn test_names_unique() {
    let unique = ModuleRegistry::new(vec![
        Module {
            name: "test1".to_string(),
            path: "/path/to/test1".to_string(),
            desc: String::new(),
            state: ModuleState::Disabled,
        },
        Module {
            name: "test2".to_string(),
            path: "/path/to/test2".to_string(),
            desc: String::new(),
            state: ModuleState::Disabled,
        },
    ]);
    assert!(unique.names_unique());

    let duplicated = ModuleRegistry::new(vec![
        Module {
            name: "test1".to_string(),
            path: "/path/to/test1".to_string(),
            desc: String::new(),
            state: ModuleState::Disabled,
        },
        Module {
            name: "test1".to_string(),
            path: "/path/elsewhere".to_string(),
            desc: String::new(),
            state: ModuleState::Uncertain,
        },
    ]);
    assert!(!duplicated.names_unique());
    assert!(ModuleRegistry::new(Vec::new()).names_unique());
}
