use chunkbuf::command_registry::CommandRegistry;
use chunkbuf::commands::Command;
use chunkbuf::keybindings::{Action, KeyContext};

#[test]
fn test_command_registry_creation() {
    let registry = CommandRegistry::new();
    assert!(registry.total_command_count() > 0); // Has built-in commands
    assert_eq!(registry.plugin_command_count(), 0); // No plugin commands yet
}

#[test]
fn test_register_command() {
    let mut registry = CommandRegistry::new();

    let custom_command = Command {
        name: "Test Command".to_string(),
        description: "A test command".to_string(),
        action: Action::NoOp,
        contexts: vec![],
    };

    registry.register(custom_command.clone());
    assert_eq!(registry.plugin_command_count(), 1);

    let found = registry.find_by_name("Test Command");
    assert!(found.is_some());
    assert_eq!(found.unwrap().description, "A test command");
}

#[test]
fn test_unregister_command() {
    let mut registry = CommandRegistry::new();

    let custom_command = Command {
        name: "Test Command".to_string(),
        description: "A test command".to_string(),
        action: Action::NoOp,
        contexts: vec![],
    };

    registry.register(custom_command);
    assert_eq!(registry.plugin_command_count(), 1);

    registry.unregister("Test Command");
    assert_eq!(registry.plugin_command_count(), 0);
}

#[test]
fn test_register_replaces_existing() {
    let mut registry = CommandRegistry::new();

    let command1 = Command {
        name: "Test Command".to_string(),
        description: "First version".to_string(),
        action: Action::NoOp,
        contexts: vec![],
    };

    let command2 = Command {
        name: "Test Command".to_string(),
        description: "Second version".to_string(),
        action: Action::NoOp,
        contexts: vec![],
    };

    registry.register(command1);
    assert_eq!(registry.plugin_command_count(), 1);

    registry.register(command2);
    assert_eq!(registry.plugin_command_count(), 1); // Still just one

    let found = registry.find_by_name("Test Command").unwrap();
    assert_eq!(found.description, "Second version");
}

#[test]
fn test_unregister_by_prefix() {
    let mut registry = CommandRegistry::new();

    registry.register(Command {
        name: "Plugin A: Command 1".to_string(),
        description: "".to_string(),
        action: Action::NoOp,
        contexts: vec![],
    });

    registry.register(Command {
        name: "Plugin A: Command 2".to_string(),
        description: "".to_string(),
        action: Action::NoOp,
        contexts: vec![],
    });

    registry.register(Command {
        name: "Plugin B: Command".to_string(),
        description: "".to_string(),
        action: Action::NoOp,
        contexts: vec![],
    });

    assert_eq!(registry.plugin_command_count(), 3);

    registry.unregister_by_prefix("Plugin A:");
    assert_eq!(registry.plugin_command_count(), 1);

    let remaining = registry.find_by_name("Plugin B: Command");
    assert!(remaining.is_some());
}

#[test]
fn test_filter_commands() {
    let mut registry = CommandRegistry::new();

    registry.register(Command {
        name: "Test Save".to_string(),
        description: "Test save command".to_string(),
        action: Action::NoOp,
        contexts: vec![KeyContext::Normal],
    });

    let results = registry.filter("save", KeyContext::Normal);
    assert!(results.len() >= 2); // At least "Save File" + "Test Save"

    // Check that both built-in and custom commands appear
    let names: Vec<String> = results.iter().map(|s| s.text.clone()).collect();
    assert!(names.iter().any(|n| n.contains("Save")));
}

#[test]
fn test_context_filtering() {
    let mut registry = CommandRegistry::new();

    registry.register(Command {
        name: "Normal Only".to_string(),
        description: "Available only in normal context".to_string(),
        action: Action::NoOp,
        contexts: vec![KeyContext::Normal],
    });

    registry.register(Command {
        name: "Help Only".to_string(),
        description: "Available only in help context".to_string(),
        action: Action::NoOp,
        contexts: vec![KeyContext::Help],
    });

    // In normal context, "Help Only" should be disabled
    let results = registry.filter("", KeyContext::Normal);
    let help_only = results.iter().find(|s| s.text == "Help Only");
    assert!(help_only.is_some());
    assert!(help_only.unwrap().disabled);

    // In help context, "Normal Only" should be disabled
    let results = registry.filter("", KeyContext::Help);
    let normal_only = results.iter().find(|s| s.text == "Normal Only");
    assert!(normal_only.is_some());
    assert!(normal_only.unwrap().disabled);
}

#[test]
fn test_get_all_merges_commands() {
    let mut registry = CommandRegistry::new();
    let initial_count = registry.total_command_count();

    registry.register(Command {
        name: "Custom 1".to_string(),
        description: "".to_string(),
        action: Action::NoOp,
        contexts: vec![],
    });

    registry.register(Command {
        name: "Custom 2".to_string(),
        description: "".to_string(),
        action: Action::NoOp,
        contexts: vec![],
    });

    let all = registry.get_all();
    assert_eq!(all.len(), initial_count + 2);
}

#[test]
fn test_plugin_command_overrides_builtin() {
    let mut registry = CommandRegistry::new();

    // Check a built-in command exists
    let builtin = registry.find_by_name("Save File");
    assert!(builtin.is_some());
    let original_desc = builtin.unwrap().description;

    // Override it with a plugin command
    registry.register(Command {
        name: "Save File".to_string(),
        description: "Custom save implementation".to_string(),
        action: Action::NoOp,
        contexts: vec![],
    });

    // Should now find the custom version
    let custom = registry.find_by_name("Save File").unwrap();
    assert_eq!(custom.description, "Custom save implementation");
    assert_ne!(custom.description, original_desc);
}

#[test]
fn test_fuzzy_match_subsequence() {
    let registry = CommandRegistry::new();
    // "sf" matches "Save File" by characters in order
    let results = registry.filter("sf", KeyContext::Normal);
    assert!(results.iter().any(|s| s.text == "Save File"));
    // a query with no match in any name yields nothing
    let none = registry.filter("zqx", KeyContext::Normal);
    assert_eq!(none.len(), 0);
}

#[test]
fn test_filter_orders_enabled_first() {
    let mut registry = CommandRegistry::new();
    registry.register(Command {
        name: "Help Screen Extra".to_string(),
        description: "".to_string(),
        action: Action::NoOp,
        contexts: vec![KeyContext::Help],
    });
    let results = registry.filter("", KeyContext::Normal);
    // every disabled suggestion comes after every enabled one
    let first_disabled = results.iter().position(|s| s.disabled);
    if let Some(fd) = first_disabled {
        assert!(results[fd..].iter().all(|s| s.disabled));
    }
}
