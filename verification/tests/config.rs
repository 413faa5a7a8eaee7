use std::path::PathBuf;

use vole::config::{Action, Config, ConfigError, ConfigStore, HotkeyBinding, Operation, Target, ValidationError, CONFIG_VERSION};

fn binding() -> HotkeyBinding {
    HotkeyBinding {
        id: "hear-discord".to_owned(),
        name: "Hear Discord".to_owned(),
        shortcut: "Ctrl+Alt+D".to_owned(),
        enabled: true,
        toggle: true,
        custom_name: false,
        actions: vec![Action { target: Target::Foreground, operation: Operation::SetLevel { level: 200 } }],
    }
}

fn with_hotkeys(hotkeys: Vec<HotkeyBinding>) -> Config {
    Config { hotkeys, ..Config::empty() }
}

#[test]
fn empty_should_create_current_schema_version() {
    assert_eq!(Config::empty().version, CONFIG_VERSION);
}

#[test]
fn validate_should_reject_duplicate_shortcuts_case_insensitively() {
    let mut duplicate = binding();
    duplicate.id = "second".to_owned();
    duplicate.shortcut = "ctrl+alt+d".to_owned();
    let config = Config { hotkeys: vec![binding(), duplicate], ..Config::empty() };

    assert!(matches!(config.validate(), Err(ValidationError::DuplicateShortcut(_))));
}

#[test]
fn validate_should_reject_volume_above_one() {
    let mut invalid = binding();
    invalid.actions[0].operation = Operation::SetLevel { level: 1100 };
    let config = Config { hotkeys: vec![invalid], ..Config::empty() };

    assert!(matches!(config.validate(), Err(ValidationError::InvalidLevel(_))));
}

#[test]
fn load_should_return_empty_config_when_file_is_missing() {
    assert_eq!(ConfigStore::loaded(None).expect("missing config should be valid"), Config::empty());
}

#[test]
fn validate_should_accept_a_sound_config() {
    let mut second = binding();
    second.id = "mute-spotify".to_owned();
    second.shortcut = "Ctrl+Alt+S".to_owned();
    second.actions = vec![Action {
        target: Target::Process { executable: "Spotify.exe".to_owned() },
        operation: Operation::Mute { muted: true },
    }];
    assert_eq!(with_hotkeys(vec![binding(), second]).validate(), Ok(()));
    assert_eq!(Config::empty().validate(), Ok(()));
}

#[test]
fn validate_should_reject_other_versions() {
    let config = Config { version: 1, ..Config::empty() };
    assert_eq!(config.validate(), Err(ValidationError::UnsupportedVersion(1)));
}

#[test]
fn validate_should_reject_empty_id() {
    let mut b = binding();
    b.id = "   ".to_owned();
    assert_eq!(with_hotkeys(vec![b]).validate(), Err(ValidationError::EmptyId));
}

#[test]
fn validate_should_reject_empty_name() {
    let mut b = binding();
    b.name = "\t".to_owned();
    assert_eq!(with_hotkeys(vec![b]).validate(), Err(ValidationError::EmptyName("hear-discord".to_owned())));
}

#[test]
fn validate_should_reject_empty_shortcut() {
    let mut b = binding();
    b.shortcut = String::new();
    assert_eq!(with_hotkeys(vec![b]).validate(), Err(ValidationError::EmptyShortcut("hear-discord".to_owned())));
}

#[test]
fn validate_should_reject_binding_without_actions() {
    let mut b = binding();
    b.actions.clear();
    assert_eq!(with_hotkeys(vec![b]).validate(), Err(ValidationError::NoActions("hear-discord".to_owned())));
}

#[test]
fn validate_should_reject_empty_executable() {
    let mut b = binding();
    b.actions[0].target = Target::Process { executable: " ".to_owned() };
    assert_eq!(with_hotkeys(vec![b]).validate(), Err(ValidationError::EmptyExecutable("hear-discord".to_owned())));
}

#[test]
fn validate_should_reject_negative_level() {
    let mut b = binding();
    b.actions[0].operation = Operation::SetLevel { level: -1 };
    assert_eq!(with_hotkeys(vec![b]).validate(), Err(ValidationError::InvalidLevel("hear-discord".to_owned())));
}

#[test]
fn validate_should_accept_level_bounds() {
    let mut silent = binding();
    silent.actions[0].operation = Operation::SetLevel { level: 0 };
    let mut full = binding();
    full.id = "full".to_owned();
    full.shortcut = "Ctrl+Alt+F".to_owned();
    full.actions[0].operation = Operation::SetLevel { level: 1000 };
    assert_eq!(with_hotkeys(vec![silent, full]).validate(), Ok(()));
}

#[test]
fn validate_should_reject_zero_or_oversized_delta() {
    let mut zero = binding();
    zero.actions[0].operation = Operation::Adjust { delta: 0 };
    assert_eq!(with_hotkeys(vec![zero]).validate(), Err(ValidationError::InvalidDelta("hear-discord".to_owned())));

    let mut large = binding();
    large.actions[0].operation = Operation::Adjust { delta: -1001 };
    assert_eq!(with_hotkeys(vec![large]).validate(), Err(ValidationError::InvalidDelta("hear-discord".to_owned())));

    let mut fine = binding();
    fine.actions[0].operation = Operation::Adjust { delta: -1000 };
    assert_eq!(with_hotkeys(vec![fine]).validate(), Ok(()));
}

#[test]
fn validate_should_reject_duplicate_ids() {
    let mut second = binding();
    second.shortcut = "Ctrl+Alt+E".to_owned();
    assert_eq!(
        with_hotkeys(vec![binding(), second]).validate(),
        Err(ValidationError::DuplicateId("hear-discord".to_owned()))
    );
}

#[test]
fn validate_should_report_the_first_problem() {
    let mut broken = binding();
    broken.name = String::new();
    broken.actions.clear();
    let mut duplicate = binding();
    duplicate.shortcut = "Ctrl+Alt+E".to_owned();
    assert_eq!(
        with_hotkeys(vec![broken, duplicate]).validate(),
        Err(ValidationError::EmptyName("hear-discord".to_owned()))
    );
}

#[test]
fn duplicate_shortcut_should_name_the_later_binding() {
    let mut duplicate = binding();
    duplicate.id = "second".to_owned();
    duplicate.shortcut = "CTRL+ALT+D".to_owned();
    assert_eq!(
        with_hotkeys(vec![binding(), duplicate]).validate(),
        Err(ValidationError::DuplicateShortcut("CTRL+ALT+D".to_owned()))
    );
}

#[test]
fn loaded_should_keep_a_valid_config_and_refuse_an_invalid_one() {
    let config = with_hotkeys(vec![binding()]);
    assert_eq!(ConfigStore::loaded(Some(config.clone())).expect("valid config should load"), config);

    let refused = Config { version: 7, ..Config::empty() };
    assert!(matches!(
        ConfigStore::loaded(Some(refused)),
        Err(ConfigError::Validation(ValidationError::UnsupportedVersion(7)))
    ));
}

#[test]
fn store_should_remember_its_path() {
    let path = PathBuf::from("/tmp/vole-config.json");
    let store = ConfigStore::at(path.clone());
    assert_eq!(store.path(), &path);
}

#[test]
fn default_config_should_hold_no_hotkeys() {
    let config = Config::default();
    assert!(config.hotkeys.is_empty());
    assert!(!config.launch_on_startup);
}
