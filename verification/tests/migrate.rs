use vole::config::{Action, Config, HotkeyBinding, Operation, Target, CONFIG_VERSION};
use vole::migrate::{migrate, LegacyAction, LegacyBinding, LegacyConfig, LegacyOperation};

fn legacy(id: &str, actions: Vec<LegacyAction>) -> LegacyBinding {
    LegacyBinding {
        id: id.to_owned(),
        name: id.to_owned(),
        shortcut: format!("Ctrl+Alt+{}", id.len()),
        enabled: true,
        actions,
    }
}

#[test]
fn migrate_should_turn_toggle_operations_into_toggle_bindings() {
    let old = LegacyConfig {
        version: 1,
        launch_on_startup: true,
        hotkeys: vec![
            legacy(
                "duck",
                vec![LegacyAction { target: Target::Foreground, operation: LegacyOperation::ToggleDuck { level: 200 } }],
            ),
            legacy(
                "mute-it",
                vec![
                    LegacyAction {
                        target: Target::Process { executable: "Spotify.exe".to_owned() },
                        operation: LegacyOperation::Adjust { delta: -100 },
                    },
                    LegacyAction {
                        target: Target::Process { executable: "Discord.exe".to_owned() },
                        operation: LegacyOperation::ToggleMute,
                    },
                ],
            ),
            legacy(
                "plain",
                vec![LegacyAction { target: Target::Foreground, operation: LegacyOperation::SetLevel { level: 500 } }],
            ),
        ],
    };

    let config = migrate(&old);
    let expected = Config {
        version: CONFIG_VERSION,
        launch_on_startup: true,
        hotkeys: vec![
            HotkeyBinding {
                id: "duck".to_owned(),
                name: "duck".to_owned(),
                shortcut: "Ctrl+Alt+4".to_owned(),
                enabled: true,
                toggle: true,
                custom_name: false,
                actions: vec![Action { target: Target::Foreground, operation: Operation::SetLevel { level: 200 } }],
            },
            HotkeyBinding {
                id: "mute-it".to_owned(),
                name: "mute-it".to_owned(),
                shortcut: "Ctrl+Alt+7".to_owned(),
                enabled: true,
                toggle: true,
                custom_name: false,
                actions: vec![
                    Action {
                        target: Target::Process { executable: "Spotify.exe".to_owned() },
                        operation: Operation::Adjust { delta: -100 },
                    },
                    Action {
                        target: Target::Process { executable: "Discord.exe".to_owned() },
                        operation: Operation::Mute { muted: true },
                    },
                ],
            },
            HotkeyBinding {
                id: "plain".to_owned(),
                name: "plain".to_owned(),
                shortcut: "Ctrl+Alt+5".to_owned(),
                enabled: true,
                toggle: false,
                custom_name: false,
                actions: vec![Action { target: Target::Foreground, operation: Operation::SetLevel { level: 500 } }],
            },
        ],
    };
    assert_eq!(config, expected);
    assert_eq!(config.validate(), Ok(()));
}

#[test]
fn migrate_should_keep_an_empty_config_empty() {
    let old = LegacyConfig { version: 1, launch_on_startup: false, hotkeys: vec![] };
    assert_eq!(migrate(&old), Config::empty());
}
