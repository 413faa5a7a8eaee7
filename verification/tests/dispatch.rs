use vole::audio::fake::{FakeBackend, FakeSession};
use vole::audio::AudioEngine;
use vole::config::{Action, Config, ConfigStore, HotkeyBinding, Operation, Target};

fn playing(pid: u32, executable: &str, level: i32) -> FakeSession {
    FakeSession { pid, executable: executable.to_owned(), level, muted: false }
}

fn find(config: &[HotkeyBinding], id: &str) -> HotkeyBinding {
    config
        .iter()
        .find(|binding| binding.id == id)
        .cloned()
        .unwrap_or_else(|| panic!("binding `{id}` should exist"))
}

fn saved_config() -> Config {
    Config {
        version: 2,
        launch_on_startup: false,
        hotkeys: vec![
            HotkeyBinding {
                id: "duck-discord".to_owned(),
                name: "Duck Discord".to_owned(),
                shortcut: "Ctrl+Alt+D".to_owned(),
                enabled: true,
                toggle: false,
                custom_name: false,
                actions: vec![Action {
                    target: Target::Process { executable: "Discord.exe".to_owned() },
                    operation: Operation::SetLevel { level: 200 },
                }],
            },
            HotkeyBinding {
                id: "mute-spotify".to_owned(),
                name: "Mute Spotify".to_owned(),
                shortcut: "Ctrl+Alt+S".to_owned(),
                enabled: true,
                toggle: true,
                custom_name: false,
                actions: vec![Action {
                    target: Target::Process { executable: "spotify.exe".to_owned() },
                    operation: Operation::Mute { muted: true },
                }],
            },
        ],
    }
}

#[test]
fn config_should_drive_audio_end_to_end() {
    let config = ConfigStore::loaded(Some(saved_config())).expect("config should load");

    let backend = FakeBackend::with_sessions(vec![playing(101, "Discord.exe", 1000), playing(103, "Spotify.exe", 700)]);
    let mut engine = AudioEngine::new(backend);

    // Firing the duck hotkey should set Discord to 20% and leave Spotify alone.
    let duck = engine.apply(&find(&config.hotkeys, "duck-discord")).expect("duck should apply");
    assert_eq!(duck.affected, 1);
    assert_eq!(engine.backend().session(101).unwrap().level, 200);
    assert_eq!(engine.backend().session(103).unwrap().level, 700);

    // The toggle mute should mute Spotify, then restore it on a second press.
    let mute = find(&config.hotkeys, "mute-spotify");
    engine.apply(&mute).expect("mute should apply");
    assert!(engine.backend().session(103).unwrap().muted);

    engine.apply(&mute).expect("mute toggle should restore");
    let restored = engine.backend().session(103).unwrap();
    assert!(!restored.muted);
    assert_eq!(restored.level, 700);
}

#[test]
fn disabled_shortcut_still_dispatches_when_fired_directly() {
    // The engine itself does not gate on `enabled`; that is the OS registration
    // layer's job. Firing a binding always runs its actions.
    let backend = FakeBackend::with_sessions(vec![playing(1, "chrome.exe", 1000)]);
    let mut engine = AudioEngine::new(backend);

    let binding = HotkeyBinding {
        id: "x".to_owned(),
        name: "x".to_owned(),
        shortcut: "Ctrl+Alt+X".to_owned(),
        enabled: false,
        toggle: false,
        custom_name: false,
        actions: vec![Action {
            target: Target::Process { executable: "chrome.exe".to_owned() },
            operation: Operation::Mute { muted: true },
        }],
    };

    engine.apply(&binding).expect("apply should succeed");
    assert!(engine.backend().session(1).unwrap().muted);
}

#[test]
fn firing_a_hotkey_with_no_matching_session_reports_zero() {
    // The target app is not playing audio, so no session matches; the engine
    // reports this so the user can be told instead of nothing happening.
    let backend = FakeBackend::with_sessions(vec![playing(1, "chrome.exe", 1000)]);
    let mut engine = AudioEngine::new(backend);

    let binding = HotkeyBinding {
        id: "y".to_owned(),
        name: "y".to_owned(),
        shortcut: "Ctrl+Alt+Y".to_owned(),
        enabled: true,
        toggle: false,
        custom_name: false,
        actions: vec![Action {
            target: Target::Process { executable: "discord.exe".to_owned() },
            operation: Operation::Mute { muted: true },
        }],
    };

    let outcome = engine.apply(&binding).expect("apply should succeed");
    assert_eq!(outcome.affected, 0);
}
