use std::str::FromStr;

use global_hotkey::hotkey::HotKey;
use vole::audio::fake::{FakeBackend, FakeSession};
use vole::config::{Action, Config, HotkeyBinding, Operation, Target, ValidationError};
use vole::runtime::{HotkeyError, Runtime};

fn duck(shortcut: &str) -> HotkeyBinding {
    HotkeyBinding {
        id: "duck".to_owned(),
        name: "Duck".to_owned(),
        shortcut: shortcut.to_owned(),
        enabled: true,
        toggle: false,
        custom_name: false,
        actions: vec![Action {
            target: Target::Process { executable: "Discord.exe".to_owned() },
            operation: Operation::SetLevel { level: 200 },
        }],
    }
}

fn runtime() -> Runtime<FakeBackend> {
    let backend = FakeBackend::with_sessions(vec![FakeSession {
        pid: 1,
        executable: "Discord.exe".to_owned(),
        level: 1000,
        muted: false,
    }]);
    Runtime::new(Config::empty(), backend).unwrap_or_else(|_| panic!("hotkey manager should start"))
}

#[test]
fn activate_should_refuse_invalid_config_and_keep_the_active_one() {
    let mut rt = runtime();
    let mut candidate = Config { hotkeys: vec![duck("Ctrl+Alt+D")], ..Config::empty() };
    candidate.hotkeys[0].actions.clear();

    let result = rt.activate(candidate);
    assert!(matches!(result, Err(HotkeyError::InvalidConfig(ValidationError::NoActions(ref id))) if id == "duck"));
    assert_eq!(rt.config(), &Config::empty());
}

#[test]
fn activate_should_report_unparsable_shortcut_and_restore_previous() {
    let mut rt = runtime();
    let candidate = Config { hotkeys: vec![duck("Ctrl+Alt+NotAKey")], ..Config::empty() };

    let result = rt.activate(candidate);
    assert!(matches!(result, Err(HotkeyError::InvalidShortcut { ref shortcut, .. }) if shortcut == "Ctrl+Alt+NotAKey"));
    assert_eq!(rt.config(), &Config::empty());
}

#[test]
fn disabled_binding_with_unparsable_shortcut_should_not_block_activation_parse() {
    let mut rt = runtime();
    let mut off = duck("Ctrl+Alt+NotAKey");
    off.enabled = false;
    let candidate = Config { hotkeys: vec![off], ..Config::empty() };

    let previous = rt.activate(candidate.clone()).unwrap_or_else(|_| panic!("nothing to register"));
    assert_eq!(previous, Config::empty());
    assert_eq!(rt.config(), &candidate);
    assert!(rt.unregister_hotkeys().is_ok());
}

#[test]
fn unknown_hotkey_id_should_do_nothing() {
    let mut rt = runtime();
    assert!(rt.fires_active_binding(12345));
    let outcome = rt.handle_hotkey(12345).unwrap_or_else(|_| panic!("fake backend does not fail"));
    assert!(outcome.is_none());
    assert_eq!(rt.audio().backend().session(1).unwrap().level, 1000);
}

#[test]
fn registered_hotkey_should_fire_its_binding() {
    let mut rt = runtime();
    let candidate = Config { hotkeys: vec![duck("Ctrl+Alt+D")], ..Config::empty() };
    let id = HotKey::from_str("Ctrl+Alt+D").expect("shortcut parses").id();

    match rt.activate(candidate.clone()) {
        Ok(previous) => {
            assert_eq!(previous, Config::empty());
            assert_eq!(rt.config(), &candidate);
            assert!(rt.fires_active_binding(id));
            let outcome = rt
                .handle_hotkey(id)
                .unwrap_or_else(|_| panic!("fake backend does not fail"))
                .expect("the id fires the binding");
            assert_eq!(outcome.affected, 1);
            assert_eq!(rt.audio().backend().session(1).unwrap().level, 200);

            let rolled = rt.roll_back(previous);
            if rolled.is_ok() {
                assert_eq!(rt.config(), &Config::empty());
                assert!(rt.handle_hotkey(id).unwrap_or_else(|_| panic!("fake backend does not fail")).is_none());
            }
        },
        Err(HotkeyError::Unavailable { shortcut, .. }) => {
            assert_eq!(shortcut, "Ctrl+Alt+D");
            assert_eq!(rt.config(), &Config::empty());
        },
        Err(other) => panic!("unexpected failure: {other:?}"),
    }
}

#[test]
fn roll_back_should_make_previous_config_active() {
    let mut rt = runtime();
    let mut off = duck("Ctrl+Alt+D");
    off.enabled = false;
    let previous = Config { hotkeys: vec![off], ..Config::empty() };

    rt.roll_back(previous.clone()).unwrap_or_else(|_| panic!("nothing to register"));
    assert_eq!(rt.config(), &previous);
}

#[test]
fn later_binding_should_take_over_a_shared_shortcut_id() {
    let mut rt = runtime();
    let first = duck("Ctrl+Alt+D");
    let mut second = duck("Alt+Ctrl+D");
    second.id = "mute".to_owned();
    second.actions[0].operation = Operation::Mute { muted: true };
    let candidate = Config { hotkeys: vec![first, second], ..Config::empty() };
    let id = HotKey::from_str("Ctrl+Alt+D").expect("shortcut parses").id();
    assert_eq!(id, HotKey::from_str("Alt+Ctrl+D").expect("shortcut parses").id());

    if rt.activate(candidate).is_ok() {
        rt.handle_hotkey(id).unwrap_or_else(|_| panic!("fake backend does not fail"));
        let discord = rt.audio().backend().session(1).unwrap();
        assert!(discord.muted);
        assert_eq!(discord.level, 1000);
    }
}
