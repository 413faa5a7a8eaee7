use vole::audio::fake::{FakeBackend, FakeSession};
use vole::audio::{platform_backend, saturating_sum, AudioEngine, SessionInfo};
use vole::config::{Action, HotkeyBinding, Operation, Target, FULL_LEVEL};

fn session(pid: u32, executable: &str, level: i32) -> FakeSession {
    FakeSession { pid, executable: executable.to_owned(), level, muted: false }
}

fn binding(id: &str, toggle: bool, actions: Vec<Action>) -> HotkeyBinding {
    HotkeyBinding {
        id: id.to_owned(),
        name: id.to_owned(),
        shortcut: "Ctrl+Alt+D".to_owned(),
        enabled: true,
        toggle,
        custom_name: false,
        actions,
    }
}

fn process_action(executable: &str, operation: Operation) -> Action {
    Action { target: Target::Process { executable: executable.to_owned() }, operation }
}

#[test]
fn set_should_change_matching_process_level() {
    let backend = FakeBackend::with_sessions(vec![session(1, "Discord.exe", 1000)]);
    let mut engine = AudioEngine::new(backend);

    let outcome = engine
        .apply(&binding("one", false, vec![process_action("Discord.exe", Operation::SetLevel { level: 200 })]))
        .expect("apply should succeed");

    assert_eq!(outcome.affected, 1);
    assert_eq!(engine.backend().session(1).unwrap().level, 200);
}

#[test]
fn apply_should_report_zero_when_nothing_matches() {
    let backend = FakeBackend::with_sessions(vec![session(1, "Discord.exe", 1000)]);
    let mut engine = AudioEngine::new(backend);

    let outcome = engine
        .apply(&binding("one", false, vec![process_action("nowhere.exe", Operation::SetLevel { level: 200 })]))
        .expect("apply should succeed");

    assert_eq!(outcome.affected, 0);
    assert_eq!(engine.backend().session(1).unwrap().level, 1000);
}

#[test]
fn process_match_should_ignore_case() {
    let backend = FakeBackend::with_sessions(vec![session(1, "Discord.exe", 1000)]);
    let mut engine = AudioEngine::new(backend);

    engine
        .apply(&binding("one", false, vec![process_action("discord.exe", Operation::Mute { muted: true })]))
        .expect("apply should succeed");

    assert!(engine.backend().session(1).unwrap().muted);
}

#[test]
fn foreground_action_should_only_touch_focused_process() {
    let mut backend = FakeBackend::with_sessions(vec![session(1, "Discord.exe", 1000), session(2, "chrome.exe", 1000)]);
    backend.set_foreground(Some(2));
    let mut engine = AudioEngine::new(backend);

    engine
        .apply(&binding(
            "one",
            false,
            vec![Action { target: Target::Foreground, operation: Operation::SetLevel { level: 100 } }],
        ))
        .expect("apply should succeed");

    assert_eq!(engine.backend().session(1).unwrap().level, 1000);
    assert_eq!(engine.backend().session(2).unwrap().level, 100);
}

#[test]
fn toggle_should_restore_previous_state_on_second_press() {
    let backend = FakeBackend::with_sessions(vec![session(1, "Discord.exe", 800)]);
    let mut engine = AudioEngine::new(backend);
    let hotkey = binding("toggle", true, vec![process_action("Discord.exe", Operation::Mute { muted: true })]);

    engine.apply(&hotkey).expect("first press should mute");
    assert!(engine.backend().session(1).unwrap().muted);

    let outcome = engine.apply(&hotkey).expect("second press should restore");
    assert!(outcome.restored);
    let restored = engine.backend().session(1).unwrap();
    assert!(!restored.muted);
    assert_eq!(restored.level, 800);
}

#[test]
fn adjust_should_clamp_within_range() {
    let backend = FakeBackend::with_sessions(vec![session(1, "Discord.exe", 900)]);
    let mut engine = AudioEngine::new(backend);

    engine
        .apply(&binding("one", false, vec![process_action("Discord.exe", Operation::Adjust { delta: 500 })]))
        .expect("apply should succeed");

    assert_eq!(engine.backend().session(1).unwrap().level, 1000);
}

#[test]
fn adjust_below_silence_should_clamp_to_zero() {
    let backend = FakeBackend::with_sessions(vec![session(1, "Discord.exe", 100)]);
    let mut engine = AudioEngine::new(backend);

    let outcome = engine
        .apply(&binding("one", false, vec![process_action("Discord.exe", Operation::Adjust { delta: -300 })]))
        .expect("apply should succeed");

    assert_eq!(outcome.affected, 1);
    assert!(!outcome.restored);
    assert_eq!(engine.backend().session(1).unwrap().level, 0);
}

#[test]
fn set_above_full_should_clamp_to_full() {
    let backend = FakeBackend::with_sessions(vec![session(1, "Discord.exe", 300)]);
    let mut engine = AudioEngine::new(backend);

    engine
        .apply(&binding("one", false, vec![process_action("Discord.exe", Operation::SetLevel { level: 5000 })]))
        .expect("apply should succeed");

    assert_eq!(engine.backend().session(1).unwrap().level, FULL_LEVEL);
}

#[test]
fn toggle_with_set_should_duck_then_restore_every_session() {
    let backend = FakeBackend::with_sessions(vec![
        session(1, "Discord.exe", 900),
        session(2, "chrome.exe", 600),
        session(3, "Spotify.exe", 400),
    ]);
    let mut engine = AudioEngine::new(backend);
    let duck = binding(
        "duck",
        true,
        vec![
            process_action("discord.EXE", Operation::SetLevel { level: 200 }),
            process_action("Spotify.exe", Operation::Mute { muted: true }),
        ],
    );

    let first = engine.apply(&duck).expect("first press should duck");
    assert_eq!(first.affected, 2);
    assert!(!first.restored);
    assert_eq!(engine.backend().session(1).unwrap().level, 200);
    assert!(engine.backend().session(3).unwrap().muted);
    assert_eq!(engine.backend().session(2).unwrap().level, 600);

    let second = engine.apply(&duck).expect("second press should restore");
    assert!(second.restored);
    assert_eq!(second.affected, 2);
    let snapshot = engine.backend().snapshot();
    assert_eq!(snapshot, vec![session(1, "Discord.exe", 900), session(2, "chrome.exe", 600), session(3, "Spotify.exe", 400)]);

    let third = engine.apply(&duck).expect("third press should duck again");
    assert!(!third.restored);
    assert_eq!(engine.backend().session(1).unwrap().level, 200);
}

#[test]
fn several_actions_should_count_every_session_reached() {
    // Relative adjustments start from the level each session had when the binding fired.
    let backend = FakeBackend::with_sessions(vec![session(1, "Discord.exe", 1000), session(2, "chrome.exe", 1000)]);
    let mut engine = AudioEngine::new(backend);

    let outcome = engine
        .apply(&binding(
            "many",
            false,
            vec![
                process_action("Discord.exe", Operation::Adjust { delta: -100 }),
                process_action("Discord.exe", Operation::Adjust { delta: -100 }),
                Action { target: Target::Foreground, operation: Operation::Mute { muted: true } },
            ],
        ))
        .expect("apply should succeed");

    assert_eq!(outcome.affected, 3);
    let discord = engine.backend().session(1).unwrap();
    assert_eq!(discord.level, 900);
    assert!(discord.muted);
    assert!(!engine.backend().session(2).unwrap().muted);
}

#[test]
fn foreground_without_session_should_do_nothing() {
    let mut backend = FakeBackend::with_sessions(vec![session(1, "Discord.exe", 1000)]);
    backend.set_foreground(Some(77));
    let mut engine = AudioEngine::new(backend);

    let outcome = engine
        .apply(&binding(
            "fg",
            false,
            vec![Action { target: Target::Foreground, operation: Operation::Mute { muted: true } }],
        ))
        .expect("apply should succeed");

    assert_eq!(outcome.affected, 0);
    assert!(!engine.backend().session(1).unwrap().muted);
}

#[test]
fn applications_should_list_each_name_once_in_order() {
    let backend = FakeBackend::with_sessions(vec![
        session(1, "spotify.exe", 1000),
        session(2, "Discord.exe", 1000),
        session(3, "Spotify.exe", 1000),
        session(4, "chrome.exe", 1000),
    ]);
    let engine = AudioEngine::new(backend);

    let names = engine.applications().expect("fake backend lists sessions");
    let lowered: Vec<String> = names.iter().map(|n| n.to_ascii_lowercase()).collect();
    assert_eq!(lowered, vec!["chrome.exe".to_owned(), "discord.exe".to_owned(), "spotify.exe".to_owned()]);
    assert_eq!(names[1], "Discord.exe");
}

#[test]
fn sessions_should_report_every_fake_session() {
    let backend = FakeBackend::with_sessions(vec![session(5, "vlc.exe", 250)]);
    let engine = AudioEngine::new(backend);

    let sessions = engine.sessions().expect("fake backend lists sessions");
    assert_eq!(
        sessions,
        vec![SessionInfo { pid: 5, executable: Some("vlc.exe".to_owned()), level: 250, muted: false }]
    );
}

#[test]
fn platform_backend_should_offer_default_sessions() {
    let backend = platform_backend().expect("the fake backend is always available");
    let sessions = backend.snapshot();
    let names: Vec<&str> = sessions.iter().map(|s| s.executable.as_str()).collect();
    assert_eq!(names, vec!["Discord.exe", "chrome.exe", "Spotify.exe", "vlc.exe"]);
    assert!(sessions.iter().all(|s| s.level == FULL_LEVEL && !s.muted));
    assert_eq!(backend.session(103).unwrap().executable, "Spotify.exe");
    assert!(backend.session(999).is_none());
    assert_eq!(FakeBackend::default().snapshot(), FakeBackend::new().snapshot());
}

#[test]
fn session_should_return_first_session_of_process() {
    let backend = FakeBackend::with_sessions(vec![session(7, "a.exe", 100), session(7, "b.exe", 200)]);
    assert_eq!(backend.session(7).unwrap().executable, "a.exe");
}

#[test]
fn level_change_should_reach_every_session_of_process() {
    let backend = FakeBackend::with_sessions(vec![session(7, "game.exe", 100), session(7, "game.exe", 200)]);
    let mut engine = AudioEngine::new(backend);
    engine
        .apply(&binding("one", false, vec![process_action("game.exe", Operation::SetLevel { level: 500 })]))
        .expect("apply should succeed");
    assert!(engine.backend().snapshot().iter().all(|s| s.level == 500));
}

#[test]
fn matches_should_follow_target() {
    let info = SessionInfo { pid: 9, executable: Some("Discord.exe".to_owned()), level: 0, muted: false };
    let nameless = SessionInfo { pid: 9, executable: None, level: 0, muted: false };
    let discord = Target::Process { executable: "DISCORD.exe".to_owned() };
    assert!(vole::audio::matches(&info, &discord, None));
    assert!(!vole::audio::matches(&nameless, &discord, Some(9)));
    assert!(vole::audio::matches(&nameless, &Target::Foreground, Some(9)));
    assert!(!vole::audio::matches(&info, &Target::Foreground, Some(8)));
    assert!(!vole::audio::matches(&info, &Target::Foreground, None));
}

#[test]
fn saturating_sum_should_hold_at_bounds() {
    assert_eq!(saturating_sum(700, 500), 1200);
    assert_eq!(saturating_sum(i32::MAX, 1), i32::MAX);
    assert_eq!(saturating_sum(i32::MIN, -1), i32::MIN);
    assert_eq!(saturating_sum(-5, 3), -2);
}

#[test]
fn second_toggle_press_should_restore_after_other_changes() {
    let backend = FakeBackend::with_sessions(vec![session(1, "Discord.exe", 800), session(2, "chrome.exe", 600)]);
    let mut engine = AudioEngine::new(backend);
    let toggle = binding("toggle", true, vec![process_action("Discord.exe", Operation::Mute { muted: true })]);
    let other = binding("other", false, vec![process_action("discord.exe", Operation::SetLevel { level: 300 })]);

    engine.apply(&toggle).expect("first press should mute");
    engine.apply(&other).expect("another binding changes the level");
    assert_eq!(engine.backend().session(1).unwrap().level, 300);

    let outcome = engine.apply(&toggle).expect("second press should restore");
    assert_eq!(outcome, vole::audio::ApplyOutcome { affected: 1, restored: true });
    let discord = engine.backend().session(1).unwrap();
    assert_eq!(discord.level, 800);
    assert!(!discord.muted);
    assert_eq!(engine.backend().session(2).unwrap().level, 600);

    let third = engine.apply(&toggle).expect("third press captures again");
    assert!(!third.restored);
}
