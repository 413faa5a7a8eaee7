use std::path::Path;

use vole::catalog::names::{executable_from_file_name, executable_name, to_wide, wide_to_string};
use vole::catalog::platform::{installed_applications, running_name, running_processes};
use vole::catalog::{build, build_from, curated, AppEntry, CURATED_WEIGHT, RUNNING_WEIGHT};

fn owned(names: &[&str]) -> Vec<String> {
    names.iter().map(|n| (*n).to_owned()).collect()
}

fn find<'a>(entries: &'a [AppEntry], executable: &str) -> &'a AppEntry {
    entries
        .iter()
        .find(|e| e.executable == executable)
        .unwrap_or_else(|| panic!("`{executable}` should be listed"))
}

fn assert_ordered(entries: &[AppEntry]) {
    for pair in entries.windows(2) {
        let (a, b) = (&pair[0], &pair[1]);
        assert!(
            a.weight > b.weight
                || (a.weight == b.weight && a.display.to_ascii_lowercase() <= b.display.to_ascii_lowercase()),
            "{a:?} before {b:?}"
        );
    }
}

#[test]
fn curated_should_list_common_applications_first_to_last() {
    let list = curated();
    assert_eq!(list.len(), 30);
    assert_eq!(list[0], ("Discord.exe", "Discord"));
    assert_eq!(list[29], ("Wow.exe", "World of Warcraft"));
}

#[test]
fn build_should_weight_curated_applications_in_order() {
    let entries = build(&[]);
    assert_eq!(entries.len(), 30);
    assert_eq!(entries[0].executable, "Discord.exe");
    assert_eq!(entries[0].weight, CURATED_WEIGHT);
    assert_eq!(entries[1].executable, "chrome.exe");
    assert_eq!(entries[1].weight, CURATED_WEIGHT - 1);
    assert!(entries.iter().all(|e| !e.running));
    assert_ordered(&entries);
}

#[test]
fn playing_application_should_rise_to_the_top() {
    let entries = build(&owned(&["Wow.exe", "MyGame.exe"]));
    assert_eq!(entries[0].executable, "Wow.exe");
    assert!(entries[0].running);
    assert_eq!(entries[0].weight, CURATED_WEIGHT - 29 + RUNNING_WEIGHT);
    let game = find(&entries, "MyGame.exe");
    assert_eq!(game.display, "MyGame");
    assert!(game.running);
    assert_eq!(game.weight, RUNNING_WEIGHT);
    assert_eq!(entries.len(), 31);
    assert_ordered(&entries);
}

#[test]
fn build_from_should_keep_first_offer_per_executable() {
    let installed = vec![
        ("DISCORD.EXE".to_owned(), "Discord (installed)".to_owned()),
        ("Notepad.exe".to_owned(), "Notepad".to_owned()),
        ("notepad.exe".to_owned(), "Second notepad".to_owned()),
    ];
    let entries = build_from(&owned(&["NOTEPAD.EXE"]), &owned(&["discord.exe"]), &installed);
    assert_eq!(entries.len(), 31);
    let discord = find(&entries, "Discord.exe");
    assert_eq!(discord.display, "Discord");
    assert!(discord.running);
    assert_eq!(discord.weight, CURATED_WEIGHT + RUNNING_WEIGHT);
    let notepad = find(&entries, "Notepad.exe");
    assert_eq!(notepad.display, "Notepad");
    assert!(notepad.running);
    assert_eq!(notepad.weight, RUNNING_WEIGHT);
    assert!(entries.iter().all(|e| e.executable != "notepad.exe" && e.executable != "DISCORD.EXE"));
    assert_eq!(entries[0].executable, "Discord.exe");
    assert_ordered(&entries);
}

#[test]
fn running_list_should_match_lowercased_names_only() {
    let entries = build_from(&[], &owned(&["Spotify.exe", "vlc.exe"]), &[]);
    assert!(!find(&entries, "Spotify.exe").running);
    assert!(find(&entries, "vlc.exe").running);
}

#[test]
fn equal_weights_should_order_by_display_name_ignoring_case() {
    let installed = vec![
        ("b.exe".to_owned(), "beta".to_owned()),
        ("a.exe".to_owned(), "Alpha".to_owned()),
        ("c.exe".to_owned(), "Gamma".to_owned()),
    ];
    let entries = build_from(&[], &[], &installed);
    let tail: Vec<&str> = entries[30..].iter().map(|e| e.display.as_str()).collect();
    assert_eq!(tail, vec!["Alpha", "beta", "Gamma"]);
}

#[test]
fn display_name_should_drop_exe_suffix_only() {
    let entries = build_from(&owned(&["tool.EXE", "script.Exe", "plain"]), &[], &[]);
    assert_eq!(find(&entries, "tool.EXE").display, "tool");
    assert_eq!(find(&entries, "script.Exe").display, "script.Exe");
    assert_eq!(find(&entries, "plain").display, "plain");
}

#[test]
fn platform_lists_should_be_empty_off_windows() {
    assert!(running_processes().is_empty());
    assert!(installed_applications().is_empty());
}

#[test]
fn executable_name_should_require_exe_suffix() {
    assert_eq!(executable_name("C:/Apps/Vlc.EXE").as_deref(), Some("Vlc.EXE"));
    assert_eq!(executable_name("/opt/apps/spotify.exe").as_deref(), Some("spotify.exe"));
    assert_eq!(executable_name("C:/Apps/readme.txt"), None);
    assert_eq!(executable_name(""), None);
    assert_eq!(executable_name("/"), None);
    assert_eq!(executable_name("games/.."), None);
    assert_eq!(executable_name("games/tool.exe/.").as_deref(), Some("tool.exe"));
}

#[test]
fn executable_name_should_take_the_file_name_std_gives() {
    for target in ["a.exe", "dir/b.EXE", "dir/c.txt", "x/../y.exe", "z.exe/", "", ".exe", "/.exe", r"C:\Apps\d.exe"] {
        let expected = Path::new(target)
            .file_name()
            .and_then(|n| n.to_str())
            .filter(|n| n.to_ascii_lowercase().ends_with(".exe"))
            .map(str::to_owned);
        assert_eq!(executable_name(target), expected, "{target:?}");
    }
}

#[test]
fn wide_strings_should_round_trip() {
    let text = "Spotify – ♫ 𝄞.exe";
    let wide = to_wide(text);
    let expected: Vec<u16> = text.encode_utf16().chain(std::iter::once(0)).collect();
    assert_eq!(wide, expected);
    assert_eq!(wide_to_string(&wide), text);
    let mut buffer = [0u16; 16];
    buffer[..3].copy_from_slice(&[0x41, 0xD800, 0x42]);
    assert_eq!(wide_to_string(&buffer), "A\u{FFFD}B");
    assert_eq!(wide_to_string(&[0x61, 0x62]), "ab");
    assert_eq!(wide_to_string(&[]), "");
}

#[test]
fn running_name_should_lowercase_ascii_and_skip_empty() {
    assert_eq!(running_name("Discord.EXE").as_deref(), Some("discord.exe"));
    assert_eq!(running_name("ÄPP.exe").as_deref(), Some("Äpp.exe"));
    assert_eq!(running_name(""), None);
    let entries = build_from(&[], &[running_name("VLC.exe").unwrap()], &[]);
    assert!(find(&entries, "vlc.exe").running);
}

#[test]
fn curated_entries_should_outrank_running_installed_ones() {
    let installed = vec![("game.exe".to_owned(), "A Game".to_owned())];
    let entries = build_from(&owned(&["game.exe"]), &owned(&["game.exe"]), &installed);
    let game = entries.iter().position(|e| e.executable == "game.exe").expect("game is listed");
    assert_eq!(game, 30);
    assert_eq!(entries[game].weight, RUNNING_WEIGHT);
    assert!(entries[..30].iter().all(|e| e.weight >= CURATED_WEIGHT - 29));
}

#[test]
fn wide_text_should_round_trip_through_buffers() {
    for text in ["", "plain", "Ä ☃ 𝄞", "C:\\Program Files\\VOLE\\vole.exe"] {
        assert_eq!(wide_to_string(&to_wide(text)), text);
    }
}

#[test]
fn executable_from_file_name_should_keep_exe_names_only() {
    assert_eq!(executable_from_file_name("Vlc.EXE".to_owned()).as_deref(), Some("Vlc.EXE"));
    assert_eq!(executable_from_file_name("tool.exe".to_owned()).as_deref(), Some("tool.exe"));
    assert_eq!(executable_from_file_name("notes.txt".to_owned()), None);
    assert_eq!(executable_from_file_name(".ex".to_owned()), None);
    assert_eq!(executable_from_file_name(".exe".to_owned()).as_deref(), Some(".exe"));
}
