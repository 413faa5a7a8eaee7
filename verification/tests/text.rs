use vole::text::{ends_with, ends_with_ignoring_case, eq_ignore_case, fold_char, is_blank, less_ignoring_case, white_space};

const SAMPLES: [&str; 12] = ["", "a", "A", "Discord.exe", "discord.EXE", "DISCORD.EXE", "chrome", "Chrome.exe", "ß", "Ä", "zoom", "Zoom.exe"];

#[test]
fn white_space_should_agree_with_std_for_every_char() {
    for code in 0..=0x10FFFFu32 {
        if let Some(c) = char::from_u32(code) {
            assert_eq!(white_space(c), c.is_whitespace(), "code point {code:#x}");
        }
    }
}

#[test]
fn is_blank_should_agree_with_trim() {
    for s in ["", " ", "\t\n", "\u{3000}", " a ", "x", "\u{200B}", "\u{85}\u{A0}"] {
        assert_eq!(is_blank(s), s.trim().is_empty(), "{s:?}");
    }
}

#[test]
fn fold_char_should_lowercase_ascii_only() {
    assert_eq!(fold_char('A'), 'a' as u32);
    assert_eq!(fold_char('Z'), 'z' as u32);
    assert_eq!(fold_char('a'), 'a' as u32);
    assert_eq!(fold_char('Ä'), 'Ä' as u32);
    assert_eq!(fold_char('@'), '@' as u32);
}

#[test]
fn eq_ignore_case_should_agree_with_std() {
    for a in SAMPLES {
        for b in SAMPLES {
            assert_eq!(eq_ignore_case(a, b), a.eq_ignore_ascii_case(b), "{a:?} {b:?}");
        }
    }
}

#[test]
fn less_ignoring_case_should_agree_with_lowercased_order() {
    for a in SAMPLES {
        for b in SAMPLES {
            assert_eq!(less_ignoring_case(a, b), a.to_ascii_lowercase() < b.to_ascii_lowercase(), "{a:?} {b:?}");
        }
    }
}

#[test]
fn ends_with_should_agree_with_std() {
    for a in SAMPLES {
        for b in ["", ".exe", ".EXE", "exe", "Discord.exe"] {
            assert_eq!(ends_with(a, b), a.ends_with(b), "{a:?} {b:?}");
            assert_eq!(
                ends_with_ignoring_case(a, b),
                a.to_ascii_lowercase().ends_with(&b.to_ascii_lowercase()),
                "{a:?} {b:?}"
            );
        }
    }
}
