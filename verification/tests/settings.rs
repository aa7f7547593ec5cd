use reminderski::settings::{
    describe, parse_shortcut, read_settings, setting_on, Settings, SettingProblem, Shortcut,
    DEFAULT_FILE, MOD_ALT, MOD_CONTROL, MOD_NOREPEAT, MOD_SHIFT, MOD_WIN,
};

fn shortcut(text: &str) -> Shortcut {
    parse_shortcut(text).expect("should have read a shortcut")
}

#[test]
fn a_first_run_writes_the_file_and_keeps_the_defaults() {
    let settings = read_settings(DEFAULT_FILE);
    assert_eq!(settings.settings.capture, Settings::default().capture);
    assert!(settings.problems.is_empty());
}

#[test]
fn an_edited_file_is_what_the_shortcuts_come_from() {
    let settings = read_settings("# mine\ncapture = win+shift+f9\n").settings;
    assert_eq!(settings.capture, shortcut("win+shift+f9"));
    // Left out of the file, so it stays what it has always been.
    assert_eq!(settings.answer, Settings::default().answer);
}

#[test]
fn a_shortcut_it_cannot_read_leaves_the_one_that_worked() {
    // Refusing to start would take away the shortcut they were editing it to fix.
    let file = read_settings("capture = ctrl+nonsense\n");
    assert_eq!(file.settings.capture, Settings::default().capture);
    match &file.problems[..] {
        [SettingProblem::UnreadableShortcut { line, name, value }] => {
            assert_eq!(*line, 1);
            assert_eq!(name, "capture");
            assert_eq!(value, "ctrl+nonsense");
        }
        _ => panic!("the unreadable shortcut should have been reported"),
    }
}

#[test]
fn an_unknown_setting_is_reported_by_line_and_name() {
    let file = read_settings("\n\nbeep = ctrl+b\nanswer = alt+q\n");
    assert_eq!(file.settings.answer, shortcut("alt+q"));
    match &file.problems[..] {
        [SettingProblem::UnknownName { line, name }] => {
            assert_eq!(*line, 3);
            assert_eq!(name, "beep");
        }
        _ => panic!("the unknown setting should have been reported"),
    }
}

#[test]
fn reads_the_shortcut_the_application_has_always_had() {
    assert_eq!(shortcut("ctrl+alt+r"), Settings::default().capture);
}

#[test]
fn case_and_spacing_are_not_worth_being_strict_about() {
    assert_eq!(shortcut("  CTRL + Alt +R "), shortcut("ctrl+alt+r"));
}

#[test]
fn function_keys_and_the_space_bar_can_be_asked_for() {
    assert_eq!(shortcut("ctrl+f9").key, 0x78);
    assert_eq!(shortcut("ctrl+shift+space").key, 0x20);
}

#[test]
fn every_shortcut_stops_the_keyboard_repeating_it() {
    assert!(shortcut("win+k").modifiers & MOD_NOREPEAT != 0);
}

#[test]
fn a_shortcut_without_a_modifier_is_refused() {
    // It would take that key away from every other application on the machine.
    assert_eq!(parse_shortcut("r"), None);
}

#[test]
fn what_it_cannot_read_is_refused_rather_than_guessed() {
    for text in [
        "", "ctrl+", "ctrl+alt", "ctrl+rr", "ctrl+f0", "ctrl+f25", "ctrl+a+b",
    ] {
        assert_eq!(parse_shortcut(text), None, "{text} should not have read");
    }
}

#[test]
fn a_shortcut_is_written_back_the_way_it_is_said() {
    assert_eq!(describe(shortcut("alt+ctrl+r")), "Ctrl+Alt+R");
    assert_eq!(describe(shortcut("ctrl+shift+space")), "Ctrl+Shift+Space");
    assert_eq!(describe(shortcut("win+f12")), "Win+F12");
}

#[test]
fn a_line_carries_a_setting_a_comment_or_neither() {
    assert_eq!(
        setting_on("capture = ctrl+alt+r"),
        Some(("capture", "ctrl+alt+r"))
    );
    assert_eq!(
        setting_on("  answer=win+k  # mine"),
        Some(("answer", "win+k"))
    );
    assert_eq!(setting_on("# just a comment"), None);
    assert_eq!(setting_on("   "), None);
    assert_eq!(setting_on("nonsense"), None);
}

#[test]
fn the_file_written_on_a_first_run_says_what_the_defaults_are() {
    let mut settings = Settings::default();
    for line in DEFAULT_FILE.lines() {
        if let Some((name, value)) = setting_on(line) {
            if let Some(parsed) = parse_shortcut(value) {
                match name {
                    "capture" => settings.capture = parsed,
                    "answer" => settings.answer = parsed,
                    _ => panic!("the default file sets {name}, which load does not read"),
                }
            }
        }
    }
    assert_eq!(settings.capture, Settings::default().capture);
    assert_eq!(settings.answer, Settings::default().answer);
}

#[test]
fn the_defaults_are_ctrl_alt_r_and_ctrl_alt_a() {
    let defaults = Settings::default();
    assert_eq!(defaults.capture.modifiers, MOD_CONTROL | MOD_ALT | MOD_NOREPEAT);
    assert_eq!(defaults.capture.key, u32::from(b'R'));
    assert_eq!(defaults.answer.key, u32::from(b'A'));
    assert_eq!(describe(defaults.capture), "Ctrl+Alt+R");
}

#[test]
fn every_modifier_and_both_spellings_of_control_are_read() {
    assert_eq!(
        shortcut("control+shift+win+alt+7").modifiers,
        MOD_CONTROL | MOD_SHIFT | MOD_WIN | MOD_ALT | MOD_NOREPEAT
    );
    assert_eq!(shortcut("ctrl+7").key, u32::from(b'7'));
    assert_eq!(shortcut("ctrl+f").key, u32::from(b'F'));
    assert_eq!(shortcut("ctrl+f24").key, 0x87);
    assert_eq!(shortcut("ctrl+f1").key, 0x70);
}

#[test]
fn a_key_with_no_name_is_written_by_its_code() {
    let odd = Shortcut {
        modifiers: MOD_CONTROL,
        key: 0xD800,
    };
    assert_eq!(describe(odd), "Ctrl+0xd800");
    let spelled = Shortcut {
        modifiers: MOD_WIN,
        key: 0x41,
    };
    assert_eq!(describe(spelled), "Win+A");
}

#[test]
fn a_written_back_shortcut_reads_back_the_same() {
    for text in ["ctrl+alt+r", "win+shift+f9", "alt+space", "shift+ctrl+0"] {
        let read = shortcut(text);
        assert_eq!(parse_shortcut(&describe(read)), Some(read));
    }
}

#[test]
fn a_shortcut_written_back_reads_as_the_same_shortcut() {
    for text in ["ctrl+alt+r", "win+shift+f9", "alt+space", "control+win+7", "ctrl+alt+shift+win+f24", "shift+f1"] {
        let shortcut = parse_shortcut(text).expect("should read");
        assert_eq!(parse_shortcut(&describe(shortcut)), Some(shortcut));
    }
}

#[test]
fn every_shortcut_read_has_a_modifier_and_a_named_key() {
    for text in ["ctrl+a", "win+0", "alt+f12", "shift+space"] {
        let shortcut = parse_shortcut(text).expect("should read");
        assert_ne!(shortcut.modifiers & MOD_NOREPEAT, 0);
        assert_ne!(shortcut.modifiers & 15, 0);
        assert_eq!(shortcut.modifiers & !(15 | MOD_NOREPEAT), 0);
    }
}
