use reminderski::reminder::{Reminder, State};
use reminderski::store::{contents_of, decode, encode, read_file};

fn reminder(due_unix: u64, text: &str) -> Reminder {
    Reminder {
        due_unix,
        state: State::Pending,
        snoozes: 0,
        text: text.to_string(),
    }
}

#[test]
fn stores_and_reads_back_awkward_text() {
    let text = "Zażółć gęślą jaźń\r\nsecond line\ttabbed\\escaped 🎉".to_string();
    let mut contents = encode(&reminder(1_800_000_000, &text));
    contents.push('\n');

    let loaded = read_file(&contents);
    assert_eq!(loaded.reminders.len(), 1);
    assert_eq!(loaded.reminders[0].due_unix, 1_800_000_000);
    assert_eq!(loaded.reminders[0].text, text);
}

#[test]
fn keeps_every_appended_reminder_in_order() {
    let mut contents = String::new();
    for index in 0..3u64 {
        contents.push_str(&encode(&reminder(index, &format!("reminder {index}"))));
        contents.push('\n');
    }

    let loaded = read_file(&contents);
    assert_eq!(loaded.reminders.len(), 3);
    assert_eq!(loaded.reminders[2].text, "reminder 2");
}

#[test]
fn a_missing_file_holds_no_reminders() {
    assert!(read_file("").reminders.is_empty());
}

#[test]
fn a_damaged_line_does_not_lose_the_readable_ones() {
    let loaded = read_file("not a reminder\n1800000000\tkept\n");
    assert_eq!(loaded.reminders.len(), 1);
    assert_eq!(loaded.reminders[0].text, "kept");
    assert_eq!(loaded.unreadable, vec![1]);
}

#[test]
fn a_line_is_the_due_instant_a_tab_and_the_escaped_text() {
    assert_eq!(encode(&reminder(42, "a\\b\nc\rd\te")), "42\ta\\\\b\\nc\\rd\\te");
    assert_eq!(encode(&reminder(0, "")), "0\t");
}

#[test]
fn a_read_back_reminder_is_pending_and_never_snoozed() {
    let mut snoozed = reminder(7, "tea");
    snoozed.state = State::Done;
    snoozed.snoozes = 4;
    let read = decode(&encode(&snoozed)).expect("should read back");
    assert_eq!(read.due_unix, 7);
    assert!(read.state == State::Pending);
    assert_eq!(read.snoozes, 0);
    assert_eq!(read.text, "tea");
}

#[test]
fn damaged_lines_are_refused() {
    assert!(decode("no tab here").is_none());
    assert!(decode("12x\ttext").is_none());
    assert!(decode("12\ttrailing backslash \\").is_none());
    assert!(decode("12\tunknown \\q escape").is_none());
    assert!(decode("+12\tplus sign").map(|r| r.due_unix) == Some(12));
}

#[test]
fn crlf_line_endings_and_blank_lines_are_tolerated() {
    let loaded = read_file("1\tone\r\n\r\n\n2\ttwo");
    assert_eq!(loaded.reminders.len(), 2);
    assert_eq!(loaded.reminders[0].text, "one");
    assert_eq!(loaded.reminders[1].text, "two");
    assert!(loaded.unreadable.is_empty());
}

#[test]
fn appending_keeps_what_was_already_stored() {
    let mut contents = String::new();
    let mut expected = Vec::new();
    for (due, text) in [(5u64, "first"), (3, "second\nline"), (9, "third\\")] {
        contents.push_str(&encode(&reminder(due, text)));
        contents.push('\n');
        expected.push((due, text.to_string()));
        let loaded = read_file(&contents);
        let got: Vec<(u64, String)> = loaded.reminders.iter().map(|r| (r.due_unix, r.text.clone())).collect();
        assert_eq!(got, expected);
        assert!(loaded.unreadable.is_empty());
    }
}

#[test]
fn a_file_written_afresh_reads_back_its_pending_reminders() {
    let mut done = reminder(2, "already done");
    done.state = State::Done;
    let mut snoozed = reminder(3, "snoozed\ttwice");
    snoozed.snoozes = 2;
    let reminders = vec![reminder(1, "first"), done, snoozed];

    let contents = contents_of(&reminders);
    assert_eq!(contents, "1\tfirst\n3\tsnoozed\\ttwice\n");
    let loaded = read_file(&contents);
    assert_eq!(loaded.reminders.len(), 2);
    assert_eq!(loaded.reminders[0].text, "first");
    assert_eq!(loaded.reminders[1].due_unix, 3);
    assert_eq!(loaded.reminders[1].text, "snoozed\ttwice");
    assert_eq!(loaded.reminders[1].snoozes, 0);
    assert!(contents_of(&Vec::new()).is_empty());
}
