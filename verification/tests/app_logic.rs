use reminderski::autostart::{follow_the_executable, quoted};
use reminderski::capture::capture_selection;
use reminderski::form::{answer, height, label_height, Answer};
use reminderski::notify::{chosen_outcome, eyebrow, first_snooze, Outcome, DONE};
use reminderski::reminder::{Reminder, State};
use reminderski::schedule::{
    apply_outcome, due_to_show, free_slot, nearest_notification, wait_milliseconds, INFINITE,
    LONGEST_WAIT,
};
use reminderski::ui::{scale, wide};

fn pending(due_unix: u64) -> Reminder {
    Reminder {
        due_unix,
        state: State::Pending,
        snoozes: 0,
        text: "tea".to_string(),
    }
}

#[test]
fn a_path_is_quoted_whole() {
    assert_eq!(
        quoted(r"C:\Program Files\Reminderski\reminderski.exe"),
        "\"C:\\Program Files\\Reminderski\\reminderski.exe\""
    );
}

#[test]
fn the_startup_entry_follows_a_moved_executable_but_not_a_recased_one() {
    assert!(follow_the_executable(Some("\"C:\\old\\r.exe\""), Some("\"C:\\new\\r.exe\"")));
    assert!(!follow_the_executable(Some("\"C:\\OLD\\R.exe\""), Some("\"c:\\old\\r.EXE\"")));
    assert!(!follow_the_executable(None, Some("\"C:\\new\\r.exe\"")));
    assert!(!follow_the_executable(Some("\"C:\\old\\r.exe\""), None));
}

#[test]
fn an_empty_or_uncopied_selection_captures_nothing() {
    assert_eq!(capture_selection(true, Some("words".to_string())).as_deref(), Some("words"));
    assert_eq!(capture_selection(true, Some(String::new())), None);
    assert_eq!(capture_selection(false, Some("stale".to_string())), None);
    assert_eq!(capture_selection(true, None), None);
}

#[test]
fn the_loop_sleeps_until_the_next_waiting_reminder_but_never_long() {
    let now = 1000;
    assert_eq!(wait_milliseconds(&Vec::new(), &Vec::new(), now), INFINITE);
    assert_eq!(wait_milliseconds(&vec![pending(1005)], &Vec::new(), now), 5000);
    assert_eq!(wait_milliseconds(&vec![pending(5000)], &Vec::new(), now), LONGEST_WAIT);
    assert_eq!(wait_milliseconds(&vec![pending(999)], &Vec::new(), now), 0);
    assert_eq!(wait_milliseconds(&vec![pending(999)], &vec![0], now), INFINITE);
    let mut done = pending(999);
    done.state = State::Done;
    assert_eq!(wait_milliseconds(&vec![done, pending(1010)], &Vec::new(), now), 10000);
    assert_eq!(wait_milliseconds(&vec![pending(u64::MAX)], &Vec::new(), 0), LONGEST_WAIT);
}

#[test]
fn only_due_reminders_not_on_screen_are_shown() {
    let mut done = pending(10);
    done.state = State::Done;
    let reminders = vec![pending(10), done, pending(20), pending(30), pending(5)];
    assert_eq!(due_to_show(&reminders, &vec![4], 20), vec![0, 2]);
}

#[test]
fn a_new_notification_takes_the_lowest_free_slot() {
    assert_eq!(free_slot(&Vec::new()), 0);
    assert_eq!(free_slot(&vec![0, 1, 3]), 2);
    assert_eq!(free_slot(&vec![2, 1, 0]), 3);
}

#[test]
fn the_answer_shortcut_reaches_the_lowest_notification() {
    assert_eq!(nearest_notification(&Vec::new()), None);
    assert_eq!(nearest_notification(&vec![2, 0, 1]), Some(1));
}

#[test]
fn an_answer_completes_or_pushes_back_the_reminder() {
    let mut reminder = pending(10);
    apply_outcome(&mut reminder, Outcome::Later(600), 1000);
    assert_eq!(reminder.due_unix, 1600);
    assert_eq!(reminder.snoozes, 1);
    assert!(reminder.state == State::Pending);
    apply_outcome(&mut reminder, Outcome::Done, 2000);
    assert!(reminder.state == State::Done);
    assert_eq!(reminder.due_unix, 1600);
}

#[test]
fn the_notification_buttons_mean_what_they_say() {
    let ten = 10 * 3600;
    assert!(chosen_outcome(DONE, ten, 3, first_snooze()) == Outcome::Done);
    assert!(chosen_outcome(0, ten, 3, first_snooze()) == Outcome::Later(1800));
    assert!(chosen_outcome(1, ten, 3, first_snooze()) == Outcome::Later(7200));
    assert!(chosen_outcome(2, ten, 3, first_snooze()) == Outcome::Later(23 * 3600));
    assert!(first_snooze() == Outcome::Later(1800));
}

#[test]
fn the_eyebrow_counts_the_snoozes() {
    assert_eq!(eyebrow(0), "EXCUSE ME... BUT:");
    assert_eq!(eyebrow(9), "EXCUSE ME... BUT: (snoozed 9x)");
}

#[test]
fn the_form_refuses_an_empty_reminder_or_an_unreadable_time() {
    let ten = 10 * 3600;
    assert!(matches!(answer(4, "tea".to_string(), "", ten, 3), Answer::Cancelled));
    assert!(matches!(answer(3, "  \n".to_string(), "in 5m", ten, 3), Answer::Rejected));
    assert!(matches!(answer(3, "tea".to_string(), "whenever", ten, 3), Answer::Rejected));
    match answer(3, "tea".to_string(), "in 5m", ten, 3) {
        Answer::Accepted(entry) => {
            assert_eq!(entry.text, "tea");
            assert_eq!(entry.delay, 300);
        }
        _ => panic!("should have been accepted"),
    }
    match answer(0, "tea".to_string(), "ignored", ten, 3) {
        Answer::Accepted(entry) => assert_eq!(entry.delay, 600),
        _ => panic!("should have been accepted"),
    }
    match answer(2, "tea".to_string(), "", ten, 3) {
        Answer::Accepted(entry) => assert_eq!(entry.delay, 23 * 3600),
        _ => panic!("should have been accepted"),
    }
}

#[test]
fn the_design_scales_with_the_monitor() {
    assert_eq!(scale(540, 96), 540);
    assert_eq!(scale(540, 144), 810);
    assert_eq!(scale(11, 120), 13);
    assert_eq!(scale(-11, 120), -13);
    assert_eq!(label_height(96), 16);
    assert_eq!(height(96), 34 + 48 + 48 + 40 + 76 + 38 + 40 + 17 + 38 + 60);
}

#[test]
fn wide_strings_are_utf16_and_terminated() {
    assert_eq!(wide("Ab"), vec![0x41, 0x62, 0]);
    assert_eq!(wide("🎉"), vec![0xD83C, 0xDF89, 0]);
    assert_eq!(wide(""), vec![0]);
    let text = "Zażółć 🎉";
    let mut expected: Vec<u16> = text.encode_utf16().collect();
    expected.push(0);
    assert_eq!(wide(text), expected);
}

#[test]
fn a_dismissed_reminder_comes_back_in_half_an_hour() {
    let mut reminder = pending(10);
    apply_outcome(&mut reminder, first_snooze(), 5000);
    assert!(reminder.state == State::Pending);
    assert_eq!(reminder.due_unix, 5000 + 1800);
    assert_eq!(reminder.text, "tea");
    let mut late = pending(10);
    apply_outcome(&mut late, first_snooze(), u64::MAX - 10);
    assert_eq!(late.due_unix, u64::MAX);
}

#[test]
fn the_free_slot_is_never_beyond_the_number_open() {
    for slots in [vec![], vec![0, 2], vec![1], vec![0, 1, 2, 3], vec![5, 9, 7]] {
        let slot = free_slot(&slots);
        assert!(slot <= slots.len());
        assert!(!slots.contains(&slot));
        assert!((0..slot).all(|lower| slots.contains(&lower)));
    }
}
