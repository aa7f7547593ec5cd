use reminderski::dashboard::{act, escape, list, method_and_target, route};
use reminderski::reminder::{now_unix, Reminder, State};

fn reminders_with(texts: &[&str]) -> Vec<Reminder> {
    texts
        .iter()
        .map(|text| Reminder::due_in(600, (*text).to_string()))
        .collect()
}

#[test]
fn lists_every_reminder_with_its_index() {
    let reminders = reminders_with(&["water the plants", "call the dentist"]);
    let json = list(&reminders);

    assert!(json.starts_with('['));
    assert!(json.contains("\"index\":0"));
    assert!(json.contains("\"text\":\"water the plants\""));
    assert!(json.contains("\"index\":1"));
    assert!(json.contains("\"done\":false"));
}

#[test]
fn escapes_text_that_would_break_the_json() {
    let reminders = reminders_with(&["say \"hello\"\nand \\ goodbye"]);
    let json = list(&reminders);

    assert!(json.contains(r#"say \"hello\"\nand \\ goodbye"#));
}

#[test]
fn marking_done_changes_the_reminder() {
    let mut reminders = reminders_with(&["water the plants"]);
    assert!(act("/reminders/0/done", &mut reminders, now_unix()).is_some());
    assert!(reminders[0].state == State::Done);
}

#[test]
fn snoozing_moves_it_and_counts() {
    let mut reminders = reminders_with(&["water the plants"]);
    assert!(act("/reminders/0/snooze/30", &mut reminders, now_unix()).is_some());

    let reminder = &reminders[0];
    let due_in = reminder.due_unix - now_unix();
    assert!((1799..=1801).contains(&due_in), "due in {due_in}s");
    assert_eq!(reminder.snoozes, 1);
}

#[test]
fn refuses_anything_it_does_not_recognise() {
    let mut reminders = reminders_with(&["water the plants"]);
    let now = now_unix();
    assert!(act("/reminders/0/explode", &mut reminders, now).is_none());
    assert!(act("/reminders/9/done", &mut reminders, now).is_none());
    assert!(act("/nonsense", &mut reminders, now).is_none());
    assert!(act("/reminders/0/snooze", &mut reminders, now).is_none());
}

#[test]
fn the_list_is_exactly_the_json_the_page_reads() {
    let reminders = vec![
        Reminder {
            due_unix: 1_800_000_000,
            state: State::Done,
            snoozes: 2,
            text: "tea\u{1}".to_string(),
        },
        Reminder {
            due_unix: 5,
            state: State::Pending,
            snoozes: 0,
            text: String::new(),
        },
    ];
    assert_eq!(
        list(&reminders),
        "[{\"index\":0,\"due\":1800000000,\"snoozes\":2,\"done\":true,\"text\":\"tea\\u0001\"},\
         {\"index\":1,\"due\":5,\"snoozes\":0,\"done\":false,\"text\":\"\"}]"
    );
    assert_eq!(list(&Vec::new()), "[]");
}

#[test]
fn control_characters_are_written_by_number() {
    assert_eq!(escape("\u{1f}\t\r"), "\\u001f\\t\\r");
}

#[test]
fn a_done_reminder_can_be_made_pending_again() {
    let mut reminders = reminders_with(&["tea"]);
    act("/reminders/0/done", &mut reminders, 0);
    assert_eq!(act("/reminders/0/pending", &mut reminders, 0).as_deref(), Some("{\"ok\":true}"));
    assert!(reminders[0].state == State::Pending);
}

#[test]
fn a_snooze_is_counted_from_the_given_time() {
    let mut reminders = reminders_with(&["tea"]);
    act("///reminders/0/snooze/+2/ignored", &mut reminders, 1000);
    assert_eq!(reminders[0].due_unix, 1120);
    assert_eq!(reminders[0].snoozes, 1);
}

#[test]
fn requests_are_routed_by_method_and_target() {
    let mut reminders = reminders_with(&["tea"]);
    let (page, changed) = route("GET", "/", "<html>", &mut reminders, 0);
    assert_eq!(page.body, "<html>");
    assert_eq!(page.status, "200 OK");
    assert!(!changed);
    let (listed, _) = route("GET", "/reminders", "<html>", &mut reminders, 0);
    assert_eq!(listed.kind, "application/json; charset=utf-8");
    let (done, changed) = route("POST", "/reminders/0/done", "<html>", &mut reminders, 0);
    assert_eq!(done.body, "{\"ok\":true}");
    assert!(changed);
    let (missing, changed) = route("DELETE", "/reminders/0", "<html>", &mut reminders, 0);
    assert_eq!(missing.status, "404 Not Found");
    assert!(!changed);
}

#[test]
fn the_request_line_gives_method_and_target() {
    assert_eq!(
        method_and_target("GET /reminders HTTP/1.1\r\n"),
        Some(("GET".to_string(), "/reminders".to_string()))
    );
    assert_eq!(method_and_target("  GET  "), None);
}

#[test]
fn escaped_text_never_ends_its_json_string_early() {
    let escaped = escape("a \"quoted\" \\ path\u{0}\u{1b} and \u{7f}");
    assert!(escaped.chars().all(|c| c as u32 >= 0x20));
    let characters: Vec<char> = escaped.chars().collect();
    for (index, c) in characters.iter().enumerate() {
        if *c == '"' {
            assert!(index > 0 && characters[index - 1] == '\\');
        }
    }
    assert_eq!(escaped, "a \\\"quoted\\\" \\\\ path\\u0000\\u001b and \u{7f}");
}

#[test]
fn marking_done_can_be_taken_back() {
    let mut reminders = vec![Reminder { due_unix: 42, state: State::Pending, snoozes: 3, text: "tea".to_string() }];
    assert!(act("/reminders/0/done", &mut reminders, 100).is_some());
    assert!(reminders[0].state == State::Done);
    assert!(act("/reminders/0/pending", &mut reminders, 200).is_some());
    assert!(reminders[0].state == State::Pending);
    assert_eq!(reminders[0].due_unix, 42);
    assert_eq!(reminders[0].snoozes, 3);
    assert_eq!(reminders[0].text, "tea");
}

#[test]
fn a_refused_request_is_answered_not_found_in_plain_text() {
    let mut reminders = vec![Reminder { due_unix: 1, state: State::Pending, snoozes: 0, text: "tea".to_string() }];
    for (method, target) in [("POST", "/reminders/5/done"), ("POST", "/nonsense"), ("DELETE", "/"), ("GET", "/other")] {
        let (answer, changed) = route(method, target, "<page>", &mut reminders, 100);
        assert!(!changed);
        assert_eq!(answer.status, "404 Not Found");
        assert_eq!(answer.kind, "text/plain; charset=utf-8");
        assert_eq!(answer.body, "no such thing here\n");
    }
    let (answer, changed) = route("POST", "/reminders/0/done", "<page>", &mut reminders, 100);
    assert!(changed);
    assert_eq!(answer.kind, "application/json; charset=utf-8");
    assert_eq!(answer.body, "{\"ok\":true}");
}

#[test]
fn any_index_and_minute_count_can_be_snoozed() {
    let mut reminders: Vec<Reminder> = (0..12)
        .map(|i| Reminder { due_unix: i, state: State::Done, snoozes: 7, text: format!("r{i}") })
        .collect();
    for (index, minutes) in [(0usize, 0u64), (11, 1), (10, 525_600), (3, 307_445_734_561_825_000)] {
        let target = format!("/reminders/{index}/snooze/{minutes}");
        assert_eq!(act(&target, &mut reminders, 1000), Some("{\"ok\":true}".to_string()));
        assert_eq!(reminders[index].due_unix, 1000 + 60 * minutes);
        assert!(reminders[index].state == State::Pending);
        assert_eq!(reminders[index].snoozes, 8);
    }
}
