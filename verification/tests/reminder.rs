use reminderski::reminder::{describe_due, now_unix, parse_when_at, Reminder, State};

/// 10:00 on a Wednesday, the reference "now" for the absolute cases. Midweek, so that a day
/// name can be tested in both directions.
const TEN: u32 = 10 * 3600;
const WEDNESDAY: u16 = 3;

fn seconds(input: &str) -> Option<u64> {
    parse_when_at(input, TEN, WEDNESDAY)
}

#[test]
fn reads_the_headline_expression() {
    assert_eq!(seconds("in 40m"), Some(40 * 60));
}

#[test]
fn the_leading_in_and_the_spacing_are_optional() {
    assert_eq!(seconds("40m"), Some(40 * 60));
    assert_eq!(seconds("  IN   40 minutes "), Some(40 * 60));
}

#[test]
fn adds_up_repeated_units() {
    assert_eq!(seconds("in 1h30m"), Some(90 * 60));
    assert_eq!(seconds("2 days 3 hours"), Some(2 * 86400 + 3 * 3600));
}

#[test]
fn accepts_every_unit_spelling() {
    assert_eq!(seconds("90s"), Some(90));
    assert_eq!(seconds("2hrs"), Some(2 * 3600));
    assert_eq!(seconds("3 days"), Some(3 * 86400));
}

#[test]
fn reads_a_clock_time_later_today() {
    assert_eq!(seconds("at 15:00"), Some(5 * 3600));
    assert_eq!(seconds("at 15"), Some(5 * 3600));
    assert_eq!(seconds("AT 3PM"), Some(5 * 3600));
    assert_eq!(seconds("at 3:30 pm"), Some(5 * 3600 + 30 * 60));
}

#[test]
fn a_clock_time_already_past_means_tomorrow() {
    assert_eq!(seconds("at 9:00"), Some(23 * 3600));
    assert_eq!(seconds("at 10:00"), Some(24 * 3600));
}

#[test]
fn midnight_and_noon_are_both_written_twelve() {
    assert_eq!(seconds("at 12am"), Some(14 * 3600));
    assert_eq!(seconds("at 12pm"), Some(2 * 3600));
}

#[test]
fn tomorrow_defaults_to_the_morning() {
    assert_eq!(seconds("tomorrow"), Some(23 * 3600));
    assert_eq!(seconds("tomorrow at 9:30"), Some(23 * 3600 + 30 * 60));
    assert_eq!(seconds("tomorrow 15:00"), Some(29 * 3600));
}

#[test]
fn today_stays_on_the_same_day_unless_it_has_passed() {
    assert_eq!(seconds("today at 15:00"), Some(5 * 3600));
    assert_eq!(seconds("today at 9:00"), Some(23 * 3600));
}

/// From Wednesday: Friday is two days off, Tuesday is six, because a day name always looks
/// forward. A bare one means the morning, as `tomorrow` does.
#[test]
fn a_day_name_means_the_next_one_to_come_round() {
    assert_eq!(seconds("friday"), Some(2 * 86400 - 3600));
    assert_eq!(seconds("tuesday"), Some(6 * 86400 - 3600));
    assert_eq!(seconds("friday at 15:00"), Some(2 * 86400 + 5 * 3600));
    assert_eq!(seconds("friday 15:00"), Some(2 * 86400 + 5 * 3600));
}

#[test]
fn a_day_name_may_be_written_short() {
    assert_eq!(seconds("fri"), seconds("friday"));
    assert_eq!(seconds("TUES"), seconds("tuesday"));
    assert_eq!(seconds("sun"), seconds("sunday"));
}

/// Today's own name is today while the time is still ahead, and a week off once it is not,
/// which is the rule a bare clock time already follows.
#[test]
fn todays_name_stays_today_until_the_time_has_passed() {
    assert_eq!(seconds("wednesday at 15:00"), Some(5 * 3600));
    assert_eq!(seconds("wednesday at 9:00"), Some(7 * 86400 - 3600));
    assert_eq!(seconds("wednesday"), Some(7 * 86400 - 3600));
}

/// `next` rules today out. It does not push the reminder a further week, so from Wednesday
/// `next friday` is the same Friday as `friday`.
#[test]
fn next_only_rules_out_today() {
    assert_eq!(
        seconds("next wednesday at 15:00"),
        Some(7 * 86400 + 5 * 3600)
    );
    assert_eq!(seconds("next friday"), seconds("friday"));
    assert_eq!(seconds("next tuesday"), Some(6 * 86400 - 3600));
}

#[test]
fn rejects_what_it_cannot_schedule() {
    assert_eq!(seconds(""), None);
    assert_eq!(seconds("in"), None);
    assert_eq!(seconds("40"), None);
    assert_eq!(seconds("in40m"), None);
    assert_eq!(seconds("40x"), None);
    assert_eq!(seconds("at"), None);
    assert_eq!(seconds("next"), None);
    assert_eq!(seconds("next someday"), None);
    assert_eq!(seconds("fridayish"), None);
    assert_eq!(seconds("friday at 25:00"), None);
    assert_eq!(seconds("at 25:00"), None);
    assert_eq!(seconds("at 12:60"), None);
    assert_eq!(seconds("at 13pm"), None);
    assert_eq!(seconds("tomorrowish"), None);
}

#[test]
fn rejects_a_delay_too_large_to_represent() {
    assert_eq!(seconds("99999999999999999999d"), None);
    assert_eq!(seconds("1000000000000000d"), None);
}

#[test]
fn due_in_is_the_delay_from_now() {
    let now = now_unix();
    let reminder = Reminder::due_in(600, "tea".to_string());
    assert!(reminder.due_unix >= now + 600 && reminder.due_unix <= now + 602);
    assert!(!reminder.is_due(now));
    assert!(reminder.is_due(now + 600));
}

#[test]
fn a_finished_reminder_never_comes_due_again() {
    let mut reminder = Reminder::due_in(0, "tea".to_string());
    assert!(reminder.is_due(now_unix()));
    reminder.state = State::Done;
    assert!(!reminder.is_due(now_unix()));
}

#[test]
fn a_clock_time_may_carry_a_plus_sign_as_numbers_may() {
    assert_eq!(seconds("at +3pm"), Some(5 * 3600));
}

#[test]
fn other_whitespace_is_trimmed_too() {
    assert_eq!(seconds("\tin 5m\u{3000}"), Some(300));
    assert_eq!(seconds("in 5\tm"), None);
}

#[test]
fn an_amount_may_have_leading_zeros_and_spaces_before_its_unit() {
    assert_eq!(seconds("007 m"), Some(420));
    assert_eq!(seconds("1 h  30 m  "), Some(5400));
}

#[test]
fn the_largest_representable_delay_is_accepted() {
    assert_eq!(seconds("18446744073709551615s"), Some(u64::MAX));
    assert_eq!(seconds("18446744073709551615s 1s"), None);
}

#[test]
fn a_day_word_followed_by_nonsense_is_refused() {
    assert_eq!(seconds("today at noon"), None);
    assert_eq!(seconds("next   friday"), seconds("friday"));
    assert_eq!(seconds("saturday attack"), None);
}

#[test]
fn due_at_holds_at_the_largest_instant() {
    let reminder = Reminder::due_at(u64::MAX - 5, 600, "tea".to_string());
    assert_eq!(reminder.due_unix, u64::MAX);
    let reminder = Reminder::due_at(1000, 600, "tea".to_string());
    assert_eq!(reminder.due_unix, 1600);
    assert_eq!(reminder.snoozes, 0);
    assert!(reminder.state == State::Pending);
}

#[test]
fn an_expression_means_the_same_in_any_case() {
    for (upper, lower) in [("FRIDAY AT 3PM", "friday at 3pm"), ("In 40M", "in 40m"), ("ToMoRrOw", "tomorrow")] {
        assert_eq!(seconds(upper), seconds(lower));
    }
}

#[test]
fn a_bare_tomorrow_is_nine_in_the_morning_whenever_it_is_asked() {
    for now in [0, 9 * 3600, 23 * 3600 + 59 * 60] {
        assert_eq!(parse_when_at("tomorrow", now, WEDNESDAY), Some((86400 + 9 * 3600 - now) as u64));
    }
}

#[test]
fn a_clock_time_is_never_more_than_a_day_away() {
    assert_eq!(parse_when_at("at 10:00", TEN, WEDNESDAY), Some(86400));
    assert_eq!(parse_when_at("at 10:01", TEN, WEDNESDAY), Some(60));
    assert_eq!(parse_when_at("at 9:59", TEN, WEDNESDAY), Some(86400 - 60));
}

#[test]
fn next_moves_only_what_would_have_come_today() {
    // From Wednesday 10:00: later today, earlier today, and another day.
    assert_eq!(seconds("next wednesday at 11"), seconds("wednesday at 11").map(|d| d + 7 * 86400));
    assert_eq!(seconds("next wednesday at 9"), seconds("wednesday at 9"));
    assert_eq!(seconds("next thursday"), seconds("thursday"));
    assert_eq!(seconds("next sunday at 3pm"), seconds("sunday at 3pm"));
}

#[test]
fn a_day_name_lands_on_that_day_at_its_time() {
    // Saturday at 15:00, from Wednesday 10:00: three days on, five hours later in the day.
    let delay = seconds("saturday at 15:00").unwrap();
    let moment = TEN as u64 + delay;
    assert_eq!(moment % 86400, 15 * 3600);
    assert_eq!((WEDNESDAY as u64 + moment / 86400) % 7, 6);
}

#[test]
fn in_may_be_put_in_front_of_any_delay() {
    for delay in ["40m", "1h 30m", "2 days 3 hours", "0s"] {
        assert_eq!(seconds(&format!("in {delay}")), seconds(delay));
    }
}

#[test]
fn a_delay_is_put_in_whole_minutes_rounded_up() {
    assert_eq!(describe_due(40 * 60), "in 40 min");
    assert_eq!(describe_due(61), "in 2 min");
    assert_eq!(describe_due(0), "in 0 min");
    assert_eq!(describe_due(2 * 3600), "in 2 h");
    assert_eq!(describe_due(90 * 60), "in 1 h 30 min");
    assert_eq!(describe_due(26 * 3600 + 1), "in 26 h 1 min");
}

#[test]
fn groups_written_one_after_another_add_up() {
    assert_eq!(seconds("1h 1h"), Some(2 * 3600));
    assert_eq!(seconds("10m5m"), Some(15 * 60));
    assert_eq!(seconds("1h30m"), Some(seconds("1h").unwrap() + seconds("30m").unwrap()));
    assert_eq!(seconds("1h 30x"), None);
}

#[test]
fn spaced_and_unspaced_delays_add_up_alike() {
    for (a, b) in [("1h", "30m"), ("2 days", "3 hours"), ("90s", "1m")] {
        let sum = seconds(a).unwrap() + seconds(b).unwrap();
        assert_eq!(seconds(&format!("{a}{b}")), Some(sum));
        assert_eq!(seconds(&format!("{a} {b}")), Some(sum));
        assert_eq!(seconds(&format!("in {a}")), seconds(a));
    }
}
