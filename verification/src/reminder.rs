//! A reminder, and the Slack-style time expressions that schedule one.
//!
//! Relative: `in 40m`, `2h`, `1h30m`, `3 days`. The leading `in` is optional and units may
//! repeat.
//!
//! Absolute: `at 15:00`, `at 3pm`, `at 9`, `tomorrow`, `tomorrow at 9:30`. A clock time that has
//! already passed today means tomorrow, and a bare `tomorrow` means 09:00.
//!
//! By day name: `friday`, `fri`, `friday at 15:00`, `next tuesday`. A day name means the next
//! one to come round, which is today only when the time has not yet passed. Writing `next` in
//! front of it rules today out and changes nothing else.
//!
//! Delays are whole seconds. Absolute times are resolved against the local clock as a plain
//! offset from now, so a reminder that crosses a daylight-saving change arrives an hour off.

use vstd::prelude::*;

use crate::text::{
    all_digits, begins_with, count_leading, in_class, decimal, decimal_u64, is_digit, leading, lemma_leading,
    lemma_trailing, lowered,
    parsed_u32, parse_u32, same_chars, split_at_first, split_once, strip_prefix, strip_suffix,
    to_ascii_lowercase, trim, trim_end, trim_start, trimmed, trimmed_end, trimmed_start,
    finishes_with, chars_of, decimal_chars, decimal_digits, push_all, push_str, string_of, CharClass,
};

verus! {

/// Where `tomorrow` lands when no clock time is given, matching Slack.
pub const DEFAULT_MORNING: u32 = 32400;

/// Seconds in a day.
pub const DAY: u32 = 86400;

#[derive(Clone, Copy, PartialEq, Eq, Structural, Debug)]
pub enum State {
    Pending,
    Done,
}

pub struct Reminder {
    /// Seconds since the Unix epoch. Stored as an instant rather than a delay so that a
    /// reminder written before a restart still comes due at the time the user asked for.
    pub due_unix: u64,
    pub state: State,
    /// How many times it has been pushed back. The character has opinions about this.
    pub snoozes: u32,
    pub text: String,
}

impl View for Reminder {
    /// Due instant, state, snooze count and text.
    type V = (u64, State, u32, Seq<char>);

    open spec fn view(&self) -> (u64, State, u32, Seq<char>) {
        (self.due_unix, self.state, self.snoozes, self.text@)
    }
}

/// What a list of reminders holds, reminder by reminder.
pub open spec fn views(reminders: Seq<Reminder>) -> Seq<(u64, State, u32, Seq<char>)> {
    reminders.map_values(|r: Reminder| r@)
}

/// Seconds since the Unix epoch by the system clock, or 0 for a clock set before it.
///
/// Calls `SystemTime::now` and `SystemTime::duration_since`. Nothing is claimed of the value: it
/// is whatever the clock says.
#[verifier::external_body]
pub fn now_unix() -> u64 {
    std::time::SystemTime::now().duration_since(std::time::UNIX_EPOCH).unwrap_or_default().as_secs()
}

/// `now + delay`, held at the largest instant there is rather than wrapping past it.
pub open spec fn due_after(now: u64, delay: u64) -> u64 {
    if now + delay <= u64::MAX {
        (now + delay) as u64
    } else {
        u64::MAX
    }
}

impl Reminder {
    /// A pending, never snoozed reminder due `delay` seconds after `now`.
    pub fn due_at(now: u64, delay: u64, text: String) -> (r: Self)
        ensures
            r.due_unix == due_after(now, delay),
            r.state == State::Pending,
            r.snoozes == 0,
            r.text@ == text@,
    {
        Self { due_unix: now.saturating_add(delay), state: State::Pending, snoozes: 0, text }
    }

    /// A pending, never snoozed reminder due `delay` seconds from the clock's present reading.
    pub fn due_in(delay: u64, text: String) -> (r: Self)
        ensures
            r.due_unix >= delay,
            r.state == State::Pending,
            r.snoozes == 0,
            r.text@ == text@,
    {
        Self::due_at(now_unix(), delay, text)
    }

    pub fn is_due(&self, now: u64) -> (due: bool)
        ensures
            due == (self.state == State::Pending && self.due_unix <= now),
    {
        self.state == State::Pending && self.due_unix <= now
    }
}

/// A delay in whole minutes, a part of a minute counting as one.
pub open spec fn minutes_of(delay: u64) -> nat {
    if delay % 60 == 0 {
        (delay / 60) as nat
    } else {
        (delay / 60 + 1) as nat
    }
}

/// How a delay is put to somebody who has just set a reminder: `in 40 min`, `in 2 h` or
/// `in 1 h 30 min`, in whole minutes rounded up.
pub open spec fn due_phrase(delay: u64) -> Seq<char> {
    let minutes = minutes_of(delay);
    if minutes < 60 {
        "in "@ + decimal_digits(minutes) + " min"@
    } else {
        "in "@ + decimal_digits(minutes / 60) + " h"@ + if minutes % 60 == 0 {
            Seq::empty()
        } else {
            " "@ + decimal_digits(minutes % 60) + " min"@
        }
    }
}

/// Says when a reminder set `delay` seconds from now will come, for the message that confirms
/// it was set.
pub fn describe_due(delay: u64) -> (phrase: String)
    ensures
        phrase@ == due_phrase(delay),
{
    let minutes: u64 = if delay % 60 == 0 {
        delay / 60
    } else {
        delay / 60 + 1
    };
    let mut out: Vec<char> = Vec::new();
    push_str(&mut out, "in ");
    if minutes < 60 {
        push_all(&mut out, decimal_chars(minutes).as_slice());
        push_str(&mut out, " min");
    } else {
        push_all(&mut out, decimal_chars(minutes / 60).as_slice());
        push_str(&mut out, " h");
        if minutes % 60 != 0 {
            push_str(&mut out, " ");
            push_all(&mut out, decimal_chars(minutes % 60).as_slice());
            push_str(&mut out, " min");
        }
    }
    string_of(out.as_slice())
}

/// A finished reminder never comes due again, whatever the clock says.
pub proof fn lemma_done_is_never_due(r: Reminder, now: u64)
    requires
        r.state == State::Done,
    ensures
        !(r.state == State::Pending && r.due_unix <= now),
{
}

// The words the expressions are made of.
pub open spec fn word_tomorrow() -> Seq<char> {
    seq!['t', 'o', 'm', 'o', 'r', 'r', 'o', 'w']
}

pub open spec fn word_today() -> Seq<char> {
    seq!['t', 'o', 'd', 'a', 'y']
}

pub open spec fn word_next() -> Seq<char> {
    seq!['n', 'e', 'x', 't', ' ']
}

pub open spec fn word_at() -> Seq<char> {
    seq!['a', 't']
}

pub open spec fn word_at_space() -> Seq<char> {
    seq!['a', 't', ' ']
}

pub open spec fn word_in() -> Seq<char> {
    seq!['i', 'n', ' ']
}

pub open spec fn word_pm() -> Seq<char> {
    seq!['p', 'm']
}

pub open spec fn word_am() -> Seq<char> {
    seq!['a', 'm']
}

/// How long from `now` until `target`, rolling over to the next day when the time has passed
/// or when the next day was asked for.
pub open spec fn delay_to(target: int, now: int, next_day: bool) -> int {
    let seconds = target - now;
    if next_day || seconds <= 0 {
        seconds + DAY
    } else {
        seconds
    }
}

/// How long from `now` until `clock` on the next `wanted` weekday. Today counts when the time
/// has not yet passed and `not_today` is not set; otherwise today's own name is a week away.
pub open spec fn delay_to_weekday(wanted: int, clock: int, today: int, now: int, not_today: bool) -> int {
    let ahead = (wanted + 7 - today) % 7;
    let days = if ahead == 0 && (not_today || clock <= now) {
        7
    } else {
        ahead
    };
    days * DAY + clock - now
}

/// Sunday is 0, matching the weekday Windows reports.
pub open spec fn weekday_of(word: Seq<char>) -> Option<int> {
    if word == seq!['s', 'u', 'n', 'd', 'a', 'y'] || word == seq!['s', 'u', 'n'] {
        Some(0)
    } else if word == seq!['m', 'o', 'n', 'd', 'a', 'y'] || word == seq!['m', 'o', 'n'] {
        Some(1)
    } else if word == seq!['t', 'u', 'e', 's', 'd', 'a', 'y'] || word == seq!['t', 'u', 'e'] || word
        == seq!['t', 'u', 'e', 's'] {
        Some(2)
    } else if word == seq!['w', 'e', 'd', 'n', 'e', 's', 'd', 'a', 'y'] || word == seq!['w', 'e', 'd'] {
        Some(3)
    } else if word == seq!['t', 'h', 'u', 'r', 's', 'd', 'a', 'y'] || word == seq!['t', 'h', 'u'] || word
        == seq!['t', 'h', 'u', 'r'] || word == seq!['t', 'h', 'u', 'r', 's'] {
        Some(4)
    } else if word == seq!['f', 'r', 'i', 'd', 'a', 'y'] || word == seq!['f', 'r', 'i'] {
        Some(5)
    } else if word == seq!['s', 'a', 't', 'u', 'r', 'd', 'a', 'y'] || word == seq!['s', 'a', 't'] {
        Some(6)
    } else {
        None
    }
}

/// The first word and what follows the space after it.
pub open spec fn first_word(text: Seq<char>) -> (Seq<char>, Seq<char>) {
    match split_at_first(text, ' ') {
        Some((word, rest)) => (word, rest),
        None => (text, Seq::empty()),
    }
}

/// Seconds since midnight for `15:00`, `3pm`, `3:30 pm` or `9`.
pub open spec fn clock_of(text: Seq<char>) -> Option<int> {
    let (digits, afternoon) = if finishes_with(text, word_pm()) {
        (trimmed_end(text.take(text.len() - 2)), Some(true))
    } else if finishes_with(text, word_am()) {
        (trimmed_end(text.take(text.len() - 2)), Some(false))
    } else {
        (text, None)
    };
    let (hours, minutes) = match split_at_first(digits, ':') {
        Some((h, m)) => (trimmed(h), trimmed(m)),
        None => (trimmed(digits), seq!['0']),
    };
    match (parsed_u32(hours), parsed_u32(minutes)) {
        (Some(hour), Some(minute)) => {
            if minute > 59 {
                None
            } else {
                let h: Option<int> = match afternoon {
                    Some(true) => if hour == 12 {
                        Some(12)
                    } else if hour < 12 {
                        Some(hour + 12 as int)
                    } else {
                        None
                    },
                    Some(false) => if hour == 12 {
                        Some(0)
                    } else if hour < 12 {
                        Some(hour as int)
                    } else {
                        None
                    },
                    None => if hour < 24 {
                        Some(hour as int)
                    } else {
                        None
                    },
                };
                match h {
                    Some(h) => Some(h * 3600 + minute * 60),
                    None => None,
                }
            }
        },
        _ => None,
    }
}

/// The clock time after `tomorrow`, `today` or a day name: absent, bare, or after `at`.
pub open spec fn clock_after_day(rest: Seq<char>) -> Option<int> {
    let rest = trimmed(rest);
    if rest.len() == 0 {
        Some(DEFAULT_MORNING as int)
    } else {
        let clock = if begins_with(rest, word_at()) {
            rest.skip(2)
        } else {
            rest
        };
        clock_of(trimmed(clock))
    }
}

/// Seconds in one of the units a relative expression may use.
pub open spec fn unit_of(unit: Seq<char>) -> Option<int> {
    if unit == seq!['s'] || unit == seq!['s', 'e', 'c'] || unit == seq!['s', 'e', 'c', 's'] || unit
        == seq!['s', 'e', 'c', 'o', 'n', 'd'] || unit == seq!['s', 'e', 'c', 'o', 'n', 'd', 's'] {
        Some(1)
    } else if unit == seq!['m'] || unit == seq!['m', 'i', 'n'] || unit == seq!['m', 'i', 'n', 's']
        || unit == seq!['m', 'i', 'n', 'u', 't', 'e'] || unit == seq!['m', 'i', 'n', 'u', 't', 'e', 's'] {
        Some(60)
    } else if unit == seq!['h'] || unit == seq!['h', 'r'] || unit == seq!['h', 'r', 's'] || unit
        == seq!['h', 'o', 'u', 'r'] || unit == seq!['h', 'o', 'u', 'r', 's'] {
        Some(3600)
    } else if unit == seq!['d'] || unit == seq!['d', 'a', 'y'] || unit == seq!['d', 'a', 'y', 's'] {
        Some(86400)
    } else {
        None
    }
}

/// The group `<amount><unit>` at the front of `s`, after any spaces, with spaces allowed
/// between amount and unit: the amount's digits, the unit's length in seconds, and how many
/// characters the group spans. Nothing when the digits are missing or the letters after them
/// name no unit.
pub open spec fn front_group(s: Seq<char>) -> Option<(Seq<char>, int, int)> {
    let spaces = leading(s, CharClass::Space);
    let a = s.skip(spaces as int);
    let digits = leading(a, CharClass::Digit);
    if digits == 0 {
        None
    } else {
        let b = a.skip(digits as int);
        let gap = leading(b, CharClass::Space);
        let c = b.skip(gap as int);
        let letters = leading(c, CharClass::Letter);
        match unit_of(c.take(letters as int)) {
            None => None,
            Some(unit) => Some((a.take(digits as int), unit, (spaces + digits + gap + letters) as int)),
        }
    }
}

pub proof fn lemma_front_group(s: Seq<char>)
    ensures
        front_group(s) matches Some((digits, unit, used)) ==> {
            &&& 1 <= used <= s.len()
            &&& digits.len() > 0
            &&& all_digits(digits)
            &&& unit >= 1
        },
{
    let spaces = leading(s, CharClass::Space);
    lemma_leading(s, CharClass::Space);
    let a = s.skip(spaces as int);
    lemma_leading(a, CharClass::Digit);
    let digits = leading(a, CharClass::Digit);
    let b = a.skip(digits as int);
    lemma_leading(b, CharClass::Space);
    let gap = leading(b, CharClass::Space);
    let c = b.skip(gap as int);
    lemma_leading(c, CharClass::Letter);
    assert forall|i: int| 0 <= i < digits implies is_digit(#[trigger] a.take(digits as int)[i]) by {
        assert(in_class(a[i], CharClass::Digit));
    }
}

/// The groups of a relative expression added up without bound. Nothing when any group is
/// malformed. Trailing spaces add nothing.
pub open spec fn groups_total(s: Seq<char>) -> Option<int>
    decreases s.len(),
{
    if leading(s, CharClass::Space) >= s.len() {
        Some(0)
    } else {
        match front_group(s) {
            None => None,
            Some((digits, unit, used)) => {
                proof {
                    lemma_front_group(s);
                }
                match groups_total(s.skip(used)) {
                    Some(more) => Some(decimal(digits) * unit + more),
                    None => None,
                }
            },
        }
    }
}

pub proof fn lemma_groups_total_nonnegative(s: Seq<char>)
    ensures
        groups_total(s) matches Some(total) ==> total >= 0,
    decreases s.len(),
{
    if leading(s, CharClass::Space) < s.len() {
        lemma_front_group(s);
        if let Some((digits, unit, used)) = front_group(s) {
            lemma_groups_total_nonnegative(s.skip(used));
            assert(decimal(digits) * unit >= 0) by (nonlinear_arith)
                requires
                    unit >= 1;
        }
    }
}

/// The group at the front of a text that holds one is the group at the front of that text with
/// anything starting with a digit written after it.
proof fn lemma_front_group_concat(a: Seq<char>, b: Seq<char>)
    requires
        front_group(a) is Some,
        b.len() > 0,
        !crate::text::is_letter(b[0]),
    ensures
        front_group(a + b) == front_group(a),
{
    let t = a + b;
    lemma_leading(a, CharClass::Space);
    let spaces = leading(a, CharClass::Space);
    let a1 = a.skip(spaces as int);
    lemma_leading(a1, CharClass::Digit);
    let digits = leading(a1, CharClass::Digit);
    let b1 = a1.skip(digits as int);
    lemma_leading(b1, CharClass::Space);
    let gap = leading(b1, CharClass::Space);
    let c1 = b1.skip(gap as int);
    lemma_leading(c1, CharClass::Letter);
    let letters = leading(c1, CharClass::Letter);
    assert(letters >= 1) by {
        if letters == 0 {
            assert(c1.take(0) == Seq::<char>::empty());
        }
    }
    assert(spaces < a.len());
    crate::text::lemma_leading_concat(a, b, CharClass::Space);
    assert(t.skip(spaces as int) == a1 + b);
    assert(digits < a1.len());
    crate::text::lemma_leading_concat(a1, b, CharClass::Digit);
    assert((a1 + b).skip(digits as int) == b1 + b);
    assert(gap < b1.len());
    crate::text::lemma_leading_concat(b1, b, CharClass::Space);
    assert((b1 + b).skip(gap as int) == c1 + b);
    crate::text::lemma_leading_concat(c1, b, CharClass::Letter);
    assert(!in_class(b[0], CharClass::Letter));
    if letters == c1.len() {
        crate::text::lemma_leading_is(b, CharClass::Letter, 0);
    }
    assert((c1 + b).take(letters as int) == c1.take(letters as int));
    assert((a1 + b).take(digits as int) == a1.take(digits as int));
}

/// The groups of a relative delay add up: a text whose groups can be read, followed by more text
/// that does not carry on its last unit's letters, reads as its own total plus that of what
/// follows. So a unit may be written again, as in `1h 1h`, the units mixed, as in `1h30m`, and
/// the groups spaced or not.
pub proof fn lemma_groups_add_up(a: Seq<char>, b: Seq<char>)
    requires
        groups_total(a) is Some,
        b.len() > 0 ==> !crate::text::is_letter(b[0]),
    ensures
        groups_total(a + b) == match groups_total(b) {
            Some(more) => Some(groups_total(a)->0 + more),
            None => None,
        },
    decreases a.len(),
{
    if b.len() == 0 {
        assert(a + b == a);
        assert(groups_total(b) == Some(0int));
        return;
    }
    lemma_leading(a, CharClass::Space);
    lemma_leading(b, CharClass::Space);
    crate::text::lemma_leading_concat(a, b, CharClass::Space);
    if leading(a, CharClass::Space) >= a.len() {
        // Only spaces so far: the first group is the one that follows, further along.
        let t = a + b;
        let lead = leading(b, CharClass::Space);
        assert(leading(t, CharClass::Space) == a.len() + lead);
        if lead < b.len() {
            assert(t.skip((a.len() + lead) as int) == b.skip(lead as int));
            lemma_front_group(b);
            if let Some((digits, unit, used)) = front_group(b) {
                assert(front_group(t) == Some((digits, unit, used + a.len())));
                assert(t.skip(used + a.len()) == b.skip(used));
            } else {
                assert(front_group(t) is None);
            }
        }
    } else {
        lemma_front_group(a);
        let (digits, unit, used) = front_group(a)->0;
        lemma_front_group_concat(a, b);
        assert((a + b).skip(used) == a.skip(used) + b);
        lemma_groups_add_up(a.skip(used), b);
    }
}

/// The text of a relative expression: the leading `in ` taken off, and the whitespace after it.
pub open spec fn duration_text(input: Seq<char>) -> Seq<char> {
    trimmed_start(
        if begins_with(input, word_in()) {
            input.skip(3)
        } else {
            input
        },
    )
}

/// A relative expression in seconds: at least one group, and a total a `u64` can hold.
pub open spec fn duration_of(input: Seq<char>) -> Option<int> {
    let expression = duration_text(input);
    if expression.len() == 0 {
        None
    } else {
        match groups_total(expression) {
            Some(total) => if total <= u64::MAX {
                Some(total)
            } else {
                None
            },
            None => None,
        }
    }
}

/// Two delays written one after the other, with or without a space between, mean the sum of
/// the two, as long as the sum fits.
pub proof fn lemma_delays_add_up(a: Seq<char>, b: Seq<char>)
    requires
        a.len() > 0,
        is_digit(a[0]),
        b.len() > 0,
        is_digit(b[0]),
        duration_of(a) is Some,
        duration_of(b) is Some,
        duration_of(a)->0 + duration_of(b)->0 <= u64::MAX,
    ensures
        duration_of(a + b) == Some(duration_of(a)->0 + duration_of(b)->0),
        duration_of(a + seq![' '] + b) == Some(duration_of(a)->0 + duration_of(b)->0),
{
    lemma_amount_first(a);
    lemma_amount_first(b);
    let spaced = seq![' '] + b;
    assert((a + b)[0] == a[0]);
    assert((a + seq![' '] + b)[0] == a[0]);
    lemma_amount_first(a + b);
    lemma_amount_first(a + seq![' '] + b);
    lemma_groups_add_up(a, b);
    lemma_groups_add_up(a, spaced);
    let gap = seq![' '];
    crate::text::lemma_leading_is(gap, CharClass::Space, 1);
    assert(groups_total(gap) == Some(0int));
    lemma_groups_add_up(gap, b);
    assert(gap + b == spaced);
    assert(a + seq![' '] + b == a + spaced);
}

/// What a time expression means, as seconds from now, for a given time of day and weekday.
///
/// The expression is trimmed and read without regard to ASCII case. `tomorrow` and `today` are
/// tried first, then a day name (with or without `next`), then `at`, and last a relative delay.
pub open spec fn when_of(input: Seq<char>, now: int, today: int) -> Option<int> {
    let text = lowered(trimmed(input));
    if begins_with(text, word_tomorrow()) {
        match clock_after_day(text.skip(8)) {
            Some(clock) => Some(delay_to(clock, now, true)),
            None => None,
        }
    } else if begins_with(text, word_today()) {
        match clock_after_day(text.skip(5)) {
            Some(clock) => Some(delay_to(clock, now, false)),
            None => None,
        }
    } else {
        let not_today = begins_with(text, word_next());
        let after_next = if not_today {
            trimmed_start(text.skip(5))
        } else {
            text
        };
        let (word, rest) = first_word(after_next);
        match weekday_of(word) {
            Some(wanted) => match clock_after_day(rest) {
                Some(clock) => Some(delay_to_weekday(wanted, clock, today, now, not_today)),
                None => None,
            },
            None => if begins_with(text, word_at_space()) {
                match clock_of(trimmed(text.skip(3))) {
                    Some(clock) => Some(delay_to(clock, now, false)),
                    None => None,
                }
            } else {
                duration_of(text)
            },
        }
    }
}

/// A clock time is a whole minute within the day.
pub proof fn lemma_clock_in_day(text: Seq<char>)
    ensures
        clock_of(text) matches Some(c) ==> 0 <= c < DAY && c % 60 == 0,
{
}

/// A run of digits is left alone by trimming, holds no colon and no `am` or `pm`, and reads as
/// the number it spells when that fits.
proof fn lemma_digit_run(d: Seq<char>)
    requires
        d.len() > 0,
        all_digits(d),
    ensures
        trimmed(d) == d,
        trimmed_end(d) == d,
        split_at_first(d, ':') is None,
        !finishes_with(d, word_pm()),
        !finishes_with(d, word_am()),
        parsed_u32(d) == if decimal(d) <= u32::MAX {
            Some(decimal(d))
        } else {
            None
        },
{
    assert(is_digit(d[0]) && is_digit(d.last()));
    crate::text::lemma_leading_is(d, CharClass::WhiteSpace, 0);
    assert(trimmed_start(d) == d);
    crate::text::lemma_trailing_is(d, CharClass::WhiteSpace, 0);
    assert(trimmed_end(d) == d);
    assert forall|j: int| 0 <= j < d.len() implies in_class(#[trigger] d[j], CharClass::Not(':')) by {
        assert(is_digit(d[j]));
    }
    crate::text::lemma_leading_is(d, CharClass::Not(':'), d.len() as int);
    if d.len() >= 2 {
        assert(d.skip(d.len() - 2)[1] == d.last());
    }
}

/// An hour and minutes with a colon between them split at the colon and end in a digit.
proof fn lemma_hour_and_minutes(hours: Seq<char>, minutes: Seq<char>)
    requires
        hours.len() > 0,
        all_digits(hours),
        minutes.len() > 0,
        all_digits(minutes),
    ensures
        split_at_first(hours + seq![':'] + minutes, ':') == Some((hours, minutes)),
        trimmed_end(hours + seq![':'] + minutes) == hours + seq![':'] + minutes,
        !finishes_with(hours + seq![':'] + minutes, word_pm()),
        !finishes_with(hours + seq![':'] + minutes, word_am()),
        (hours + seq![':'] + minutes).last() == minutes.last(),
{
    let t = hours + seq![':'] + minutes;
    let n = hours.len() as int;
    assert forall|j: int| 0 <= j < n implies in_class(#[trigger] t[j], CharClass::Not(':')) by {
        assert(t[j] == hours[j]);
        assert(is_digit(hours[j]));
    }
    assert(t[n] == ':');
    crate::text::lemma_leading_is(t, CharClass::Not(':'), n);
    assert(t.take(n) == hours);
    assert(t.skip(n + 1) == minutes);
    assert(t.last() == minutes.last());
    assert(is_digit(minutes.last()));
    crate::text::lemma_trailing_is(t, CharClass::WhiteSpace, 0);
    assert(t.skip(t.len() - 2)[1] == t.last());
}

/// A time that ends in a digit, then any spaces, then `am` or `pm`: the suffix is found and
/// what is left before it, trimmed, is the time.
proof fn lemma_time_then_suffix(time: Seq<char>, gap: Seq<char>, suffix: Seq<char>)
    requires
        time.len() > 0,
        is_digit(time.last()),
        forall|i: int| 0 <= i < gap.len() ==> #[trigger] gap[i] == ' ',
        suffix == word_am() || suffix == word_pm(),
    ensures
        finishes_with(time + gap + suffix, suffix),
        suffix == word_am() ==> !finishes_with(time + gap + suffix, word_pm()),
        ({
            let t = time + gap + suffix;
            trimmed_end(t.take(t.len() - 2)) == time
        }),
{
    let t = time + gap + suffix;
    assert(t.skip(t.len() - 2) == suffix);
    let front = t.take(t.len() - 2);
    assert(front == time + gap);
    let g = gap.len() as int;
    assert forall|j: int| front.len() - g <= j < front.len() implies in_class(
        #[trigger] front[j],
        CharClass::WhiteSpace,
    ) by {
        assert(front[j] == gap[j - time.len()]);
    }
    assert(front[front.len() - g - 1] == time.last());
    crate::text::lemma_trailing_is(front, CharClass::WhiteSpace, g);
    assert(front.take(front.len() - g) == time);
    assert(word_am()[0] != word_pm()[0]);
}

/// A clock time means the hour and minute it shows. On the 24 hour clock `H` and `H:MM` are
/// that hour and minute of the day, for hours up to 23 and minutes up to 59, and any other hour
/// is refused. On the 12 hour clock, with or without a space before `am` or `pm`, hours 1 to 11
/// are the morning and, twelve hours on, the afternoon, `12am` is midnight and `12pm` noon.
pub proof fn lemma_clock_reads_the_time(hours: Seq<char>, minutes: Seq<char>, gap: Seq<char>)
    requires
        hours.len() > 0,
        all_digits(hours),
        minutes.len() > 0,
        all_digits(minutes),
        forall|i: int| 0 <= i < gap.len() ==> #[trigger] gap[i] == ' ',
    ensures
        clock_of(hours) == if decimal(hours) < 24 {
            Some(decimal(hours) * 3600 as int)
        } else {
            None::<int>
        },
        decimal(hours) < 24 && decimal(minutes) < 60 ==> clock_of(hours + seq![':'] + minutes) == Some(
            decimal(hours) * 3600 + decimal(minutes) * 60 as int,
        ),
        1 <= decimal(hours) <= 11 ==> clock_of(hours + gap + word_am()) == Some(decimal(hours) * 3600 as int),
        1 <= decimal(hours) <= 11 ==> clock_of(hours + gap + word_pm()) == Some((decimal(hours) + 12) * 3600 as int),
        1 <= decimal(hours) <= 11 && decimal(minutes) < 60 ==> clock_of(
            hours + seq![':'] + minutes + gap + word_pm(),
        ) == Some((decimal(hours) + 12) * 3600 + decimal(minutes) * 60 as int),
        decimal(hours) == 12 ==> clock_of(hours + gap + word_am()) == Some(0int),
        decimal(hours) == 12 ==> clock_of(hours + gap + word_pm()) == Some(12 * 3600int),
        decimal(hours) > 12 ==> clock_of(hours + gap + word_am()) is None && clock_of(
            hours + gap + word_pm(),
        ) is None,
{
    let zero = seq!['0'];
    assert(decimal(zero) == 0) by {
        reveal_with_fuel(decimal, 2);
        assert(zero.drop_last() =~= Seq::<char>::empty());
        assert(zero.last() == '0');
    }
    assert(all_digits(zero));
    lemma_digit_run(zero);
    lemma_digit_run(hours);
    lemma_digit_run(minutes);
    lemma_hour_and_minutes(hours, minutes);
    let both = hours + seq![':'] + minutes;
    lemma_time_then_suffix(hours, gap, word_am());
    lemma_time_then_suffix(hours, gap, word_pm());
    lemma_time_then_suffix(both, gap, word_pm());
    assert(is_digit(minutes.last()));
}

pub proof fn lemma_clock_after_day_in_day(rest: Seq<char>)
    ensures
        clock_after_day(rest) matches Some(c) ==> 0 <= c < DAY,
{
    let r = trimmed(rest);
    if r.len() > 0 {
        let clock = if begins_with(r, word_at()) {
            r.skip(2)
        } else {
            r
        };
        lemma_clock_in_day(trimmed(clock));
    }
}

/// An expression means the same whatever its ASCII case.
pub proof fn lemma_case_does_not_matter(a: Seq<char>, b: Seq<char>, now: int, today: int)
    requires
        lowered(a) == lowered(b),
    ensures
        when_of(a, now, today) == when_of(b, now, today),
{
    crate::text::lemma_lowered_trimmed(a);
    crate::text::lemma_lowered_trimmed(b);
}

/// A bare `tomorrow` means 09:00 tomorrow, whatever the time now.
pub proof fn lemma_bare_tomorrow_is_the_morning(now: int, today: int)
    requires
        0 <= now < DAY,
    ensures
        when_of(word_tomorrow(), now, today) == Some(DAY + DEFAULT_MORNING - now),
{
    let w = word_tomorrow();
    crate::text::lemma_leading_is(w, CharClass::WhiteSpace, 0);
    assert(trimmed_start(w) == w);
    crate::text::lemma_trailing_is(w, CharClass::WhiteSpace, 0);
    assert(trimmed_end(w) == w);
    assert(lowered(w) == w);
    assert(w.take(8) == w);
    assert(trimmed(w.skip(8)).len() == 0);
}

/// A clock time is the next moment the clock shows it: later today while it is still ahead,
/// otherwise tomorrow. With the next day asked for, it is that time tomorrow.
pub proof fn lemma_clock_time_comes_next(target: int, now: int, next_day: bool)
    requires
        0 <= target < DAY,
        0 <= now < DAY,
    ensures
        0 < delay_to(target, now, next_day),
        (now + delay_to(target, now, next_day)) % (DAY as int) == target,
        !next_day ==> delay_to(target, now, next_day) <= DAY,
        next_day ==> DAY <= now + delay_to(target, now, next_day) < 2 * DAY,
        next_day ==> delay_to(target, now, next_day) == target + DAY - now,
{
}

/// No moment after now that the clock shows as `target` comes before the one a clock time
/// means.
pub proof fn lemma_no_earlier_clock_time(target: int, now: int, later: int)
    requires
        0 <= target < DAY,
        0 <= now < DAY,
        0 < later,
        (now + later) % (DAY as int) == target,
    ensures
        delay_to(target, now, false) <= later,
{
}

/// A day name lands at its clock time on a day of that name, no more than a week ahead and
/// after now, and today only when the time is still ahead and `next` was not written.
/// The moment is counted in seconds from today's midnight.
pub proof fn lemma_day_name_lands_on_that_day(wanted: int, clock: int, today: int, now: int, not_today: bool)
    requires
        0 <= wanted < 7,
        0 <= today < 7,
        0 <= clock < DAY,
        0 <= now < DAY,
    ensures
        ({
            let moment = now + delay_to_weekday(wanted, clock, today, now, not_today);
            &&& moment % (DAY as int) == clock
            &&& (today + moment / (DAY as int)) % 7 == wanted
            &&& now < moment <= 7 * DAY + clock
            &&& (moment < DAY <==> (wanted == today && clock > now && !not_today))
            &&& (today * DAY + moment) % (7 * DAY as int) == wanted * DAY + clock
        }),
{
    let ahead = (wanted + 7 - today) % 7;
    let days = if ahead == 0 && (not_today || clock <= now) {
        7
    } else {
        ahead
    };
    let moment = now + delay_to_weekday(wanted, clock, today, now, not_today);
    assert(moment == days * DAY + clock);
    assert(0 <= days <= 7);
    assert(moment % (DAY as int) == clock && moment / (DAY as int) == days) by (nonlinear_arith)
        requires
            moment == days * DAY + clock,
            0 <= clock < DAY,
            0 <= days,
    ;
    let whole = today + days;
    assert(whole % 7 == wanted);
    assert((today * DAY + moment) % (7 * DAY as int) == wanted * DAY + clock) by (nonlinear_arith)
        requires
            today * DAY + moment == whole * DAY + clock,
            whole % 7 == wanted,
            0 <= wanted < 7,
            0 <= clock < DAY,
            0 <= whole,
            DAY == 86400,
    ;
}

/// No day of the wanted name, at the clock time and after now (and not today when `next` was
/// written), comes before the one a day name means.
pub proof fn lemma_no_earlier_day(
    wanted: int,
    clock: int,
    today: int,
    now: int,
    not_today: bool,
    days_ahead: int,
)
    requires
        0 <= wanted < 7,
        0 <= today < 7,
        0 <= clock < DAY,
        0 <= now < DAY,
        0 <= days_ahead,
        (today + days_ahead) % 7 == wanted,
        days_ahead * DAY + clock > now,
        not_today ==> days_ahead >= 1,
    ensures
        now + delay_to_weekday(wanted, clock, today, now, not_today) <= days_ahead * DAY + clock,
{
    let ahead = (wanted + 7 - today) % 7;
    assert(days_ahead % 7 == ahead);
    if ahead == 0 && (not_today || clock <= now) {
        assert(days_ahead != 0);
        assert(days_ahead >= 7);
    } else {
        assert(days_ahead >= ahead);
    }
    assert(days_ahead * DAY >= ahead * DAY) by (nonlinear_arith)
        requires
            days_ahead >= ahead;
}

/// `next` in front of a day name rules today out and changes nothing else: it moves only a
/// reminder that would have come today, and moves it by exactly a week.
pub proof fn lemma_next_moves_only_today(wanted: int, clock: int, today: int, now: int)
    requires
        0 <= wanted < 7,
        0 <= today < 7,
        0 <= clock < DAY,
        0 <= now < DAY,
    ensures
        ({
            let plain = delay_to_weekday(wanted, clock, today, now, false);
            delay_to_weekday(wanted, clock, today, now, true) == if now + plain < DAY {
                plain + 7 * DAY
            } else {
                plain
            }
        }),
{
    lemma_day_name_lands_on_that_day(wanted, clock, today, now, false);
}

/// The first word of a text that begins with `prefix`, a run without spaces, begins with it too.
proof fn lemma_first_word_begins_with(text: Seq<char>, prefix: Seq<char>)
    requires
        begins_with(text, prefix),
        forall|i: int| 0 <= i < prefix.len() ==> #[trigger] prefix[i] != ' ',
    ensures
        begins_with(first_word(text).0, prefix),
        prefix.len() < text.len() && text[prefix.len() as int] == ' ' ==> first_word(text).0 == prefix,
{
    let class = CharClass::Not(' ');
    lemma_leading(text, class);
    let at = leading(text, class);
    if at < prefix.len() {
        assert(text[at as int] == text.take(prefix.len() as int)[at as int]);
        assert(text[at as int] == prefix[at as int]);
    }
    assert(at >= prefix.len());
    assert(first_word(text).0 == text.take(at as int));
    assert(text.take(at as int).take(prefix.len() as int) == text.take(prefix.len() as int));
    if prefix.len() < text.len() && text[prefix.len() as int] == ' ' {
        crate::text::lemma_leading_is(text, class, prefix.len() as int);
    }
}

/// A text whose first word names a day begins with none of the other words.
proof fn lemma_day_name_text(text: Seq<char>)
    requires
        weekday_of(first_word(text).0) is Some,
    ensures
        text.len() > 0,
        !begins_with(text, word_tomorrow()),
        !begins_with(text, word_today()),
        !begins_with(text, word_next()),
{
    let word = first_word(text).0;
    if text.len() == 0 {
        assert(word.len() == 0);
    }
    if begins_with(text, word_tomorrow()) {
        lemma_first_word_begins_with(text, word_tomorrow());
        assert(word.take(8) == word_tomorrow());
        assert(word[0] == 't' && word[1] == 'o' && word.len() >= 8);
    }
    if begins_with(text, word_today()) {
        lemma_first_word_begins_with(text, word_today());
        assert(word.take(5) == word_today());
        assert(word[0] == 't' && word[1] == 'o' && word.len() >= 5);
    }
    let next_word = seq!['n', 'e', 'x', 't'];
    if begins_with(text, word_next()) {
        assert(text.take(4) == text.take(5).take(4));
        assert(begins_with(text, next_word));
        assert(text[4] == text.take(5)[4]);
        lemma_first_word_begins_with(text, next_word);
        assert(word == next_word);
    }
}

/// With a word that starts with no white space in front of an input that holds more than white
/// space, the text read is the word and then the input trimmed at its end and lowered, which
/// trimmed at its start is the input's own text.
proof fn lemma_text_after_word(word: Seq<char>, input: Seq<char>)
    requires
        trimmed(input).len() > 0,
        word.len() > 0,
        !crate::text::is_white_space(word[0]),
        lowered(word) == word,
    ensures
        lowered(trimmed(word + input)) == word + lowered(trimmed_end(input)),
        trimmed_start(lowered(trimmed_end(input))) == lowered(trimmed(input)),
{
    crate::text::lemma_lowered_trimmed(trimmed_end(input));
    crate::text::lemma_trim_either_way(input);
    let whole = word + input;
    let class = CharClass::WhiteSpace;
    crate::text::lemma_leading_is(whole, class, 0);
    assert(trimmed_start(whole) == whole);
    lemma_trailing(input, class);
    let back = crate::text::trailing(input, class) as int;
    assert forall|j: int| whole.len() - back <= j < whole.len() implies crate::text::in_class(
        #[trigger] whole[j],
        class,
    ) by {
        assert(whole[j] == input[j - word.len()]);
    }
    assert(whole[whole.len() - back - 1] == input[input.len() - back - 1]);
    crate::text::lemma_trailing_is(whole, class, back);
    let end = trimmed_end(input);
    assert(trimmed(whole) == word + end);
    assert(lowered(word + end) == lowered(word) + lowered(end));
}

/// Writing `next` in front of a day name rules today out and changes nothing else: the
/// expression means the same moment as without it, unless that moment is today, in which case
/// it means the same time a week later.
pub proof fn lemma_next_rules_out_only_today(input: Seq<char>, now: int, today: int)
    requires
        0 <= now < DAY,
        0 <= today < 7,
        weekday_of(first_word(lowered(trimmed(input))).0) is Some,
    ensures
        when_of(word_next() + input, now, today) == match when_of(input, now, today) {
            Some(delay) => Some(
                if now + delay < DAY {
                    delay + 7 * DAY
                } else {
                    delay
                },
            ),
            None => None,
        },
{
    let text = lowered(trimmed(input));
    let (word, rest) = first_word(text);
    let wanted = weekday_of(word).unwrap();
    lemma_day_name_text(text);
    crate::text::lemma_lowered_trimmed(input);
    assert(trimmed(input).len() > 0);
    assert(lowered(word_next()) =~= word_next());
    lemma_text_after_word(word_next(), input);
    let text2 = lowered(trimmed(word_next() + input));
    assert(text2[0] == 'n');
    assert(!begins_with(text2, word_tomorrow()));
    assert(!begins_with(text2, word_today()));
    assert(text2.take(5) == word_next());
    assert(text2.skip(5) == lowered(trimmed_end(input)));
    lemma_next_moves_only_today_when_read(wanted, rest, today, now);
}

/// A text that starts with a digit begins with none of the words and is no day name.
proof fn lemma_amount_first(text: Seq<char>)
    requires
        text.len() > 0,
        is_digit(text[0]),
    ensures
        trimmed_start(text) == text,
        !begins_with(text, word_in()),
        !begins_with(text, word_tomorrow()),
        !begins_with(text, word_today()),
        !begins_with(text, word_next()),
        !begins_with(text, word_at_space()),
        weekday_of(first_word(text).0) is None,
{
    let first = seq![text[0]];
    assert(text.take(1) == first);
    lemma_first_word_begins_with(text, first);
    assert(first_word(text).0[0] == text[0]);
    crate::text::lemma_leading_is(text, CharClass::WhiteSpace, 0);
    if text.len() >= 3 {
        assert(text[0] == text.take(3)[0]);
    }
    if text.len() >= 5 {
        assert(text[0] == text.take(5)[0]);
    }
    if text.len() >= 8 {
        assert(text[0] == text.take(8)[0]);
    }
}

/// With `in ` in front of an input that holds more than white space, the expression is read as
/// a relative delay whose text is the input's own.
proof fn lemma_in_text(input: Seq<char>, now: int, today: int)
    requires
        trimmed(input).len() > 0,
    ensures
        when_of(word_in() + input, now, today) == duration_of(lowered(trimmed(word_in() + input))),
        duration_text(lowered(trimmed(word_in() + input))) == lowered(trimmed(input)),
{
    assert(lowered(word_in()) =~= word_in());
    lemma_text_after_word(word_in(), input);
    let text = lowered(trimmed(word_in() + input));
    assert(text[0] == 'i' && text[1] == 'n' && text[2] == ' ');
    if text.len() >= 3 {
        assert(text[0] == text.take(3)[0]);
    }
    if text.len() >= 5 {
        assert(text[0] == text.take(5)[0]);
    }
    if text.len() >= 8 {
        assert(text[0] == text.take(8)[0]);
    }
    let in_word = seq!['i', 'n'];
    assert(text.take(2) == in_word);
    lemma_first_word_begins_with(text, in_word);
    assert(first_word(text).0 == in_word);
    assert(weekday_of(in_word) is None);
    assert(text.take(3) == word_in());
    assert(text.skip(3) == lowered(trimmed_end(input)));
    crate::text::lemma_lowered_trimmed(input);
}

/// The leading `in` of a relative delay is optional: an expression that starts with an amount
/// means the same with `in ` written in front of it.
pub proof fn lemma_in_is_optional(input: Seq<char>, now: int, today: int)
    requires
        lowered(trimmed(input)).len() > 0,
        is_digit(lowered(trimmed(input))[0]),
    ensures
        when_of(word_in() + input, now, today) == when_of(input, now, today),
{
    let text = lowered(trimmed(input));
    lemma_amount_first(text);
    assert(when_of(input, now, today) == duration_of(text));
    assert(trimmed(input).len() > 0);
    lemma_in_text(input, now, today);
    let text2 = lowered(trimmed(word_in() + input));
    assert(duration_text(text2) == duration_text(text));
}

pub open spec fn is_lower_letter(c: char) -> bool {
    'a' as u32 <= c as u32 <= 'z' as u32
}

/// A text of digits, lower-case letters and inner spaces reads as itself: trimming and lowering
/// leave it as it is.
proof fn lemma_reads_as_itself(s: Seq<char>)
    requires
        s.len() > 0,
        s[0] != ' ',
        s.last() != ' ',
        forall|i: int| 0 <= i < s.len() ==> is_digit(#[trigger] s[i]) || is_lower_letter(s[i]) || s[i] == ' ',
    ensures
        lowered(trimmed(s)) == s,
{
    crate::text::lemma_leading_is(s, CharClass::WhiteSpace, 0);
    assert(trimmed_start(s) == s);
    crate::text::lemma_trailing_is(s, CharClass::WhiteSpace, 0);
    assert(trimmed_end(s) == s);
    assert(lowered(s) =~= s);
}

/// An amount, any spaces, and a unit, as the whole expression: the amount times the unit's
/// length in seconds.
proof fn lemma_amount_in_unit(amount: Seq<char>, gap: Seq<char>, unit: Seq<char>, now: int, today: int)
    requires
        amount.len() > 0,
        all_digits(amount),
        forall|i: int| 0 <= i < gap.len() ==> #[trigger] gap[i] == ' ',
        unit.len() > 0,
        forall|i: int| 0 <= i < unit.len() ==> is_lower_letter(#[trigger] unit[i]),
        unit_of(unit) is Some,
        decimal(amount) * unit_of(unit)->0 <= u64::MAX,
    ensures
        duration_of(amount + gap + unit) == Some(decimal(amount) * unit_of(unit)->0),
        when_of(amount + gap + unit, now, today) == Some(decimal(amount) * unit_of(unit)->0),
{
    let s = amount + gap + unit;
    let n = amount.len() as int;
    let g = gap.len() as int;
    assert forall|i: int| 0 <= i < s.len() implies is_digit(#[trigger] s[i]) || is_lower_letter(s[i]) || s[i] == ' ' by {
        if i < n {
            assert(s[i] == amount[i]);
        } else if i < n + g {
            assert(s[i] == gap[i - n]);
        } else {
            assert(s[i] == unit[i - n - g]);
        }
    }
    assert(s[0] == amount[0]);
    assert(s.last() == unit.last());
    lemma_reads_as_itself(s);
    lemma_amount_first(s);
    assert(when_of(s, now, today) == duration_of(s));
    assert(duration_text(s) == s);
    crate::text::lemma_leading_is(s, CharClass::Space, 0);
    assert forall|j: int| 0 <= j < n implies in_class(#[trigger] s[j], CharClass::Digit) by {
        assert(s[j] == amount[j]);
    }
    if g > 0 {
        assert(s[n] == gap[0]);
    } else {
        assert(s[n] == unit[0]);
    }
    crate::text::lemma_leading_is(s, CharClass::Digit, n);
    let b = s.skip(n);
    assert(b == gap + unit);
    assert forall|j: int| 0 <= j < g implies in_class(#[trigger] b[j], CharClass::Space) by {
        assert(b[j] == gap[j]);
    }
    assert(b[g] == unit[0]);
    crate::text::lemma_leading_is(b, CharClass::Space, g);
    assert(b.skip(g) == unit);
    crate::text::lemma_leading_is(unit, CharClass::Letter, unit.len() as int);
    assert(unit.take(unit.len() as int) == unit);
    assert(s.take(n) == amount);
    assert(front_group(s) == Some((amount, unit_of(unit)->0, s.len() as int)));
    let rest = s.skip(s.len() as int);
    assert(rest.len() == 0);
    assert(groups_total(rest) == Some(0int));
}

/// What `input` means, read `now` seconds into the day `today`, is `seconds` from now.
#[verifier::opaque]
pub open spec fn means_seconds(input: Seq<char>, now: int, today: int, seconds: int) -> bool {
    when_of(input, now, today) == Some(seconds)
}

/// One spelling of a unit after an amount: the amount times the unit's length in seconds,
/// whenever that fits.
proof fn lemma_unit_spelling(amount: Seq<char>, gap: Seq<char>, unit: Seq<char>, seconds: int, now: int, today: int)
    requires
        amount.len() > 0,
        all_digits(amount),
        forall|i: int| 0 <= i < gap.len() ==> #[trigger] gap[i] == ' ',
        unit_of(unit) == Some(seconds),
    ensures
        decimal(amount) * seconds <= u64::MAX ==> means_seconds(
            amount + gap + unit,
            now,
            today,
            decimal(amount) * seconds,
        ),
{
    reveal(means_seconds);
    assert forall|i: int| 0 <= i < unit.len() implies is_lower_letter(#[trigger] unit[i]) by {
        if i == 0 {
        } else if i == 1 {
        } else if i == 2 {
        } else if i == 3 {
        } else if i == 4 {
        } else if i == 5 {
        } else {
        }
    }
    if decimal(amount) * seconds <= u64::MAX {
        lemma_amount_in_unit(amount, gap, unit, now, today);
    }
}

/// Each unit is worth what its name says, whichever spelling is written and whether or not a
/// space comes between the amount and the unit: a second, a minute of 60 seconds, an hour of
/// 3600 and a day of 86400. So `10 min`, `10mins` and `10m` all mean 600 seconds.
#[verifier::spinoff_prover]
pub proof fn lemma_units_in_seconds(amount: Seq<char>, gap: Seq<char>, now: int, today: int)
    requires
        amount.len() > 0,
        all_digits(amount),
        forall|i: int| 0 <= i < gap.len() ==> #[trigger] gap[i] == ' ',
    ensures
        decimal(amount) <= u64::MAX ==> {
            let seconds = decimal(amount) as int;
            &&& means_seconds(amount + gap + seq!['s'], now, today, seconds)
            &&& means_seconds(amount + gap + seq!['s', 'e', 'c'], now, today, seconds)
            &&& means_seconds(amount + gap + seq!['s', 'e', 'c', 's'], now, today, seconds)
            &&& means_seconds(amount + gap + seq!['s', 'e', 'c', 'o', 'n', 'd'], now, today, seconds)
            &&& means_seconds(amount + gap + seq!['s', 'e', 'c', 'o', 'n', 'd', 's'], now, today, seconds)
        },
        decimal(amount) * 60 <= u64::MAX ==> {
            let seconds = decimal(amount) * 60 as int;
            &&& means_seconds(amount + gap + seq!['m'], now, today, seconds)
            &&& means_seconds(amount + gap + seq!['m', 'i', 'n'], now, today, seconds)
            &&& means_seconds(amount + gap + seq!['m', 'i', 'n', 's'], now, today, seconds)
            &&& means_seconds(amount + gap + seq!['m', 'i', 'n', 'u', 't', 'e'], now, today, seconds)
            &&& means_seconds(amount + gap + seq!['m', 'i', 'n', 'u', 't', 'e', 's'], now, today, seconds)
        },
        decimal(amount) * 3600 <= u64::MAX ==> {
            let seconds = decimal(amount) * 3600 as int;
            &&& means_seconds(amount + gap + seq!['h'], now, today, seconds)
            &&& means_seconds(amount + gap + seq!['h', 'r'], now, today, seconds)
            &&& means_seconds(amount + gap + seq!['h', 'r', 's'], now, today, seconds)
            &&& means_seconds(amount + gap + seq!['h', 'o', 'u', 'r'], now, today, seconds)
            &&& means_seconds(amount + gap + seq!['h', 'o', 'u', 'r', 's'], now, today, seconds)
        },
        decimal(amount) * 86400 <= u64::MAX ==> {
            let seconds = decimal(amount) * 86400 as int;
            &&& means_seconds(amount + gap + seq!['d'], now, today, seconds)
            &&& means_seconds(amount + gap + seq!['d', 'a', 'y'], now, today, seconds)
            &&& means_seconds(amount + gap + seq!['d', 'a', 'y', 's'], now, today, seconds)
        },
{
    lemma_unit_spelling(amount, gap, seq!['s'], 1, now, today);
    lemma_unit_spelling(amount, gap, seq!['s', 'e', 'c'], 1, now, today);
    lemma_unit_spelling(amount, gap, seq!['s', 'e', 'c', 's'], 1, now, today);
    lemma_unit_spelling(amount, gap, seq!['s', 'e', 'c', 'o', 'n', 'd'], 1, now, today);
    lemma_unit_spelling(amount, gap, seq!['s', 'e', 'c', 'o', 'n', 'd', 's'], 1, now, today);
    assert(seq!['m'][0] != seq!['s'][0]);
    lemma_unit_spelling(amount, gap, seq!['m'], 60, now, today);
    lemma_unit_spelling(amount, gap, seq!['m', 'i', 'n'], 60, now, today);
    lemma_unit_spelling(amount, gap, seq!['m', 'i', 'n', 's'], 60, now, today);
    lemma_unit_spelling(amount, gap, seq!['m', 'i', 'n', 'u', 't', 'e'], 60, now, today);
    lemma_unit_spelling(amount, gap, seq!['m', 'i', 'n', 'u', 't', 'e', 's'], 60, now, today);
    assert(seq!['h'][0] != seq!['s'][0] && seq!['h'][0] != seq!['m'][0]);
    lemma_unit_spelling(amount, gap, seq!['h'], 3600, now, today);
    lemma_unit_spelling(amount, gap, seq!['h', 'r'], 3600, now, today);
    lemma_unit_spelling(amount, gap, seq!['h', 'r', 's'], 3600, now, today);
    lemma_unit_spelling(amount, gap, seq!['h', 'o', 'u', 'r'], 3600, now, today);
    lemma_unit_spelling(amount, gap, seq!['h', 'o', 'u', 'r', 's'], 3600, now, today);
    assert(seq!['d'][0] != seq!['s'][0] && seq!['d'][0] != seq!['m'][0] && seq!['d'][0] != seq!['h'][0]);
    lemma_unit_spelling(amount, gap, seq!['d'], 86400, now, today);
    lemma_unit_spelling(amount, gap, seq!['d', 'a', 'y'], 86400, now, today);
    lemma_unit_spelling(amount, gap, seq!['d', 'a', 'y', 's'], 86400, now, today);
}

/// What `input` means, read `now` seconds into the day `today`, is a moment after now that lands
/// at `clock` on the weekday `weekday` (Sunday being 0).
#[verifier::opaque]
pub open spec fn lands_on(input: Seq<char>, now: int, today: int, weekday: int, clock: int) -> bool {
    when_of(input, now, today) matches Some(delay) && {
        let moment = now + delay;
        &&& delay > 0
        &&& moment % (DAY as int) == clock
        &&& (today + moment / (DAY as int)) % 7 == weekday
    }
}

/// A day name on its own is read as that day at 09:00.
proof fn lemma_bare_day_name(word: Seq<char>, wanted: int, now: int, today: int)
    requires
        weekday_of(word) == Some(wanted),
        0 <= now < DAY,
        0 <= today < 7,
    ensures
        lands_on(word, now, today, wanted, DEFAULT_MORNING as int),
{
    reveal(lands_on);
    assert forall|i: int| 0 <= i < word.len() implies is_lower_letter(#[trigger] word[i]) by {
        if i == 0 {
        } else if i == 1 {
        } else if i == 2 {
        } else if i == 3 {
        } else if i == 4 {
        } else if i == 5 {
        } else if i == 6 {
        } else if i == 7 {
        } else {
        }
    }
    lemma_reads_as_itself(word);
    crate::text::lemma_leading_is(word, CharClass::Not(' '), word.len() as int);
    assert(first_word(word) == (word, Seq::<char>::empty()));
    lemma_day_name_text(word);
    let empty = Seq::<char>::empty();
    assert(trimmed(empty).len() == 0);
    assert(clock_after_day(empty) == Some(DEFAULT_MORNING as int));
    assert(when_of(word, now, today) == Some(
        delay_to_weekday(wanted, DEFAULT_MORNING as int, today, now, false),
    ));
    lemma_day_name_lands_on_that_day(wanted, DEFAULT_MORNING as int, today, now, false);
}

/// Each day name, written out or cut short, lands at 09:00 on the day it names, Sunday being
/// day 0 and Saturday day 6, whatever the time and day it is read on.
#[verifier::spinoff_prover]
pub proof fn lemma_day_names_land_on_their_days(now: int, today: int)
    requires
        0 <= now < DAY,
        0 <= today < 7,
    ensures
        ({
            let at = DEFAULT_MORNING as int;
            &&& lands_on(seq!['s', 'u', 'n', 'd', 'a', 'y'], now, today, 0, at)
            &&& lands_on(seq!['s', 'u', 'n'], now, today, 0, at)
            &&& lands_on(seq!['m', 'o', 'n', 'd', 'a', 'y'], now, today, 1, at)
            &&& lands_on(seq!['m', 'o', 'n'], now, today, 1, at)
            &&& lands_on(seq!['t', 'u', 'e', 's', 'd', 'a', 'y'], now, today, 2, at)
            &&& lands_on(seq!['t', 'u', 'e'], now, today, 2, at)
            &&& lands_on(seq!['t', 'u', 'e', 's'], now, today, 2, at)
            &&& lands_on(seq!['w', 'e', 'd', 'n', 'e', 's', 'd', 'a', 'y'], now, today, 3, at)
            &&& lands_on(seq!['w', 'e', 'd'], now, today, 3, at)
            &&& lands_on(seq!['t', 'h', 'u', 'r', 's', 'd', 'a', 'y'], now, today, 4, at)
            &&& lands_on(seq!['t', 'h', 'u'], now, today, 4, at)
            &&& lands_on(seq!['t', 'h', 'u', 'r'], now, today, 4, at)
            &&& lands_on(seq!['t', 'h', 'u', 'r', 's'], now, today, 4, at)
            &&& lands_on(seq!['f', 'r', 'i', 'd', 'a', 'y'], now, today, 5, at)
            &&& lands_on(seq!['f', 'r', 'i'], now, today, 5, at)
            &&& lands_on(seq!['s', 'a', 't', 'u', 'r', 'd', 'a', 'y'], now, today, 6, at)
            &&& lands_on(seq!['s', 'a', 't'], now, today, 6, at)
        }),
{
    lemma_bare_day_name(seq!['s', 'u', 'n', 'd', 'a', 'y'], 0, now, today);
    lemma_bare_day_name(seq!['s', 'u', 'n'], 0, now, today);
    lemma_bare_day_name(seq!['m', 'o', 'n', 'd', 'a', 'y'], 1, now, today);
    lemma_bare_day_name(seq!['m', 'o', 'n'], 1, now, today);
    lemma_bare_day_name(seq!['t', 'u', 'e', 's', 'd', 'a', 'y'], 2, now, today);
    lemma_bare_day_name(seq!['t', 'u', 'e'], 2, now, today);
    lemma_bare_day_name(seq!['t', 'u', 'e', 's'], 2, now, today);
    lemma_bare_day_name(seq!['w', 'e', 'd', 'n', 'e', 's', 'd', 'a', 'y'], 3, now, today);
    lemma_bare_day_name(seq!['w', 'e', 'd'], 3, now, today);
    lemma_bare_day_name(seq!['t', 'h', 'u', 'r', 's', 'd', 'a', 'y'], 4, now, today);
    lemma_bare_day_name(seq!['t', 'h', 'u'], 4, now, today);
    lemma_bare_day_name(seq!['t', 'h', 'u', 'r'], 4, now, today);
    lemma_bare_day_name(seq!['t', 'h', 'u', 'r', 's'], 4, now, today);
    lemma_bare_day_name(seq!['f', 'r', 'i', 'd', 'a', 'y'], 5, now, today);
    lemma_bare_day_name(seq!['f', 'r', 'i'], 5, now, today);
    lemma_bare_day_name(seq!['s', 'a', 't', 'u', 'r', 'd', 'a', 'y'], 6, now, today);
    lemma_bare_day_name(seq!['s', 'a', 't'], 6, now, today);
}

proof fn lemma_next_moves_only_today_when_read(wanted: int, rest: Seq<char>, today: int, now: int)
    requires
        0 <= now < DAY,
        0 <= today < 7,
        0 <= wanted < 7,
    ensures
        clock_after_day(rest) matches Some(clock) ==> {
            let plain = delay_to_weekday(wanted, clock, today, now, false);
            delay_to_weekday(wanted, clock, today, now, true) == if now + plain < DAY {
                plain + 7 * DAY
            } else {
                plain
            }
        },
{
    lemma_clock_after_day_in_day(rest);
    if let Some(clock) = clock_after_day(rest) {
        lemma_next_moves_only_today(wanted, clock, today, now);
    }
}

/// Reads a time expression against the given time of day (seconds since midnight) and weekday
/// (Sunday is 0), and answers how many seconds from then it means.
pub fn parse_when_at(input: &str, now: u32, today: u16) -> (r: Option<u64>)
    requires
        now < DAY,
        today < 7,
    ensures
        r is Some <==> when_of(input@, now as int, today as int) is Some,
        r matches Some(seconds) ==> when_of(input@, now as int, today as int) == Some(seconds as int),
{
    let characters = chars_of(input);
    let lowered_text = to_ascii_lowercase(trim(characters.as_slice()));
    let text = lowered_text.as_slice();
    let tomorrow: &[char] = &['t', 'o', 'm', 'o', 'r', 'r', 'o', 'w'];
    let today_word: &[char] = &['t', 'o', 'd', 'a', 'y'];
    let next: &[char] = &['n', 'e', 'x', 't', ' '];
    let at: &[char] = &['a', 't', ' '];

    match strip_prefix(text, tomorrow) {
        Some(rest) => {
            return match clock_after_day_word(rest) {
                Some(clock) => Some(delay_until(clock, now, true)),
                None => None,
            };
        },
        None => {},
    }
    match strip_prefix(text, today_word) {
        Some(rest) => {
            return match clock_after_day_word(rest) {
                Some(clock) => Some(delay_until(clock, now, false)),
                None => None,
            };
        },
        None => {},
    }

    // `next friday` and `friday` take the same clock time after them as `tomorrow` does.
    let (after_next, not_today) = match strip_prefix(text, next) {
        Some(rest) => (trim_start(rest), true),
        None => (text, false),
    };
    let (word, rest) = split_first_word(after_next);
    match weekday_number(word) {
        Some(wanted) => {
            return match clock_after_day_word(rest) {
                Some(clock) => Some(delay_until_weekday(wanted, clock, today, now, not_today)),
                None => None,
            };
        },
        None => {},
    }

    match strip_prefix(text, at) {
        Some(rest) => {
            return match parse_clock(trim(rest)) {
                Some(clock) => Some(delay_until(clock, now, false)),
                None => None,
            };
        },
        None => {},
    }
    parse_duration(text)
}

/// How long from `now` until `target`, rolling over to the next day when the time has passed.
pub fn delay_until(target: u32, now: u32, next_day: bool) -> (r: u64)
    requires
        target < DAY,
        now < DAY,
    ensures
        r == delay_to(target as int, now as int, next_day),
{
    let mut seconds: i64 = target as i64 - now as i64;
    if next_day || seconds <= 0 {
        seconds += DAY as i64;
    }
    seconds as u64
}

/// How long from now until `clock` on the next `wanted` weekday.
///
/// `next` rules today out and does nothing else: it never pushes the reminder a further week.
/// Of the two readings of "next friday", being reminded a week early is the mistake you can see
/// and snooze, while being reminded a week late is one you cannot.
pub fn delay_until_weekday(wanted: u16, clock: u32, today: u16, now: u32, not_today: bool) -> (r: u64)
    requires
        wanted < 7,
        today < 7,
        clock < DAY,
        now < DAY,
    ensures
        r == delay_to_weekday(wanted as int, clock as int, today as int, now as int, not_today),
{
    let mut days: u32 = ((wanted + 7 - today) % 7) as u32;
    assert(days < 7);
    assert(days as i64 * DAY as i64 <= 7 * 86400) by (nonlinear_arith)
        requires
            days < 7;
    if days == 0 && (not_today || clock <= now) {
        days = 7;
    }
    assert(days <= 7);
    let seconds: i64 = days as i64 * DAY as i64 + clock as i64 - now as i64;
    seconds as u64
}

/// Sunday is 0, matching the weekday Windows reports in SYSTEMTIME.
fn weekday_number(word: &[char]) -> (r: Option<u16>)
    ensures
        r is Some <==> weekday_of(word@) is Some,
        r matches Some(n) ==> weekday_of(word@) == Some(n as int) && n < 7,
{
    if same_chars(word, &['s', 'u', 'n', 'd', 'a', 'y']) || same_chars(word, &['s', 'u', 'n']) {
        Some(0)
    } else if same_chars(word, &['m', 'o', 'n', 'd', 'a', 'y']) || same_chars(word, &['m', 'o', 'n']) {
        Some(1)
    } else if same_chars(word, &['t', 'u', 'e', 's', 'd', 'a', 'y']) || same_chars(word, &['t', 'u', 'e'])
        || same_chars(word, &['t', 'u', 'e', 's']) {
        Some(2)
    } else if same_chars(word, &['w', 'e', 'd', 'n', 'e', 's', 'd', 'a', 'y']) || same_chars(
        word,
        &['w', 'e', 'd'],
    ) {
        Some(3)
    } else if same_chars(word, &['t', 'h', 'u', 'r', 's', 'd', 'a', 'y']) || same_chars(word, &['t', 'h', 'u'])
        || same_chars(word, &['t', 'h', 'u', 'r']) || same_chars(word, &['t', 'h', 'u', 'r', 's']) {
        Some(4)
    } else if same_chars(word, &['f', 'r', 'i', 'd', 'a', 'y']) || same_chars(word, &['f', 'r', 'i']) {
        Some(5)
    } else if same_chars(word, &['s', 'a', 't', 'u', 'r', 'd', 'a', 'y']) || same_chars(word, &['s', 'a', 't']) {
        Some(6)
    } else {
        None
    }
}

fn split_first_word(text: &[char]) -> (r: (&[char], &[char]))
    ensures
        (r.0@, r.1@) == first_word(text@),
{
    match split_once(text, ' ') {
        Some((word, rest)) => (word, rest),
        None => (text, &text[text.len()..text.len()]),
    }
}

/// The clock time following `tomorrow` or `today`, which may be absent, bare, or after `at`.
fn clock_after_day_word(rest: &[char]) -> (r: Option<u32>)
    ensures
        r is Some <==> clock_after_day(rest@) is Some,
        r matches Some(c) ==> clock_after_day(rest@) == Some(c as int) && c < DAY,
{
    proof {
        lemma_clock_after_day_in_day(rest@);
    }
    let rest = trim(rest);
    if rest.len() == 0 {
        return Some(DEFAULT_MORNING);
    }
    let at: &[char] = &['a', 't'];
    let clock = match strip_prefix(rest, at) {
        Some(after) => after,
        None => rest,
    };
    parse_clock(trim(clock))
}

/// Seconds since midnight for `15:00`, `3pm`, `3:30 pm` or `9`.
pub fn parse_clock(text: &[char]) -> (r: Option<u32>)
    ensures
        r is Some <==> clock_of(text@) is Some,
        r matches Some(c) ==> clock_of(text@) == Some(c as int) && c < DAY,
{
    let pm: &[char] = &['p', 'm'];
    let am: &[char] = &['a', 'm'];
    let (digits, afternoon) = match strip_suffix(text, pm) {
        Some(rest) => (trim_end(rest), Some(true)),
        None => match strip_suffix(text, am) {
            Some(rest) => (trim_end(rest), Some(false)),
            None => (text, None),
        },
    };

    let zero: &[char] = &['0'];
    assert(zero@ == seq!['0']);
    assert(pm@ == word_pm() && am@ == word_am());
    let (hours, minutes) = match split_once(digits, ':') {
        Some((hours, minutes)) => (trim(hours), trim(minutes)),
        None => (trim(digits), zero),
    };
    let hour = match parse_u32(hours) {
        Some(hour) => hour,
        None => return None,
    };
    let minute = match parse_u32(minutes) {
        Some(minute) => minute,
        None => return None,
    };
    if minute > 59 {
        return None;
    }

    // On a 12 hour clock noon and midnight are both written 12.
    let hour = match afternoon {
        Some(true) => if hour == 12 {
            12
        } else if hour < 12 {
            hour + 12
        } else {
            return None;
        },
        Some(false) => if hour == 12 {
            0
        } else if hour < 12 {
            hour
        } else {
            return None;
        },
        None => if hour < 24 {
            hour
        } else {
            return None;
        },
    };
    Some(hour * 3600 + minute * 60)
}

/// Reads one or more `<amount><unit>` groups, such as `40m` or `1h 30m`.
pub fn parse_duration(input: &[char]) -> (r: Option<u64>)
    ensures
        r is Some <==> duration_of(input@) is Some,
        r matches Some(s) ==> duration_of(input@) == Some(s as int),
{
    let in_word: &[char] = &['i', 'n', ' '];
    let stripped = match strip_prefix(input, in_word) {
        Some(rest) => rest,
        None => input,
    };
    let expression = trim_start(stripped);
    assert(expression@ == duration_text(input@));
    if expression.len() == 0 {
        return None;
    }
    assert(expression@.skip(0) == expression@);

    let mut position: usize = 0;
    let mut seconds: u64 = 0;
    while position < expression.len()
        invariant
            position <= expression@.len(),
            expression@.len() > 0,
            expression@ == duration_text(input@),
            match groups_total(expression@.skip(position as int)) {
                Some(rest) => groups_total(expression@) == Some(seconds + rest),
                None => groups_total(expression@) is None,
            },
        decreases expression.len() - position,
    {
        let rest = &expression[position..expression.len()];
        assert(rest@ == expression@.skip(position as int));
        let spaces = count_leading(rest, &CharClass::Space);
        proof {
            lemma_leading(rest@, CharClass::Space);
        }
        if spaces == rest.len() {
            // Nothing but spaces is left, which adds nothing.
            assert(groups_total(rest@) == Some(0int));
            position = expression.len();
            assert(expression@.skip(position as int).len() == 0);
            assert(groups_total(expression@.skip(position as int)) == Some(0int));
        } else {
            // An empty amount, or an empty unit, fails here: a bare number is rejected rather
            // than guessed at.
            let (digits, unit, used) = match read_group(rest) {
                Some(group) => group,
                None => return None,
            };
            proof {
                lemma_front_group(rest@);
            }
            let ghost tail = groups_total(rest@.skip(used as int));
            let ghost group = decimal(digits@) * unit;
            proof {
                lemma_groups_total_nonnegative(rest@.skip(used as int));
                assert(group >= decimal(digits@)) by (nonlinear_arith)
                    requires
                        unit >= 1,
                        group == decimal(digits@) * unit,
                ;
                assert(groups_total(rest@) == match tail {
                    Some(more) => Some(group + more),
                    None => None,
                });
            }
            let amount = match decimal_u64(digits) {
                Some(amount) => amount,
                None => return None,
            };
            let added = match amount.checked_mul(unit) {
                Some(product) => seconds.checked_add(product),
                None => None,
            };
            match added {
                Some(total) => {
                    seconds = total;
                },
                None => return None,
            }
            assert(rest@.skip(used as int) == expression@.skip(position + used));
            position = position + used;
        }
    }
    assert(expression@.skip(position as int).len() == 0);
    Some(seconds)
}

/// The group at the front of `s`, which must hold more than spaces.
fn read_group(s: &[char]) -> (r: Option<(&[char], u64, usize)>)
    requires
        leading(s@, CharClass::Space) < s@.len(),
    ensures
        r is Some <==> front_group(s@) is Some,
        r matches Some((digits, unit, used)) ==> front_group(s@) == Some(
            (digits@, unit as int, used as int),
        ),
{
    let spaces = count_leading(s, &CharClass::Space);
    proof {
        lemma_leading(s@, CharClass::Space);
    }
    let a = &s[spaces..s.len()];
    let digits = count_leading(a, &CharClass::Digit);
    proof {
        lemma_leading(a@, CharClass::Digit);
    }
    if digits == 0 {
        return None;
    }
    let b = &a[digits..a.len()];
    let gap = count_leading(b, &CharClass::Space);
    proof {
        lemma_leading(b@, CharClass::Space);
    }
    let c = &b[gap..b.len()];
    let letters = count_leading(c, &CharClass::Letter);
    proof {
        lemma_leading(c@, CharClass::Letter);
    }
    match unit_seconds(&c[0..letters]) {
        Some(unit) => Some((&a[0..digits], unit, spaces + digits + gap + letters)),
        None => None,
    }
}

fn unit_seconds(unit: &[char]) -> (r: Option<u64>)
    ensures
        r is Some <==> unit_of(unit@) is Some,
        r matches Some(s) ==> unit_of(unit@) == Some(s as int) && s >= 1,
{
    if seconds_word(unit) {
        Some(1)
    } else if minutes_word(unit) {
        Some(60)
    } else if hours_word(unit) {
        Some(3600)
    } else if days_word(unit) {
        Some(86400)
    } else {
        None
    }
}

fn seconds_word(unit: &[char]) -> (b: bool)
    ensures
        b == (unit@ == seq!['s']
            || unit@ == seq!['s', 'e', 'c']
            || unit@ == seq!['s', 'e', 'c', 's']
            || unit@ == seq!['s', 'e', 'c', 'o', 'n', 'd']
            || unit@ == seq!['s', 'e', 'c', 'o', 'n', 'd', 's']),
{
    let w0: &[char] = &['s'];
    assert(w0@ == seq!['s']);
    let w1: &[char] = &['s', 'e', 'c'];
    assert(w1@ == seq!['s', 'e', 'c']);
    let w2: &[char] = &['s', 'e', 'c', 's'];
    assert(w2@ == seq!['s', 'e', 'c', 's']);
    let w3: &[char] = &['s', 'e', 'c', 'o', 'n', 'd'];
    assert(w3@ == seq!['s', 'e', 'c', 'o', 'n', 'd']);
    let w4: &[char] = &['s', 'e', 'c', 'o', 'n', 'd', 's'];
    assert(w4@ == seq!['s', 'e', 'c', 'o', 'n', 'd', 's']);
    same_chars(unit, w0) || same_chars(unit, w1) || same_chars(unit, w2) || same_chars(unit, w3) || same_chars(unit, w4)
}

fn minutes_word(unit: &[char]) -> (b: bool)
    ensures
        b == (unit@ == seq!['m']
            || unit@ == seq!['m', 'i', 'n']
            || unit@ == seq!['m', 'i', 'n', 's']
            || unit@ == seq!['m', 'i', 'n', 'u', 't', 'e']
            || unit@ == seq!['m', 'i', 'n', 'u', 't', 'e', 's']),
{
    let w0: &[char] = &['m'];
    assert(w0@ == seq!['m']);
    let w1: &[char] = &['m', 'i', 'n'];
    assert(w1@ == seq!['m', 'i', 'n']);
    let w2: &[char] = &['m', 'i', 'n', 's'];
    assert(w2@ == seq!['m', 'i', 'n', 's']);
    let w3: &[char] = &['m', 'i', 'n', 'u', 't', 'e'];
    assert(w3@ == seq!['m', 'i', 'n', 'u', 't', 'e']);
    let w4: &[char] = &['m', 'i', 'n', 'u', 't', 'e', 's'];
    assert(w4@ == seq!['m', 'i', 'n', 'u', 't', 'e', 's']);
    same_chars(unit, w0) || same_chars(unit, w1) || same_chars(unit, w2) || same_chars(unit, w3) || same_chars(unit, w4)
}

fn hours_word(unit: &[char]) -> (b: bool)
    ensures
        b == (unit@ == seq!['h']
            || unit@ == seq!['h', 'r']
            || unit@ == seq!['h', 'r', 's']
            || unit@ == seq!['h', 'o', 'u', 'r']
            || unit@ == seq!['h', 'o', 'u', 'r', 's']),
{
    let w0: &[char] = &['h'];
    assert(w0@ == seq!['h']);
    let w1: &[char] = &['h', 'r'];
    assert(w1@ == seq!['h', 'r']);
    let w2: &[char] = &['h', 'r', 's'];
    assert(w2@ == seq!['h', 'r', 's']);
    let w3: &[char] = &['h', 'o', 'u', 'r'];
    assert(w3@ == seq!['h', 'o', 'u', 'r']);
    let w4: &[char] = &['h', 'o', 'u', 'r', 's'];
    assert(w4@ == seq!['h', 'o', 'u', 'r', 's']);
    same_chars(unit, w0) || same_chars(unit, w1) || same_chars(unit, w2) || same_chars(unit, w3) || same_chars(unit, w4)
}

fn days_word(unit: &[char]) -> (b: bool)
    ensures
        b == (unit@ == seq!['d']
            || unit@ == seq!['d', 'a', 'y']
            || unit@ == seq!['d', 'a', 'y', 's']),
{
    let w0: &[char] = &['d'];
    assert(w0@ == seq!['d']);
    let w1: &[char] = &['d', 'a', 'y'];
    assert(w1@ == seq!['d', 'a', 'y']);
    let w2: &[char] = &['d', 'a', 'y', 's'];
    assert(w2@ == seq!['d', 'a', 'y', 's']);
    same_chars(unit, w0) || same_chars(unit, w1) || same_chars(unit, w2)
}

} // verus!
