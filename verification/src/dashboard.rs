//! What the dashboard answers: a page listing the reminders, the list itself as JSON, and the
//! changes the page asks for.
//!
//! The HTTP around it is only as much as a browser on the same machine needs, and lives with
//! the socket. Here is what a request means: `GET /` is the page, `GET /reminders` the list, and
//! `POST /reminders/3/done`, `/reminders/3/pending` or `/reminders/3/snooze/30` change one
//! reminder. Anything else is not found.

use vstd::prelude::*;

use crate::reminder::{due_after, Reminder, State};
use crate::text::{
    chars_of, count_leading, decimal_chars, decimal_digits, leading, lemma_leading, parse_u64,
    parsed_u64, push_all, push_str, same_chars, split_at_first, split_once, string_of, CharClass,
};

verus! {

/// A reply: its status line, its content type and its body.
pub struct Answer {
    pub status: &'static str,
    pub kind: &'static str,
    pub body: String,
}

impl Answer {
    pub fn html(body: &str) -> (answer: Self)
        ensures
            answer.status@ == "200 OK"@,
            answer.kind@ == "text/html; charset=utf-8"@,
            answer.body@ == body@,
    {
        Self { status: "200 OK", kind: "text/html; charset=utf-8", body: string_of(chars_of(body).as_slice()) }
    }

    pub fn json(body: String) -> (answer: Self)
        ensures
            answer.status@ == "200 OK"@,
            answer.kind@ == "application/json; charset=utf-8"@,
            answer.body@ == body@,
    {
        Self { status: "200 OK", kind: "application/json; charset=utf-8", body }
    }

    pub fn missing() -> (answer: Self)
        ensures
            answer.status@ == "404 Not Found"@,
            answer.kind@ == "text/plain; charset=utf-8"@,
            answer.body@ == "no such thing here\n"@,
    {
        Self {
            status: "404 Not Found",
            kind: "text/plain; charset=utf-8",
            body: string_of(chars_of("no such thing here\n").as_slice()),
        }
    }
}

pub open spec fn hex_digit(d: nat) -> char {
    if d < 10 {
        (d + '0' as u32) as char
    } else {
        (d - 10 + 'a' as u32) as char
    }
}

/// How one character of a reminder's text is written inside a JSON string. Anything below a
/// space would end the string early or be read as a control code, so it is written by number.
pub open spec fn json_escape_of(c: char) -> Seq<char> {
    if c == '"' {
        seq!['\\', '"']
    } else if c == '\\' {
        seq!['\\', '\\']
    } else if c == '\n' {
        seq!['\\', 'n']
    } else if c == '\r' {
        seq!['\\', 'r']
    } else if c == '\t' {
        seq!['\\', 't']
    } else if (c as u32) < 0x20 {
        seq!['\\', 'u', '0', '0', hex_digit((c as u32 / 16) as nat), hex_digit((c as u32 % 16) as nat)]
    } else {
        seq![c]
    }
}

pub open spec fn json_escaped(text: Seq<char>) -> Seq<char>
    decreases text.len(),
{
    if text.len() == 0 {
        Seq::empty()
    } else {
        json_escape_of(text[0]) + json_escaped(text.drop_first())
    }
}

pub open spec fn json_bool(b: bool) -> Seq<char> {
    if b {
        seq!['t', 'r', 'u', 'e']
    } else {
        seq!['f', 'a', 'l', 's', 'e']
    }
}

/// One reminder as the page wants it. The time is sent as an instant and turned into something
/// readable in the browser, which already knows the reader's clock and language.
pub open spec fn json_item(index: nat, reminder: (u64, State, u32, Seq<char>)) -> Seq<char> {
    "{\"index\":"@ + decimal_digits(index) + ",\"due\":"@ + decimal_digits(reminder.0 as nat)
        + ",\"snoozes\":"@ + decimal_digits(reminder.2 as nat) + ",\"done\":"@ + json_bool(
        reminder.1 == State::Done,
    ) + ",\"text\":\""@ + json_escaped(reminder.3) + "\"}"@
}

/// The items of the first `count` reminders, separated by commas.
pub open spec fn json_items(reminders: Seq<(u64, State, u32, Seq<char>)>) -> Seq<char>
    decreases reminders.len(),
{
    if reminders.len() == 0 {
        Seq::empty()
    } else if reminders.len() == 1 {
        json_item(0, reminders[0])
    } else {
        json_items(reminders.drop_last()) + seq![','] + json_item(
            (reminders.len() - 1) as nat,
            reminders.last(),
        )
    }
}

/// Every reminder, with its index, as a JSON array.
pub open spec fn json_list(reminders: Seq<(u64, State, u32, Seq<char>)>) -> Seq<char> {
    seq!['['] + json_items(reminders) + seq![']']
}

/// The list is a JSON array with one item per reminder, each item after the first set off from
/// the one before by a single comma: no reminders give `[]`, one gives `[` and its item and `]`,
/// and one more reminder adds a comma and its item, numbered by its place, before the closing
/// bracket.
pub proof fn lemma_list_items_are_comma_separated(
    reminders: Seq<(u64, State, u32, Seq<char>)>,
    reminder: (u64, State, u32, Seq<char>),
)
    ensures
        json_list(Seq::empty()) == seq!['[', ']'],
        json_list(seq![reminder]) == seq!['['] + json_item(0, reminder) + seq![']'],
        reminders.len() > 0 ==> json_list(reminders.push(reminder)) == json_list(reminders).drop_last()
            + seq![','] + json_item(reminders.len(), reminder) + seq![']'],
{
    assert(json_list(Seq::empty()) == seq!['[', ']']);
    assert(json_list(seq![reminder]) == seq!['['] + json_item(0, reminder) + seq![']']);
    if reminders.len() > 0 {
        let more = reminders.push(reminder);
        assert(more.drop_last() == reminders);
        assert(json_list(reminders).drop_last() == seq!['['] + json_items(reminders));
    }
}

pub proof fn lemma_json_escaped_append(a: Seq<char>, b: Seq<char>)
    ensures
        json_escaped(a + b) == json_escaped(a) + json_escaped(b),
    decreases a.len(),
{
    if a.len() == 0 {
        assert(a + b == b);
        assert(json_escaped(a) == Seq::<char>::empty());
        assert(Seq::<char>::empty() + json_escaped(b) == json_escaped(b));
    } else {
        assert((a + b).drop_first() == a.drop_first() + b);
        assert((a + b)[0] == a[0]);
        lemma_json_escaped_append(a.drop_first(), b);
        assert(json_escape_of(a[0]) + (json_escaped(a.drop_first()) + json_escaped(b)) == (
        json_escape_of(a[0]) + json_escaped(a.drop_first())) + json_escaped(b));
    }
}

/// Escaped text stays inside its JSON string: it holds no control character, and every quote in
/// it is escaped, so none of them ends the string early.
pub proof fn lemma_json_escaped_stays_in_string(text: Seq<char>)
    ensures
        forall|i: int| 0 <= i < json_escaped(text).len() ==> (#[trigger] json_escaped(text)[i]) as u32 >= 0x20,
        forall|i: int|
            0 <= i < json_escaped(text).len() && #[trigger] json_escaped(text)[i] == '"' ==> i > 0
                && json_escaped(text)[i - 1] == '\\',
        json_escaped(text).len() > 0 ==> json_escaped(text)[0] != '"',
    decreases text.len(),
{
    if text.len() > 0 {
        let c = text[0];
        let first = json_escape_of(c);
        let rest = json_escaped(text.drop_first());
        lemma_json_escaped_stays_in_string(text.drop_first());
        let all = first + rest;
        assert(json_escaped(text) == all);
        if (c as u32) < 0x20 && c != '\n' && c != '\r' && c != '\t' {
            let high = (c as u32 / 16) as nat;
            let low = (c as u32 % 16) as nat;
            assert(high < 16 && low < 16);
            assert(hex_digit(high) as u32 >= 0x30 && hex_digit(high) != '"');
            assert(hex_digit(low) as u32 >= 0x30 && hex_digit(low) != '"');
        }
        assert forall|i: int| 0 <= i < first.len() implies (#[trigger] first[i]) as u32 >= 0x20 && (first[i]
            == '"' ==> i > 0 && first[i - 1] == '\\') by {}
        assert forall|i: int| 0 <= i < all.len() implies (#[trigger] all[i]) as u32 >= 0x20 by {
            if i >= first.len() {
                assert(all[i] == rest[i - first.len()]);
            }
        }
        assert forall|i: int| 0 <= i < all.len() && #[trigger] all[i] == '"' implies i > 0 && all[i - 1]
            == '\\' by {
            if i >= first.len() {
                assert(all[i] == rest[i - first.len()]);
                if i > first.len() {
                    assert(all[i - 1] == rest[i - 1 - first.len()]);
                }
            } else {
                assert(all[i] == first[i]);
                if i > 0 {
                    assert(all[i - 1] == first[i - 1]);
                }
            }
        }
        assert(all[0] == first[0]);
    }
}

fn hex_digit_char(d: u32) -> (c: char)
    requires
        d < 16,
    ensures
        c == hex_digit(d as nat),
{
    if d < 10 {
        (d as u8 + 48u8) as char
    } else {
        (d as u8 - 10 + 97u8) as char
    }
}

/// Writes `text` as the inside of a JSON string.
pub fn escape(text: &str) -> (escaped: String)
    ensures
        escaped@ == json_escaped(text@),
{
    let characters = chars_of(text);
    let mut out: Vec<char> = Vec::new();
    let mut i: usize = 0;
    while i < characters.len()
        invariant
            i <= characters@.len(),
            characters@ == text@,
            out@ == json_escaped(characters@.take(i as int)),
        decreases characters.len() - i,
    {
        let c = characters[i];
        proof {
            lemma_json_escaped_append(characters@.take(i as int), seq![c]);
            assert(characters@.take(i + 1) == characters@.take(i as int) + seq![c]);
            assert(json_escaped(seq![c]) == json_escape_of(c)) by {
                assert(seq![c].drop_first() == Seq::<char>::empty());
                assert(seq![c][0] == c);
                assert(json_escaped(Seq::<char>::empty()) == Seq::<char>::empty());
                assert(json_escape_of(c) + Seq::<char>::empty() == json_escape_of(c));
            }
        }
        let ghost before = out@;
        let code = c as u32;
        if c == '"' {
            out.push('\\');
            out.push('"');
        } else if c == '\\' {
            out.push('\\');
            out.push('\\');
        } else if c == '\n' {
            out.push('\\');
            out.push('n');
        } else if c == '\r' {
            out.push('\\');
            out.push('r');
        } else if c == '\t' {
            out.push('\\');
            out.push('t');
        } else if code < 0x20 {
            out.push('\\');
            out.push('u');
            out.push('0');
            out.push('0');
            out.push(hex_digit_char(code / 16));
            out.push(hex_digit_char(code % 16));
        } else {
            out.push(c);
        }
        assert(out@ == before + json_escape_of(c));
        i += 1;
    }
    assert(characters@.take(characters@.len() as int) == characters@);
    string_of(out.as_slice())
}

fn push_item(out: &mut Vec<char>, index: usize, reminder: &Reminder)
    ensures
        final(out)@ == old(out)@ + json_item(index as nat, reminder@),
{
    push_str(out, "{\"index\":");
    push_all(out, decimal_chars(index as u64).as_slice());
    push_str(out, ",\"due\":");
    push_all(out, decimal_chars(reminder.due_unix).as_slice());
    push_str(out, ",\"snoozes\":");
    push_all(out, decimal_chars(reminder.snoozes as u64).as_slice());
    push_str(out, ",\"done\":");
    if reminder.state == State::Done {
        push_all(out, &['t', 'r', 'u', 'e']);
    } else {
        push_all(out, &['f', 'a', 'l', 's', 'e']);
    }
    push_str(out, ",\"text\":\"");
    let escaped = escape(reminder.text.as_str());
    push_all(out, chars_of(escaped.as_str()).as_slice());
    push_str(out, "\"}");
}

/// Every reminder, as the page wants them: a JSON array of objects with the reminder's index,
/// due instant, snooze count, whether it is done, and its text.
pub fn list(reminders: &Vec<Reminder>) -> (json: String)
    ensures
        json@ == json_list(reminders@.map_values(|r: Reminder| r@)),
{
    let ghost views = reminders@.map_values(|r: Reminder| r@);
    let mut out: Vec<char> = Vec::new();
    out.push('[');
    let mut i: usize = 0;
    assert(views.take(0) == Seq::<(u64, State, u32, Seq<char>)>::empty());
    while i < reminders.len()
        invariant
            i <= reminders@.len(),
            views == reminders@.map_values(|r: Reminder| r@),
            out@ == seq!['['] + json_items(views.take(i as int)),
        decreases reminders.len() - i,
    {
        let ghost before = out@;
        let ghost next = views.take(i + 1);
        assert(next.drop_last() == views.take(i as int));
        assert(next.last() == reminders@[i as int]@);
        if i > 0 {
            out.push(',');
        }
        push_item(&mut out, i, &reminders[i]);
        proof {
            if i == 0 {
                assert(json_items(views.take(0)) == Seq::<char>::empty());
                assert(out@ == seq!['['] + json_items(next));
            } else {
                assert(out@ == seq!['['] + (json_items(views.take(i as int)) + seq![','] + json_item(
                    i as nat,
                    next.last(),
                )));
            }
        }
        i += 1;
    }
    assert(views.take(reminders@.len() as int) == views);
    out.push(']');
    string_of(out.as_slice())
}

/// A change the page asks for.
#[derive(Clone, Copy, PartialEq, Eq, Structural, Debug)]
pub enum Change {
    Done,
    Pending,
    /// Pushed back this many minutes from now.
    Snooze(u64),
}

/// The first piece of `s` before a slash, and what follows the slash if there is one.
pub open spec fn first_piece(s: Seq<char>) -> (Seq<char>, Option<Seq<char>>) {
    match split_at_first(s, '/') {
        Some((piece, rest)) => (piece, Some(rest)),
        None => (s, None),
    }
}

/// Which reminder a `POST` target names and what it asks for: `/reminders/3/done`,
/// `/reminders/3/pending` or `/reminders/3/snooze/30`. Leading slashes are passed over and
/// anything after the parts that matter is ignored.
pub open spec fn requested(target: Seq<char>) -> Option<(nat, Change)> {
    let text = target.skip(leading(target, CharClass::Only('/')) as int);
    let (first, rest) = first_piece(text);
    if first != "reminders"@ || rest is None {
        None
    } else {
        let (index_text, rest) = first_piece(rest->0);
        match parsed_u64(index_text) {
            None => None,
            Some(index) => if index > usize::MAX || rest is None {
                None
            } else {
                let (action, rest) = first_piece(rest->0);
                if action == "done"@ {
                    Some((index, Change::Done))
                } else if action == "pending"@ {
                    Some((index, Change::Pending))
                } else if action == "snooze"@ && rest is Some {
                    match parsed_u64(first_piece(rest->0).0) {
                        Some(minutes) => Some((index, Change::Snooze(minutes as u64))),
                        None => None,
                    }
                } else {
                    None
                }
            },
        }
    }
}

/// `minutes` from `now`, held at the largest instant there is.
pub open spec fn snoozed_until(now: u64, minutes: u64) -> u64 {
    due_after(
        now,
        if minutes * 60 <= u64::MAX {
            (minutes * 60) as u64
        } else {
            u64::MAX
        },
    )
}

/// A reminder once the change has been made to it at `now`. A snooze moves it, makes it pending
/// again, and counts (up to the largest count there is).
pub open spec fn changed(reminder: (u64, State, u32, Seq<char>), change: Change, now: u64) -> (
    u64,
    State,
    u32,
    Seq<char>,
) {
    match change {
        Change::Done => (reminder.0, State::Done, reminder.2, reminder.3),
        Change::Pending => (reminder.0, State::Pending, reminder.2, reminder.3),
        Change::Snooze(minutes) => (
            snoozed_until(now, minutes),
            State::Pending,
            if reminder.2 < u32::MAX {
                (reminder.2 + 1) as u32
            } else {
                u32::MAX
            },
            reminder.3,
        ),
    }
}

/// A piece without a slash, followed by a slash, is split off whole; one with no slash after
/// it is all there is.
proof fn lemma_first_piece(piece: Seq<char>, rest: Seq<char>)
    requires
        forall|i: int| 0 <= i < piece.len() ==> #[trigger] piece[i] != '/',
    ensures
        first_piece(piece + seq!['/'] + rest) == (piece, Some(rest)),
        first_piece(piece) == (piece, None::<Seq<char>>),
{
    let class = CharClass::Not('/');
    let whole = piece + seq!['/'] + rest;
    assert forall|j: int| 0 <= j < piece.len() implies crate::text::in_class(#[trigger] whole[j], class) by {
        assert(whole[j] == piece[j]);
    }
    assert(whole[piece.len() as int] == '/');
    crate::text::lemma_leading_is(whole, class, piece.len() as int);
    assert(whole.take(piece.len() as int) == piece);
    assert(whole.skip(piece.len() + 1 as int) == rest);
    assert forall|j: int| 0 <= j < piece.len() implies crate::text::in_class(#[trigger] piece[j], class) by {}
    crate::text::lemma_leading_is(piece, class, piece.len() as int);
}

/// The digits of a number that fits in a `u64` read back as that number, and hold no slash.
proof fn lemma_number_reads_back(n: nat)
    requires
        n <= u64::MAX,
    ensures
        parsed_u64(decimal_digits(n)) == Some(n),
        forall|i: int| 0 <= i < decimal_digits(n).len() ==> #[trigger] decimal_digits(n)[i] != '/',
{
    crate::text::lemma_decimal_digits(n);
    assert forall|i: int| 0 <= i < decimal_digits(n).len() implies #[trigger] decimal_digits(n)[i] != '/' by {
        assert(crate::text::is_digit(decimal_digits(n)[i]));
    }
}

/// The target `/reminders/<digits>/<tail>` splits into the word, the digits and the tail.
proof fn lemma_target_pieces(digits: Seq<char>, tail: Seq<char>)
    requires
        forall|i: int| 0 <= i < digits.len() ==> #[trigger] digits[i] != '/',
    ensures
        ({
            let target = "/reminders/"@ + digits + seq!['/'] + tail;
            let text = target.skip(leading(target, CharClass::Only('/')) as int);
            &&& first_piece(text) == ("reminders"@, Some(digits + seq!['/'] + tail))
            &&& first_piece(digits + seq!['/'] + tail) == (digits, Some(tail))
        }),
{
    reveal_strlit("/reminders/");
    reveal_strlit("reminders");
    let slash = seq!['/'];
    let word = "reminders"@;
    let target = "/reminders/"@ + digits + slash + tail;
    assert forall|i: int| 0 <= i < word.len() implies #[trigger] word[i] != '/' by {}
    assert(target == slash + (word + slash + (digits + slash + tail)));
    crate::text::lemma_leading_is(target, CharClass::Only('/'), 1);
    assert(target.skip(1) == word + slash + (digits + slash + tail));
    lemma_first_piece(word, digits + slash + tail);
    lemma_first_piece(digits, tail);
}

/// Snoozing through the dashboard works for any reminder and any number of minutes: the target
/// the page writes for reminder `index` and `minutes` minutes asks for exactly that.
#[verifier::spinoff_prover]
#[verifier::rlimit(40)]
pub proof fn lemma_snooze_target_reads_back(index: nat, minutes: u64)
    requires
        index <= usize::MAX,
    ensures
        requested("/reminders/"@ + decimal_digits(index) + "/snooze/"@ + decimal_digits(minutes as nat))
            == Some((index, Change::Snooze(minutes))),
{
    reveal_strlit("/snooze/");
    reveal_strlit("snooze");
    reveal_strlit("done");
    reveal_strlit("pending");
    let digits = decimal_digits(index);
    let amount = decimal_digits(minutes as nat);
    lemma_number_reads_back(index);
    lemma_number_reads_back(minutes as nat);
    let snooze = "snooze"@;
    assert forall|i: int| 0 <= i < snooze.len() implies #[trigger] snooze[i] != '/' by {}
    let tail = snooze + seq!['/'] + amount;
    lemma_first_piece(snooze, amount);
    lemma_first_piece(amount, Seq::empty());
    lemma_target_pieces(digits, tail);
    assert("/reminders/"@ + digits + "/snooze/"@ + amount == "/reminders/"@ + digits + seq!['/'] + tail);
    assert(snooze != "done"@ && snooze != "pending"@);
    assert(first_piece(amount).0 == amount);
    assert((minutes as nat) as u64 == minutes);
}

/// The targets the page writes for marking reminder `index` done and pending ask for exactly
/// that.
#[verifier::spinoff_prover]
#[verifier::rlimit(40)]
pub proof fn lemma_done_and_pending_targets_read_back(index: nat)
    requires
        index <= usize::MAX,
    ensures
        requested("/reminders/"@ + decimal_digits(index) + "/done"@) == Some((index, Change::Done)),
        requested("/reminders/"@ + decimal_digits(index) + "/pending"@) == Some((index, Change::Pending)),
{
    reveal_strlit("/done");
    reveal_strlit("/pending");
    reveal_strlit("done");
    reveal_strlit("pending");
    let digits = decimal_digits(index);
    lemma_number_reads_back(index);
    let done = "done"@;
    let pending = "pending"@;
    assert forall|i: int| 0 <= i < done.len() implies #[trigger] done[i] != '/' by {}
    assert forall|i: int| 0 <= i < pending.len() implies #[trigger] pending[i] != '/' by {}
    lemma_first_piece(done, Seq::empty());
    lemma_first_piece(pending, Seq::empty());
    lemma_target_pieces(digits, done);
    lemma_target_pieces(digits, pending);
    assert("/reminders/"@ + digits + "/done"@ == "/reminders/"@ + digits + seq!['/'] + done);
    assert("/reminders/"@ + digits + "/pending"@ == "/reminders/"@ + digits + seq!['/'] + pending);
}

/// Marking a reminder done can be taken back: marking it pending again gives back the reminder
/// exactly as it was, and a change only ever touches the reminder's due instant, state and
/// snooze count, never its text.
pub proof fn lemma_done_can_be_taken_back(reminder: (u64, State, u32, Seq<char>), change: Change, now: u64)
    requires
        reminder.1 == State::Pending,
    ensures
        changed(changed(reminder, Change::Done, now), Change::Pending, now) == reminder,
        changed(reminder, change, now).3 == reminder.3,
{
}

fn split_piece(s: &[char]) -> (r: (&[char], Option<&[char]>))
    ensures
        (r.0@, match r.1 {
            Some(rest) => Some(rest@),
            None => None,
        }) == first_piece(s@),
{
    match split_once(s, '/') {
        Some((piece, rest)) => (piece, Some(rest)),
        None => (s, None),
    }
}

fn is_text(s: &[char], text: &str) -> (b: bool)
    ensures
        b == (s@ == text@),
{
    let characters = chars_of(text);
    same_chars(s, characters.as_slice())
}

fn read_request(target: &str) -> (r: Option<(usize, Change)>)
    ensures
        r is Some <==> requested(target@) is Some,
        r matches Some((index, change)) ==> requested(target@) == Some((index as nat, change)),
{
    let characters = chars_of(target);
    let all = characters.as_slice();
    let slashes = count_leading(all, &CharClass::Only('/'));
    proof {
        lemma_leading(all@, CharClass::Only('/'));
    }
    let text = &all[slashes..all.len()];
    let (first, rest) = split_piece(text);
    if !is_text(first, "reminders") {
        return None;
    }
    let rest = match rest {
        Some(rest) => rest,
        None => return None,
    };
    let (index_text, rest) = split_piece(rest);
    let index = match parse_u64(index_text) {
        Some(index) => index,
        None => return None,
    };
    if index > usize::MAX as u64 {
        return None;
    }
    let rest = match rest {
        Some(rest) => rest,
        None => return None,
    };
    let (action, rest) = split_piece(rest);
    if is_text(action, "done") {
        Some((index as usize, Change::Done))
    } else if is_text(action, "pending") {
        Some((index as usize, Change::Pending))
    } else if is_text(action, "snooze") {
        let rest = match rest {
            Some(rest) => rest,
            None => return None,
        };
        let (minutes_text, _) = split_piece(rest);
        match parse_u64(minutes_text) {
            Some(minutes) => Some((index as usize, Change::Snooze(minutes))),
            None => None,
        }
    } else {
        None
    }
}

/// Makes the change `target` asks for, at `now`. The reply is `{"ok":true}` when a reminder was
/// changed, and nothing when the target is not understood or names no reminder, in which case
/// nothing changes.
pub fn act(target: &str, reminders: &mut Vec<Reminder>, now: u64) -> (reply: Option<String>)
    ensures
        match requested(target@) {
            Some((index, change)) => if index < old(reminders)@.len() {
                &&& reply matches Some(body) && body@ == "{\"ok\":true}"@
                &&& final(reminders)@.map_values(|r: Reminder| r@) == old(reminders)@.map_values(
                    |r: Reminder| r@,
                ).update(index as int, changed(old(reminders)@[index as int]@, change, now))
            } else {
                &&& reply is None
                &&& final(reminders)@ == old(reminders)@
            },
            None => reply is None && final(reminders)@ == old(reminders)@,
        },
{
    let (index, change) = match read_request(target) {
        Some(request) => request,
        None => return None,
    };
    if index >= reminders.len() {
        return None;
    }
    let reminder = &reminders[index];
    let text = reminder.text.clone();
    let updated = match change {
        Change::Done => Reminder {
            due_unix: reminder.due_unix,
            state: State::Done,
            snoozes: reminder.snoozes,
            text,
        },
        Change::Pending => Reminder {
            due_unix: reminder.due_unix,
            state: State::Pending,
            snoozes: reminder.snoozes,
            text,
        },
        Change::Snooze(minutes) => Reminder {
            due_unix: now.saturating_add(
                match minutes.checked_mul(60) {
                    Some(seconds) => seconds,
                    None => u64::MAX,
                },
            ),
            state: State::Pending,
            snoozes: reminder.snoozes.saturating_add(1),
            text,
        },
    };
    assert(updated@ == changed(reminders@[index as int]@, change, now));
    let ghost before = reminders@;
    reminders.set(index, updated);
    assert(reminders@.map_values(|r: Reminder| r@) =~= before.map_values(|r: Reminder| r@).update(
        index as int,
        updated@,
    ));
    Some(string_of(chars_of("{\"ok\":true}").as_slice()))
}

/// The first two words of `line`, separated by whitespace: what `split_whitespace` gives first.
pub open spec fn first_two_words(line: Seq<char>) -> Option<(Seq<char>, Seq<char>)> {
    let a = line.skip(leading(line, CharClass::WhiteSpace) as int);
    let first = a.take(leading(a, CharClass::Visible) as int);
    let b = a.skip(leading(a, CharClass::Visible) as int);
    let c = b.skip(leading(b, CharClass::WhiteSpace) as int);
    let second = c.take(leading(c, CharClass::Visible) as int);
    if first.len() > 0 && second.len() > 0 {
        Some((first, second))
    } else {
        None
    }
}

/// The method and target of an HTTP request line, such as `GET` and `/reminders`.
pub fn method_and_target(line: &str) -> (r: Option<(String, String)>)
    ensures
        r is Some <==> first_two_words(line@) is Some,
        r matches Some((method, target)) ==> first_two_words(line@) == Some((method@, target@)),
{
    let characters = chars_of(line);
    let s = characters.as_slice();
    let lead = count_leading(s, &CharClass::WhiteSpace);
    proof {
        lemma_leading(s@, CharClass::WhiteSpace);
    }
    let a = &s[lead..s.len()];
    let first_length = count_leading(a, &CharClass::Visible);
    proof {
        lemma_leading(a@, CharClass::Visible);
    }
    let first = &a[0..first_length];
    let b = &a[first_length..a.len()];
    let gap = count_leading(b, &CharClass::WhiteSpace);
    proof {
        lemma_leading(b@, CharClass::WhiteSpace);
    }
    let c = &b[gap..b.len()];
    let second_length = count_leading(c, &CharClass::Visible);
    proof {
        lemma_leading(c@, CharClass::Visible);
    }
    let second = &c[0..second_length];
    if first.len() > 0 && second.len() > 0 {
        Some((string_of(first), string_of(second)))
    } else {
        None
    }
}

/// The answer to anything the dashboard does not serve.
pub open spec fn is_missing(answer: Answer) -> bool {
    &&& answer.status@ == "404 Not Found"@
    &&& answer.kind@ == "text/plain; charset=utf-8"@
    &&& answer.body@ == "no such thing here\n"@
}

/// What a request is answered with, and whether a reminder changed, which is when the message
/// loop has to work out afresh when the next one is due. `page` is the dashboard itself.
#[verifier::spinoff_prover]
#[verifier::rlimit(40)]
pub fn route(method: &str, target: &str, page: &str, reminders: &mut Vec<Reminder>, now: u64) -> (r: (
    Answer,
    bool,
))
    ensures
        method@ == "GET"@ && target@ == "/"@ ==> r.0.body@ == page@ && r.0.status@ == "200 OK"@
            && r.0.kind@ == "text/html; charset=utf-8"@ && !r.1 && final(reminders)@ == old(
            reminders,
        )@,
        method@ == "GET"@ && target@ == "/reminders"@ ==> r.0.body@ == json_list(
            old(reminders)@.map_values(|r: Reminder| r@),
        ) && r.0.status@ == "200 OK"@ && r.0.kind@ == "application/json; charset=utf-8"@ && !r.1
            && final(reminders)@ == old(reminders)@,
        method@ == "POST"@ ==> match requested(target@) {
            Some((index, change)) => if index < old(reminders)@.len() {
                &&& r.1
                &&& r.0.status@ == "200 OK"@
                &&& r.0.kind@ == "application/json; charset=utf-8"@
                &&& r.0.body@ == "{\"ok\":true}"@
                &&& final(reminders)@.map_values(|r: Reminder| r@) == old(reminders)@.map_values(
                    |r: Reminder| r@,
                ).update(index as int, changed(old(reminders)@[index as int]@, change, now))
            } else {
                !r.1 && is_missing(r.0) && final(reminders)@ == old(reminders)@
            },
            None => !r.1 && is_missing(r.0) && final(reminders)@ == old(reminders)@,
        },
        !(method@ == "GET"@ && (target@ == "/"@ || target@ == "/reminders"@)) && method@ != "POST"@
            ==> !r.1 && is_missing(r.0) && final(reminders)@ == old(reminders)@,
{
    proof {
        reveal_strlit("GET");
        reveal_strlit("POST");
        reveal_strlit("/");
        reveal_strlit("/reminders");
        assert("POST"@.len() == 4 && "GET"@.len() == 3);
        assert("POST"@ != "GET"@);
        assert("/"@.len() == 1 && "/reminders"@.len() == 10);
    }
    let method_chars = chars_of(method);
    let target_chars = chars_of(target);
    let is_get = is_text(method_chars.as_slice(), "GET");
    if is_get && is_text(target_chars.as_slice(), "/") {
        (Answer::html(page), false)
    } else if is_get && is_text(target_chars.as_slice(), "/reminders") {
        (Answer::json(list(reminders)), false)
    } else if is_text(method_chars.as_slice(), "POST") {
        let ghost before = reminders@;
        let reply = act(target, reminders, now);
        proof {
            match requested(target@) {
                Some((index, change)) => {
                    if index < before.len() {
                        assert(reply is Some);
                    } else {
                        assert(reply is None);
                    }
                },
                None => {
                    assert(reply is None);
                },
            }
        }
        match reply {
            Some(body) => (Answer::json(body), true),
            None => (Answer::missing(), false),
        }
    } else {
        (Answer::missing(), false)
    }
}

} // verus!
