//! The line format of the reminder file.
//!
//! One reminder per line, `<due>\t<text>`, with the text escaped so that a multiline reminder
//! still occupies a single line. Only the due instant and the text are written; a reminder read
//! back is pending and has never been snoozed.

use vstd::prelude::*;

use crate::reminder::{Reminder, State};
use crate::text::{
    chars_of, decimal, line_ranges, lines_of, decimal_chars, decimal_digits, lemma_decimal_digits, parse_u64,
    parsed_u64, split_at_first, split_once, string_of, all_digits, leading, lemma_leading,
    CharClass,
};

verus! {

/// How one character of the text is written.
pub open spec fn escape_of(c: char) -> Seq<char> {
    if c == '\\' {
        seq!['\\', '\\']
    } else if c == '\n' {
        seq!['\\', 'n']
    } else if c == '\r' {
        seq!['\\', 'r']
    } else if c == '\t' {
        seq!['\\', 't']
    } else {
        seq![c]
    }
}

/// The text as it is written, every character escaped in turn.
pub open spec fn escaped(text: Seq<char>) -> Seq<char>
    decreases text.len(),
{
    if text.len() == 0 {
        Seq::empty()
    } else {
        escape_of(text[0]) + escaped(text.drop_first())
    }
}

/// The text an escaped run stands for, or nothing when a backslash is followed by anything
/// but `n`, `r`, `t` or another backslash, or by nothing at all.
pub open spec fn unescaped(s: Seq<char>) -> Option<Seq<char>>
    decreases s.len(),
{
    if s.len() == 0 {
        Some(Seq::empty())
    } else if s[0] != '\\' {
        match unescaped(s.drop_first()) {
            Some(rest) => Some(seq![s[0]] + rest),
            None => None,
        }
    } else if s.len() < 2 {
        None
    } else {
        let c = if s[1] == 'n' {
            Some('\n')
        } else if s[1] == 'r' {
            Some('\r')
        } else if s[1] == 't' {
            Some('\t')
        } else if s[1] == '\\' {
            Some('\\')
        } else {
            None
        };
        match (c, unescaped(s.skip(2))) {
            (Some(c), Some(rest)) => Some(seq![c] + rest),
            _ => None,
        }
    }
}

/// The line a reminder is stored as.
pub open spec fn encoded(due_unix: u64, text: Seq<char>) -> Seq<char> {
    decimal_digits(due_unix as nat) + seq!['\t'] + escaped(text)
}

/// The reminder a line stands for: its due instant and text, pending and never snoozed.
pub open spec fn decoded(line: Seq<char>) -> Option<(u64, State, u32, Seq<char>)> {
    match split_at_first(line, '\t') {
        None => None,
        Some((due, text)) => match (parsed_u64(due), unescaped(text)) {
            (Some(due), Some(text)) => Some((due as u64, State::Pending, 0u32, text)),
            _ => None,
        },
    }
}

pub proof fn lemma_escaped_append(a: Seq<char>, b: Seq<char>)
    ensures
        escaped(a + b) == escaped(a) + escaped(b),
    decreases a.len(),
{
    if a.len() == 0 {
        assert(a + b == b);
        assert(escaped(a) == Seq::<char>::empty());
        assert(Seq::<char>::empty() + escaped(b) == escaped(b));
    } else {
        assert((a + b).drop_first() == a.drop_first() + b);
        assert((a + b)[0] == a[0]);
        lemma_escaped_append(a.drop_first(), b);
        assert(escape_of(a[0]) + (escaped(a.drop_first()) + escaped(b)) == (escape_of(a[0])
            + escaped(a.drop_first())) + escaped(b));
    }
}

/// Escaping leaves no line break, carriage return or tab in the text.
pub proof fn lemma_escaped_is_one_field(text: Seq<char>)
    ensures
        forall|i: int|
            0 <= i < escaped(text).len() ==> #[trigger] escaped(text)[i] != '\n' && escaped(text)[i]
                != '\r' && escaped(text)[i] != '\t',
    decreases text.len(),
{
    if text.len() > 0 {
        lemma_escaped_is_one_field(text.drop_first());
        let e = escape_of(text[0]);
        let r = escaped(text.drop_first());
        assert forall|i: int| 0 <= i < (e + r).len() implies #[trigger] (e + r)[i] != '\n' && (e
            + r)[i] != '\r' && (e + r)[i] != '\t' by {
            if i >= e.len() {
                assert((e + r)[i] == r[i - e.len()]);
            }
        }
    }
}

/// Reading back what escaping wrote gives the text again.
pub proof fn lemma_unescape_escaped(text: Seq<char>)
    ensures
        unescaped(escaped(text)) == Some(text),
    decreases text.len(),
{
    if text.len() == 0 {
        assert(escaped(text) == Seq::<char>::empty());
        assert(text == Seq::<char>::empty());
    } else {
        let c = text[0];
        let rest = text.drop_first();
        lemma_unescape_escaped(rest);
        let e = escape_of(c) + escaped(rest);
        if c == '\\' || c == '\n' || c == '\r' || c == '\t' {
            assert(e.skip(2) == escaped(rest));
        } else {
            assert(e.drop_first() == escaped(rest));
        }
        assert(seq![c] + rest == text);
    }
}

/// A stored reminder reads back as the same due instant and text, pending and never snoozed,
/// and occupies exactly one line however many lines its text has.
pub proof fn lemma_stored_reminder_reads_back(due_unix: u64, text: Seq<char>)
    ensures
        decoded(encoded(due_unix, text)) == Some((due_unix, State::Pending, 0u32, text)),
        forall|i: int|
            0 <= i < encoded(due_unix, text).len() ==> #[trigger] encoded(due_unix, text)[i] != '\n'
                && encoded(due_unix, text)[i] != '\r',
{
    let digits = decimal_digits(due_unix as nat);
    let line = encoded(due_unix, text);
    lemma_decimal_digits(due_unix as nat);
    lemma_escaped_is_one_field(text);
    lemma_unescape_escaped(text);
    assert forall|j: int| 0 <= j < digits.len() implies in_class_not_tab(#[trigger] line[j]) by {
        assert(line[j] == digits[j]);
    }
    lemma_leading_is_not(line, '\t', digits.len() as int);
    assert(line.take(digits.len() as int) == digits);
    assert(line.skip(digits.len() + 1 as int) == escaped(text));
    assert forall|i: int| 0 <= i < line.len() implies #[trigger] line[i] != '\n' && line[i] != '\r' by {
        if i < digits.len() {
            assert(line[i] == digits[i]);
        } else if i > digits.len() {
            assert(line[i] == escaped(text)[i - digits.len() - 1]);
        }
    }
}

spec fn in_class_not_tab(c: char) -> bool {
    c != '\t' && 0x30 <= c as u32 <= 0x39
}

proof fn lemma_leading_is_not(line: Seq<char>, separator: char, at: int)
    requires
        0 <= at < line.len(),
        forall|j: int| 0 <= j < at ==> in_class_not_tab(#[trigger] line[j]),
        separator == '\t',
        line[at] == '\t',
    ensures
        leading(line, CharClass::Not(separator)) == at,
{
    assert forall|j: int| 0 <= j < at implies crate::text::in_class(#[trigger] line[j], CharClass::Not(separator)) by {
        assert(in_class_not_tab(line[j]));
    }
    crate::text::lemma_leading_is(line, CharClass::Not(separator), at);
}

/// The line a reminder is stored as: its due instant, a tab, and its text with backslashes,
/// line breaks, carriage returns and tabs escaped.
pub fn encode(reminder: &Reminder) -> (line: String)
    ensures
        line@ == encoded(reminder.due_unix, reminder.text@),
{
    let mut line = decimal_chars(reminder.due_unix);
    line.push('\t');
    let ghost start = line@;
    let text = chars_of(reminder.text.as_str());
    let mut i: usize = 0;
    while i < text.len()
        invariant
            i <= text@.len(),
            text@ == reminder.text@,
            start == decimal_digits(reminder.due_unix as nat) + seq!['\t'],
            line@ == start + escaped(text@.take(i as int)),
        decreases text.len() - i,
    {
        let c = text[i];
        proof {
            lemma_escaped_append(text@.take(i as int), seq![c]);
            assert(text@.take(i + 1) == text@.take(i as int) + seq![c]);
            assert(escaped(seq![c]) == escape_of(c)) by {
                assert(seq![c].drop_first() == Seq::<char>::empty());
                assert(seq![c][0] == c);
                assert(escaped(Seq::<char>::empty()) == Seq::<char>::empty());
                assert(escape_of(c) + Seq::<char>::empty() == escape_of(c));
            }
        }
        let ghost before = line@;
        if c == '\\' {
            line.push('\\');
            line.push('\\');
        } else if c == '\n' {
            line.push('\\');
            line.push('n');
        } else if c == '\r' {
            line.push('\\');
            line.push('r');
        } else if c == '\t' {
            line.push('\\');
            line.push('t');
        } else {
            line.push(c);
        }
        assert(line@ == before + escape_of(c));
        i += 1;
    }
    assert(text@.take(text@.len() as int) == text@);
    string_of(line.as_slice())
}

/// The reminder a stored line stands for, or nothing when the line is damaged.
pub fn decode(line: &str) -> (r: Option<Reminder>)
    ensures
        r is Some <==> decoded(line@) is Some,
        r matches Some(reminder) ==> decoded(line@) == Some(reminder@),
{
    let characters = chars_of(line);
    decode_chars(characters.as_slice())
}

fn decode_chars(line: &[char]) -> (r: Option<Reminder>)
    ensures
        r is Some <==> decoded(line@) is Some,
        r matches Some(reminder) ==> decoded(line@) == Some(reminder@),
{
    let (due, escaped_text) = match split_once(line, '\t') {
        Some(parts) => parts,
        None => return None,
    };
    let due_unix = match parse_u64(due) {
        Some(due_unix) => due_unix,
        None => return None,
    };
    let text = match unescape(escaped_text) {
        Some(text) => text,
        None => return None,
    };
    Some(Reminder { due_unix, state: State::Pending, snoozes: 0, text: string_of(text.as_slice()) })
}

fn unescape(escaped_text: &[char]) -> (r: Option<Vec<char>>)
    ensures
        r is Some <==> unescaped(escaped_text@) is Some,
        r matches Some(text) ==> unescaped(escaped_text@) == Some(text@),
{
    let mut text: Vec<char> = Vec::new();
    let mut i: usize = 0;
    assert(escaped_text@.skip(0) == escaped_text@);
    while i < escaped_text.len()
        invariant
            i <= escaped_text@.len(),
            match unescaped(escaped_text@.skip(i as int)) {
                Some(rest) => unescaped(escaped_text@) == Some(text@ + rest),
                None => unescaped(escaped_text@) is None,
            },
        decreases escaped_text.len() - i,
    {
        let ghost here = escaped_text@.skip(i as int);
        let c = escaped_text[i];
        if c != '\\' {
            assert(here.drop_first() == escaped_text@.skip(i + 1));
            proof {
                match unescaped(here.drop_first()) {
                    Some(rest) => {
                        assert(text@.push(c) + rest == text@ + (seq![c] + rest));
                    },
                    None => {},
                }
            }
            text.push(c);
            i += 1;
        } else {
            if i + 1 >= escaped_text.len() {
                return None;
            }
            let next = escaped_text[i + 1];
            let unescaped_char = if next == 'n' {
                '\n'
            } else if next == 'r' {
                '\r'
            } else if next == 't' {
                '\t'
            } else if next == '\\' {
                '\\'
            } else {
                return None;
            };
            assert(here.skip(2) == escaped_text@.skip(i + 2));
            proof {
                match unescaped(here.skip(2)) {
                    Some(rest) => {
                        assert(text@.push(unescaped_char) + rest == text@ + (seq![unescaped_char] + rest));
                    },
                    None => {},
                }
            }
            text.push(unescaped_char);
            i += 2;
        }
    }
    proof {
        assert(escaped_text@.skip(i as int) == Seq::<char>::empty());
        assert(text@ + Seq::<char>::empty() == text@);
    }
    Some(text)
}

/// The reminders the readable lines stand for, in file order. Empty lines are passed over.
pub open spec fn readable(lines: Seq<Seq<char>>) -> Seq<(u64, State, u32, Seq<char>)>
    decreases lines.len(),
{
    if lines.len() == 0 {
        Seq::empty()
    } else {
        let before = readable(lines.drop_last());
        match decoded(lines.last()) {
            Some(reminder) => if lines.last().len() > 0 {
                before.push(reminder)
            } else {
                before
            },
            None => before,
        }
    }
}

/// The numbers, counted from 1, of the lines that hold something but no reminder.
pub open spec fn unreadable(lines: Seq<Seq<char>>) -> Seq<usize>
    decreases lines.len(),
{
    if lines.len() == 0 {
        Seq::empty()
    } else {
        let before = unreadable(lines.drop_last());
        if lines.last().len() > 0 && decoded(lines.last()) is None {
            before.push(lines.len() as usize)
        } else {
            before
        }
    }
}

/// What a reminder file holds.
pub struct Loaded {
    /// Every reminder that could be read, in the order of the file.
    pub reminders: Vec<Reminder>,
    /// The numbers of the lines that could not be, counted from 1. Only this application writes
    /// the file, so such a line means it was damaged.
    pub unreadable: Vec<usize>,
}

/// Reads every stored reminder out of the file's contents, keeping the readable ones when some
/// line is damaged.
#[verifier::spinoff_prover]
#[verifier::rlimit(40)]
pub fn read_file(contents: &str) -> (loaded: Loaded)
    requires
        contents@.len() < usize::MAX,
    ensures
        loaded.reminders@.map_values(|r: Reminder| r@) == readable(lines_of(contents@)),
        loaded.unreadable@ == unreadable(lines_of(contents@)),
{
    let characters = chars_of(contents);
    let s = characters.as_slice();
    let ghost all = lines_of(s@);
    let ranges = line_ranges(s);
    let mut reminders: Vec<Reminder> = Vec::new();
    let mut bad: Vec<usize> = Vec::new();
    let mut i: usize = 0;
    while i < ranges.len()
        invariant
            i <= ranges@.len(),
            s@ == contents@,
            all == lines_of(s@),
            ranges@.len() == all.len(),
            s@.len() < usize::MAX,
            forall|k: int|
                #![trigger ranges@[k]]
                0 <= k < ranges@.len() ==> ranges@[k].0 <= ranges@[k].1 <= s@.len() && s@.subrange(
                    ranges@[k].0 as int,
                    ranges@[k].1 as int,
                ) == all[k],
            reminders@.map_values(|r: Reminder| r@) == readable(all.take(i as int)),
            bad@ == unreadable(all.take(i as int)),
        decreases ranges.len() - i,
    {
        let (start, end) = ranges[i];
        let line = &s[start..end];
        let ghost next = all.take(i + 1);
        proof {
            assert(line@ == all[i as int]);
            assert(next.drop_last() == all.take(i as int));
            assert(next.last() == all[i as int]);
        }
        let ghost before_reminders = reminders@;
        let ghost before_bad = bad@;
        if line.len() > 0 {
            match decode_chars(line) {
                Some(reminder) => {
                    reminders.push(reminder);
                    proof {
                        assert(readable(next) == readable(all.take(i as int)).push(reminder@));
                        assert(unreadable(next) == unreadable(all.take(i as int)));
                        lemma_views_push(before_reminders, reminder);
                    }
                },
                None => {
                    bad.push(i + 1);
                    proof {
                        assert(readable(next) == readable(all.take(i as int)));
                        assert(unreadable(next) == unreadable(all.take(i as int)).push((i + 1) as usize));
                    }
                },
            }
        } else {
            proof {
                assert(readable(next) == readable(all.take(i as int)));
                assert(unreadable(next) == unreadable(all.take(i as int)));
            }
        }
        i += 1;
    }
    assert(all.take(ranges@.len() as int) == all);
    Loaded { reminders, unreadable: bad }
}

/// A file that is empty or whose last line ends in a line break, which is what appending leaves.
pub open spec fn whole_lines(contents: Seq<char>) -> bool {
    contents.len() == 0 || contents.last() == '\n'
}

/// The file's contents after a reminder is appended to it: its line, then a line break.
pub open spec fn appended(contents: Seq<char>, due_unix: u64, text: Seq<char>) -> Seq<char> {
    contents + encoded(due_unix, text) + seq!['\n']
}

/// Appending a reminder to a file of whole lines keeps every reminder already stored, in the
/// same order, adds the new one after them, pending and never snoozed, makes no line unreadable
/// that was not, and leaves a file of whole lines again, so any number of appends read back as
/// what was appended.
pub proof fn lemma_append_keeps_what_was_stored(contents: Seq<char>, due_unix: u64, text: Seq<char>)
    requires
        whole_lines(contents),
    ensures
        readable(lines_of(appended(contents, due_unix, text))) == readable(lines_of(contents)).push(
            (due_unix, State::Pending, 0u32, text),
        ),
        unreadable(lines_of(appended(contents, due_unix, text))) == unreadable(lines_of(contents)),
        whole_lines(appended(contents, due_unix, text)),
{
    let line = encoded(due_unix, text);
    let tail = line + seq!['\n'];
    lemma_stored_reminder_reads_back(due_unix, text);
    lemma_decimal_digits(due_unix as nat);
    assert(line.len() > 0);
    assert(appended(contents, due_unix, text) == contents + tail);
    lemma_lines_of_concat(contents, tail);
    lemma_lines_of_one_line(line);
    let before = lines_of(contents);
    let after = before + seq![line];
    assert(after.drop_last() == before);
    assert(after.last() == line);
}

/// The lines of a file of whole lines followed by anything are its own lines, then those of
/// what follows.
proof fn lemma_lines_of_concat(a: Seq<char>, b: Seq<char>)
    requires
        whole_lines(a),
    ensures
        lines_of(a + b) == lines_of(a) + lines_of(b),
    decreases a.len(),
{
    if a.len() == 0 {
        assert(a + b == b);
        assert(lines_of(a) == Seq::<Seq<char>>::empty());
        assert(Seq::<Seq<char>>::empty() + lines_of(b) == lines_of(b));
    } else {
        let class = CharClass::Not('\n');
        lemma_leading(a, class);
        let at = leading(a, class);
        if at == a.len() {
            assert(crate::text::in_class(a[a.len() - 1], class));
        }
        assert(at < a.len());
        assert forall|j: int| 0 <= j < at implies crate::text::in_class(#[trigger] (a + b)[j], class) by {
            assert((a + b)[j] == a[j]);
        }
        assert((a + b)[at as int] == a[at as int]);
        crate::text::lemma_leading_is(a + b, class, at as int);
        let rest = a.skip(at + 1 as int);
        assert((a + b).take(at as int) == a.take(at as int));
        assert((a + b).skip(at + 1 as int) == rest + b);
        if rest.len() > 0 {
            assert(rest.last() == a.last());
        }
        lemma_lines_of_concat(rest, b);
        let first = crate::text::without_cr(a.take(at as int));
        assert(lines_of(a) == seq![first] + lines_of(rest));
        assert(lines_of(a + b) == seq![first] + lines_of(rest + b));
        assert(seq![first] + (lines_of(rest) + lines_of(b)) == (seq![first] + lines_of(rest)) + lines_of(
            b,
        ));
    }
}

/// A stored line and its line break make one line.
proof fn lemma_lines_of_one_line(line: Seq<char>)
    requires
        line.len() > 0,
        forall|i: int| 0 <= i < line.len() ==> #[trigger] line[i] != '\n' && line[i] != '\r',
    ensures
        lines_of(line + seq!['\n']) == seq![line],
{
    let s = line + seq!['\n'];
    let class = CharClass::Not('\n');
    assert forall|j: int| 0 <= j < line.len() implies crate::text::in_class(#[trigger] s[j], class) by {
        assert(s[j] == line[j]);
    }
    crate::text::lemma_leading_is(s, class, line.len() as int);
    assert(s.take(line.len() as int) == line);
    assert(s.skip(line.len() + 1 as int) == Seq::<char>::empty());
    assert(lines_of(Seq::<char>::empty()) == Seq::<Seq<char>>::empty());
    assert(line.last() != '\r');
    assert(crate::text::without_cr(line) == line);
    assert(seq![line] + Seq::<Seq<char>>::empty() == seq![line]);
}

/// The contents of a file written afresh with the given reminders: the line of every reminder
/// still pending, each followed by a line break, in order. A finished reminder has nothing left
/// to say, and the line format has no room for it.
pub open spec fn saved(reminders: Seq<(u64, State, u32, Seq<char>)>) -> Seq<char>
    decreases reminders.len(),
{
    if reminders.len() == 0 {
        Seq::empty()
    } else {
        let before = saved(reminders.drop_last());
        let last = reminders.last();
        if last.1 == State::Pending {
            appended(before, last.0, last.3)
        } else {
            before
        }
    }
}

/// What such a file reads back as: every pending reminder, in order, with its due instant and
/// text, pending and never snoozed.
pub open spec fn kept(reminders: Seq<(u64, State, u32, Seq<char>)>) -> Seq<(u64, State, u32, Seq<char>)>
    decreases reminders.len(),
{
    if reminders.len() == 0 {
        Seq::empty()
    } else {
        let before = kept(reminders.drop_last());
        let last = reminders.last();
        if last.1 == State::Pending {
            before.push((last.0, State::Pending, 0u32, last.3))
        } else {
            before
        }
    }
}

/// The contents of a file that holds the given reminders.
pub fn contents_of(reminders: &Vec<Reminder>) -> (contents: String)
    ensures
        contents@ == saved(crate::reminder::views(reminders@)),
{
    let mut out: Vec<char> = Vec::new();
    let mut i: usize = 0;
    while i < reminders.len()
        invariant
            i <= reminders@.len(),
            out@ == saved(crate::reminder::views(reminders@.take(i as int))),
        decreases reminders.len() - i,
    {
        let reminder = &reminders[i];
        let ghost next = crate::reminder::views(reminders@.take(i + 1));
        proof {
            assert(reminders@.take(i + 1).drop_last() == reminders@.take(i as int));
            assert(next.drop_last() == crate::reminder::views(reminders@.take(i as int)));
            assert(next.last() == reminder@);
        }
        if reminder.state == State::Pending {
            let line = encode(reminder);
            crate::text::push_str(&mut out, line.as_str());
            out.push('\n');
        }
        i += 1;
    }
    assert(reminders@.take(reminders@.len() as int) == reminders@);
    string_of(out.as_slice())
}

/// A file written afresh reads back as every pending reminder it was written with, in order,
/// with no line unreadable, and ends on a whole line, so appending to it keeps all of them.
pub proof fn lemma_saved_reads_back(reminders: Seq<(u64, State, u32, Seq<char>)>)
    ensures
        readable(lines_of(saved(reminders))) == kept(reminders),
        unreadable(lines_of(saved(reminders))).len() == 0,
        whole_lines(saved(reminders)),
    decreases reminders.len(),
{
    if reminders.len() == 0 {
        assert(lines_of(Seq::<char>::empty()) == Seq::<Seq<char>>::empty());
    } else {
        lemma_saved_reads_back(reminders.drop_last());
        let last = reminders.last();
        if last.1 == State::Pending {
            lemma_append_keeps_what_was_stored(saved(reminders.drop_last()), last.0, last.3);
        }
    }
}

proof fn lemma_views_push(before: Seq<Reminder>, reminder: Reminder)
    ensures
        before.push(reminder).map_values(|r: Reminder| r@) == before.map_values(|r: Reminder| r@).push(
            reminder@,
        ),
{
    assert(before.push(reminder).map_values(|r: Reminder| r@) =~= before.map_values(|r: Reminder| r@).push(
        reminder@,
    ));
}

} // verus!
