//! The settings file, kept beside the reminders.
//!
//! One `name = value` per line, `#` starts a comment. Only the two shortcuts live here so far,
//! which is why there is a parser for shortcuts and barely one for the file around them.
//!
//! A setting that cannot be read falls back to what it was before anybody edited the file. A
//! typed shortcut is the one thing here somebody will get wrong, and refusing to start over it
//! would take away the shortcut they were trying to fix.

use vstd::prelude::*;
use vstd::string::StrSliceExecFns;

use crate::text::{
    begins_with, chars_of, line_ranges, lines_of, push_all, count_leading, count_trailing, decimal_chars, decimal_digits,
    in_class, is_digit, leading, lemma_leading, lemma_trailing, lowered, parse_u32, parsed_u32,
    same_chars, split_at_first, string_of, to_ascii_lowercase, trailing, trim, trimmed,
    trimmed_end, trimmed_start, CharClass,
};

verus! {

/// The modifier flags RegisterHotKey takes, with the values Windows gives them.
pub const MOD_ALT: u32 = 1;

pub const MOD_CONTROL: u32 = 2;

pub const MOD_SHIFT: u32 = 4;

pub const MOD_WIN: u32 = 8;

/// Asks Windows not to repeat the shortcut while it is held down.
pub const MOD_NOREPEAT: u32 = 16384;

/// A global shortcut, in the two pieces RegisterHotKey asks for.
#[derive(Clone, Copy, PartialEq, Eq, Structural, Debug)]
pub struct Shortcut {
    pub modifiers: u32,
    pub key: u32,
}

#[derive(Clone, Copy, PartialEq, Eq, Structural, Debug)]
pub struct Settings {
    pub capture: Shortcut,
    pub answer: Shortcut,
}

/// What the application had before any of this was configurable: Ctrl+Alt+R to capture and
/// Ctrl+Alt+A to answer, neither of them repeating while held.
pub open spec fn default_settings() -> Settings {
    Settings {
        capture: Shortcut { modifiers: MOD_CONTROL | MOD_ALT | MOD_NOREPEAT, key: 0x52 },
        answer: Shortcut { modifiers: MOD_CONTROL | MOD_ALT | MOD_NOREPEAT, key: 0x41 },
    }
}

impl Default for Settings {
    /// NOREPEAT belongs here for the same reason parse_shortcut adds it: held down, the
    /// combination would otherwise open a form for every repeat the keyboard sends.
    fn default() -> (settings: Self)
        ensures
            settings == default_settings(),
    {
        let held = MOD_CONTROL | MOD_ALT | MOD_NOREPEAT;
        Self {
            capture: Shortcut { modifiers: held, key: 0x52 },
            answer: Shortcut { modifiers: held, key: 0x41 },
        }
    }
}

/// What the file says when it is not there, and what it is written with the first time.
pub const DEFAULT_FILE: &'static str = "\
# Reminderski settings. Restart Reminderski after changing anything here.
#
# A shortcut is its modifiers and one key, joined by +. The modifiers are ctrl, alt, shift and
# win, and at least one of them is required: a global shortcut with no modifier would swallow
# that key everywhere.
#
# The key may be a letter, a digit, a function key or the space bar: r, 7, f9, space.
#
# capture  opens the form, with whatever text is selected already in it
# answer   brings the oldest reminder on screen to the front

capture = ctrl+alt+r
answer = ctrl+alt+a
";

/// What `str::split('+')` gives: every piece between plus signs, empty ones included, and one
/// piece for text that holds none.
pub open spec fn pieces(s: Seq<char>) -> Seq<Seq<char>>
    decreases s.len(),
{
    match split_at_first(s, '+') {
        Some((piece, rest)) => {
            proof {
                lemma_leading(s, CharClass::Not('+'));
            }
            seq![piece] + pieces(rest)
        },
        None => seq![s],
    }
}

/// The virtual key a name stands for: a letter, a digit, `f1` to `f24`, or `space`.
pub open spec fn key_code(name: Seq<char>) -> Option<u32> {
    if name == seq!['s', 'p', 'a', 'c', 'e'] {
        Some(0x20)
    } else if name.len() > 0 && name[0] == 'f' && parsed_u32(name.drop_first()) is Some && 1
        <= parsed_u32(name.drop_first())->0 <= 24 {
        Some((0x70 + parsed_u32(name.drop_first())->0 - 1) as u32)
    } else if name.len() == 1 && 'a' as u32 <= name[0] as u32 <= 'z' as u32 {
        Some((name[0] as u32 - 32) as u32)
    } else if name.len() == 1 && is_digit(name[0]) {
        Some(name[0] as u32)
    } else {
        None
    }
}

/// One `+`-separated part of a shortcut, read against the modifiers and key so far.
pub open spec fn with_part(modifiers: u32, key: Option<u32>, part: Seq<char>) -> Option<(u32, Option<u32>)> {
    if part.len() == 0 {
        None
    } else if part == seq!['c', 't', 'r', 'l'] || part == seq!['c', 'o', 'n', 't', 'r', 'o', 'l'] {
        Some((modifiers | MOD_CONTROL, key))
    } else if part == seq!['a', 'l', 't'] {
        Some((modifiers | MOD_ALT, key))
    } else if part == seq!['s', 'h', 'i', 'f', 't'] {
        Some((modifiers | MOD_SHIFT, key))
    } else if part == seq!['w', 'i', 'n'] {
        Some((modifiers | MOD_WIN, key))
    } else if key is Some {
        // Two keys is as wrong as none.
        None
    } else {
        match key_code(part) {
            Some(code) => Some((modifiers, Some(code))),
            None => None,
        }
    }
}

/// The modifiers and key the parts add up to, each part trimmed and read in lower case.
pub open spec fn read_parts(parts: Seq<Seq<char>>) -> Option<(u32, Option<u32>)>
    decreases parts.len(),
{
    if parts.len() == 0 {
        Some((0, None))
    } else {
        match read_parts(parts.drop_last()) {
            Some((modifiers, key)) => with_part(modifiers, key, lowered(trimmed(parts.last()))),
            None => None,
        }
    }
}

/// Once some part cannot be read, the whole shortcut cannot be.
pub proof fn lemma_read_parts_fails(parts: Seq<Seq<char>>, k: int)
    requires
        0 <= k <= parts.len(),
        read_parts(parts.take(k)) is None,
    ensures
        read_parts(parts) is None,
    decreases parts.len(),
{
    if k == parts.len() {
        assert(parts.take(k) == parts);
    } else {
        assert(parts.drop_last().take(k) == parts.take(k));
        lemma_read_parts_fails(parts.drop_last(), k);
    }
}

/// The shortcut `ctrl+alt+r` and the like stand for: at least one modifier and exactly one key,
/// with NOREPEAT added.
pub open spec fn shortcut_of(text: Seq<char>) -> Option<Shortcut> {
    match read_parts(pieces(text)) {
        Some((modifiers, Some(key))) => if modifiers != 0 {
            Some(Shortcut { modifiers: modifiers | MOD_NOREPEAT, key })
        } else {
            None
        },
        _ => None,
    }
}

/// Where each piece of `s` between plus signs starts and ends.
fn piece_ranges(s: &[char]) -> (ranges: Vec<(usize, usize)>)
    ensures
        ranges@.len() == pieces(s@).len(),
        forall|k: int|
            #![trigger ranges@[k]]
            0 <= k < ranges@.len() ==> ranges@[k].0 <= ranges@[k].1 <= s@.len() && s@.subrange(
                ranges@[k].0 as int,
                ranges@[k].1 as int,
            ) == pieces(s@)[k],
{
    let mut ranges: Vec<(usize, usize)> = Vec::new();
    let mut position: usize = 0;
    let ghost mut done: Seq<Seq<char>> = Seq::empty();
    assert(s@.skip(0) == s@);
    loop
        invariant
            position <= s@.len(),
            pieces(s@) == done + pieces(s@.skip(position as int)),
            ranges@.len() == done.len(),
            forall|k: int|
                #![trigger ranges@[k]]
                0 <= k < ranges@.len() ==> ranges@[k].0 <= ranges@[k].1 <= s@.len() && s@.subrange(
                    ranges@[k].0 as int,
                    ranges@[k].1 as int,
                ) == done[k],
        decreases s@.len() - position,
    {
        let rest = &s[position..s.len()];
        assert(rest@ == s@.skip(position as int));
        let length = count_leading(rest, &CharClass::Not('+'));
        proof {
            lemma_leading(rest@, CharClass::Not('+'));
        }
        let ghost old_ranges = ranges@;
        if length < rest.len() {
            let ghost piece = rest@.take(length as int);
            assert(s@.subrange(position as int, (position + length) as int) == piece);
            assert(pieces(rest@) == seq![piece] + pieces(rest@.skip(length + 1 as int)));
            assert(rest@.skip(length + 1 as int) == s@.skip(position + length + 1));
            proof {
                assert(done.push(piece) + pieces(s@.skip(position + length + 1)) == done + (
                seq![piece] + pieces(s@.skip(position + length + 1))));
                done = done.push(piece);
            }
            ranges.push((position, position + length));
            assert(forall|k: int| 0 <= k < old_ranges.len() ==> ranges@[k] == old_ranges[k]);
            position = position + length + 1;
        } else {
            assert(pieces(rest@) == seq![rest@]);
            assert(s@.subrange(position as int, s@.len() as int) == rest@);
            proof {
                done = done.push(rest@);
            }
            ranges.push((position, s.len()));
            assert(forall|k: int| 0 <= k < old_ranges.len() ==> ranges@[k] == old_ranges[k]);
            return ranges;
        }
    }
}

fn is_word(part: &[char], word: &[char]) -> (b: bool)
    ensures
        b == (part@ == word@),
{
    same_chars(part, word)
}

/// The keys worth naming: the ones somebody would actually reach for with three fingers already
/// occupied. Anything else is a virtual key code nobody wants to look up.
fn virtual_key(name: &[char]) -> (r: Option<u32>)
    ensures
        r == key_code(name@),
{
    let space: &[char] = &['s', 'p', 'a', 'c', 'e'];
    assert(space@ == seq!['s', 'p', 'a', 'c', 'e']);
    if same_chars(name, space) {
        return Some(0x20);
    }
    if name.len() > 0 && name[0] == 'f' {
        match parse_u32(&name[1..name.len()]) {
            Some(number) => {
                assert(name@.drop_first() == name@.subrange(1, name@.len() as int));
                if 1 <= number && number <= 24 {
                    return Some(0x70 + number - 1);
                }
            },
            None => {
                assert(name@.drop_first() == name@.subrange(1, name@.len() as int));
            },
        }
    }
    if name.len() != 1 {
        return None;
    }
    let single = name[0];
    let code = single as u32;
    if 'a' as u32 <= code && code <= 'z' as u32 {
        Some(code - 32)
    } else if '0' as u32 <= code && code <= '9' as u32 {
        Some(code)
    } else {
        None
    }
}

/// Reads `ctrl+alt+r` and the like. Case and spacing are not worth being strict about.
///
/// NOREPEAT is added to whatever is asked for rather than being offered as a choice: without it,
/// holding the combination down opens a form for every repeat the keyboard sends.
pub fn parse_shortcut(text: &str) -> (r: Option<Shortcut>)
    ensures
        r == shortcut_of(text@),
{
    let characters = chars_of(text);
    let s = characters.as_slice();
    let ranges = piece_ranges(s);
    let ghost parts = pieces(s@);
    let mut modifiers: u32 = 0;
    let mut key: Option<u32> = None;
    let ctrl: &[char] = &['c', 't', 'r', 'l'];
    let control: &[char] = &['c', 'o', 'n', 't', 'r', 'o', 'l'];
    let alt: &[char] = &['a', 'l', 't'];
    let shift: &[char] = &['s', 'h', 'i', 'f', 't'];
    let win: &[char] = &['w', 'i', 'n'];
    assert(ctrl@ == seq!['c', 't', 'r', 'l']);
    assert(control@ == seq!['c', 'o', 'n', 't', 'r', 'o', 'l']);
    assert(alt@ == seq!['a', 'l', 't']);
    assert(shift@ == seq!['s', 'h', 'i', 'f', 't']);
    assert(win@ == seq!['w', 'i', 'n']);
    let mut i: usize = 0;
    while i < ranges.len()
        invariant
            i <= ranges@.len(),
            parts == pieces(s@),
            s@ == text@,
            ranges@.len() == parts.len(),
            forall|k: int|
                #![trigger ranges@[k]]
                0 <= k < ranges@.len() ==> ranges@[k].0 <= ranges@[k].1 <= s@.len() && s@.subrange(
                    ranges@[k].0 as int,
                    ranges@[k].1 as int,
                ) == parts[k],
            read_parts(parts.take(i as int)) == Some((modifiers, key)),
            ctrl@ == seq!['c', 't', 'r', 'l'],
            control@ == seq!['c', 'o', 'n', 't', 'r', 'o', 'l'],
            alt@ == seq!['a', 'l', 't'],
            shift@ == seq!['s', 'h', 'i', 'f', 't'],
            win@ == seq!['w', 'i', 'n'],
        decreases ranges.len() - i,
    {
        let (start, end) = ranges[i];
        let part_v = to_ascii_lowercase(trim(&s[start..end]));
        let part = part_v.as_slice();
        proof {
            let next = parts.take(i + 1);
            assert(next.drop_last() == parts.take(i as int));
            assert(next.last() == parts[i as int]);
        }
        if part.len() == 0 {
            proof {
                lemma_read_parts_fails(parts, i + 1);
            }
            return None;
        } else if is_word(part, ctrl) || is_word(part, control) {
            modifiers = modifiers | MOD_CONTROL;
        } else if is_word(part, alt) {
            modifiers = modifiers | MOD_ALT;
        } else if is_word(part, shift) {
            modifiers = modifiers | MOD_SHIFT;
        } else if is_word(part, win) {
            modifiers = modifiers | MOD_WIN;
        } else if key.is_some() {
            // Two keys is as wrong as none, and silently taking the last would register a
            // shortcut nobody asked for.
            proof {
                lemma_read_parts_fails(parts, i + 1);
            }
            return None;
        } else {
            match virtual_key(part) {
                Some(code) => {
                    key = Some(code);
                },
                None => {
                    proof {
                        lemma_read_parts_fails(parts, i + 1);
                    }
                    return None;
                },
            }
        }
        i += 1;
    }
    assert(parts.take(ranges@.len() as int) == parts);
    if modifiers == 0 {
        return None;
    }
    match key {
        Some(key) => Some(Shortcut { modifiers: modifiers | MOD_NOREPEAT, key }),
        None => None,
    }
}

/// Whether `n` is the code of a character: not a surrogate, and no greater than `0x10FFFF`.
pub open spec fn is_scalar(n: u32) -> bool {
    n <= 0x10FFFF && !(0xD800 <= n <= 0xDFFF)
}

pub open spec fn hex_char(d: nat) -> char {
    if d < 10 {
        (d + '0' as u32) as char
    } else {
        (d - 10 + 'a' as u32) as char
    }
}

/// `n` in lower-case hexadecimal, with no leading zero.
pub open spec fn hex_digits(n: nat) -> Seq<char>
    decreases n,
{
    if n < 16 {
        seq![hex_char(n)]
    } else {
        hex_digits(n / 16).push(hex_char(n % 16))
    }
}

/// What `format!("{:#04x}", n)` writes: `0x` and at least two hexadecimal digits.
pub open spec fn hex_written(n: nat) -> Seq<char> {
    seq!['0', 'x'] + if hex_digits(n).len() < 2 {
        seq!['0'] + hex_digits(n)
    } else {
        hex_digits(n)
    }
}

/// How a key is written back: `Space`, `F1` to `F24`, the character itself, or its code.
pub open spec fn key_name_of(key: u32) -> Seq<char> {
    if key == 0x20 {
        seq!['S', 'p', 'a', 'c', 'e']
    } else if 0x70 <= key <= 0x87 {
        seq!['F'] + decimal_digits((key - 0x70 + 1) as nat)
    } else if is_scalar(key) {
        seq![key as char]
    } else {
        hex_written(key as nat)
    }
}

/// A shortcut written back in the order the modifiers are usually said, `Ctrl+Alt+Shift+Win+`
/// before the key.
pub open spec fn described(shortcut: Shortcut) -> Seq<char> {
    (if shortcut.modifiers & MOD_CONTROL != 0 {
        seq!['C', 't', 'r', 'l', '+']
    } else {
        Seq::empty()
    }) + (if shortcut.modifiers & MOD_ALT != 0 {
        seq!['A', 'l', 't', '+']
    } else {
        Seq::empty()
    }) + (if shortcut.modifiers & MOD_SHIFT != 0 {
        seq!['S', 'h', 'i', 'f', 't', '+']
    } else {
        Seq::empty()
    }) + (if shortcut.modifiers & MOD_WIN != 0 {
        seq!['W', 'i', 'n', '+']
    } else {
        Seq::empty()
    }) + key_name_of(shortcut.key)
}

/// The character with the given code: `char::from_u32`. Nothing for a surrogate or for a code
/// beyond `0x10FFFF`.
#[verifier::external_body]
fn char_from_u32(code: u32) -> (r: Option<char>)
    ensures
        r is Some <==> is_scalar(code),
        r matches Some(c) ==> c == code as char,
{
    char::from_u32(code)
}

fn hex_chars(n: u32) -> (r: Vec<char>)
    ensures
        r@ == hex_digits(n as nat),
    decreases n,
{
    let d = (n % 16) as u8;
    let c = if d < 10 {
        (d + 48u8) as char
    } else {
        (d - 10 + 97u8) as char
    };
    assert(c == hex_char((n % 16) as nat));
    if n < 16 {
        let mut r: Vec<char> = Vec::new();
        r.push(c);
        assert(r@ == seq![c]);
        r
    } else {
        let mut r = hex_chars(n / 16);
        r.push(c);
        r
    }
}

fn key_name(key: u32) -> (name: Vec<char>)
    ensures
        name@ == key_name_of(key),
{
    if key == 0x20 {
        let space: &[char] = &['S', 'p', 'a', 'c', 'e'];
        let mut name: Vec<char> = Vec::new();
        push_all(&mut name, space);
        name
    } else if 0x70 <= key && key <= 0x87 {
        let mut name: Vec<char> = Vec::new();
        name.push('F');
        let number = decimal_chars((key - 0x70 + 1) as u64);
        push_all(&mut name, number.as_slice());
        assert(name@ == seq!['F'] + decimal_digits((key - 0x70 + 1) as nat));
        name
    } else {
        match char_from_u32(key) {
            Some(c) => {
                let mut name: Vec<char> = Vec::new();
                name.push(c);
                assert(name@ == seq![c]);
                name
            },
            None => {
                let digits = hex_chars(key);
                let mut name: Vec<char> = Vec::new();
                name.push('0');
                name.push('x');
                if digits.len() < 2 {
                    name.push('0');
                }
                push_all(&mut name, digits.as_slice());
                name
            },
        }
    }
}

/// How to write a shortcut back to somebody, in the order the modifiers are usually said.
pub fn describe(shortcut: Shortcut) -> (written: String)
    ensures
        written@ == described(shortcut),
{
    let mut written: Vec<char> = Vec::new();
    if shortcut.modifiers & MOD_CONTROL != 0 {
        push_all(&mut written, &['C', 't', 'r', 'l', '+']);
    }
    if shortcut.modifiers & MOD_ALT != 0 {
        push_all(&mut written, &['A', 'l', 't', '+']);
    }
    if shortcut.modifiers & MOD_SHIFT != 0 {
        push_all(&mut written, &['S', 'h', 'i', 'f', 't', '+']);
    }
    if shortcut.modifiers & MOD_WIN != 0 {
        push_all(&mut written, &['W', 'i', 'n', '+']);
    }
    let key = key_name(shortcut.key);
    push_all(&mut written, key.as_slice());
    string_of(written.as_slice())
}

/// The keys a shortcut can name: the space bar, F1 to F24, a letter or a digit.
pub open spec fn is_named_key(key: u32) -> bool {
    ||| key == 0x20
    ||| 0x70 <= key <= 0x87
    ||| 0x41 <= key <= 0x5A
    ||| 0x30 <= key <= 0x39
}

/// What reading a shortcut can give: at least one of the four modifiers and nothing else but
/// NOREPEAT, which is always there, and a key that has a name.
pub open spec fn is_readable(shortcut: Shortcut) -> bool {
    &&& shortcut.modifiers & MOD_NOREPEAT != 0
    &&& shortcut.modifiers & 15 != 0
    &&& shortcut.modifiers == (shortcut.modifiers & 15) | MOD_NOREPEAT
    &&& is_named_key(shortcut.key)
}

proof fn lemma_key_code_is_named(name: Seq<char>)
    ensures
        key_code(name) matches Some(code) ==> is_named_key(code),
{
}

proof fn lemma_read_parts_modifiers(parts: Seq<Seq<char>>)
    ensures
        read_parts(parts) matches Some((modifiers, key)) ==> modifiers & 15 == modifiers && (key matches Some(
            code,
        ) ==> is_named_key(code)),
    decreases parts.len(),
{
    if parts.len() == 0 {
        assert(0u32 & 15 == 0) by (bit_vector);
    } else {
        lemma_read_parts_modifiers(parts.drop_last());
        lemma_key_code_is_named(lowered(trimmed(parts.last())));
        if let Some((m, _)) = read_parts(parts.drop_last()) {
            assert(m & 15 == m ==> (m | 1) & 15 == (m | 1) && (m | 2) & 15 == (m | 2) && (m | 4) & 15 == (m
                | 4) && (m | 8) & 15 == (m | 8)) by (bit_vector);
        }
    }
}

/// Every shortcut that can be read stops the keyboard repeating it, has a modifier, and names a
/// key.
pub proof fn lemma_read_shortcut_is_readable(text: Seq<char>)
    ensures
        shortcut_of(text) matches Some(shortcut) ==> is_readable(shortcut),
{
    lemma_read_parts_modifiers(pieces(text));
    if let Some((m, Some(_))) = read_parts(pieces(text)) {
        assert(m & 15 == m && m != 0 ==> (m | 16384) & 16384 != 0 && (m | 16384) & 15 != 0 && (m | 16384)
            == ((m | 16384) & 15) | 16384) by (bit_vector);
    }
}

/// A piece before a `+` is split off whole.
proof fn lemma_pieces_front(word: Seq<char>, rest: Seq<char>)
    requires
        forall|i: int| 0 <= i < word.len() ==> #[trigger] word[i] != '+',
    ensures
        pieces(word + seq!['+'] + rest) == seq![word] + pieces(rest),
{
    let s = word + seq!['+'] + rest;
    let class = CharClass::Not('+');
    assert forall|j: int| 0 <= j < word.len() implies in_class(#[trigger] s[j], class) by {
        assert(s[j] == word[j]);
    }
    assert(s[word.len() as int] == '+');
    crate::text::lemma_leading_is(s, class, word.len() as int);
    assert(s.take(word.len() as int) == word);
    assert(s.skip(word.len() + 1 as int) == rest);
}

/// Text without a `+` is one piece.
proof fn lemma_pieces_one(name: Seq<char>)
    requires
        forall|i: int| 0 <= i < name.len() ==> #[trigger] name[i] != '+',
    ensures
        pieces(name) == seq![name],
{
    let class = CharClass::Not('+');
    assert forall|j: int| 0 <= j < name.len() implies in_class(#[trigger] name[j], class) by {}
    crate::text::lemma_leading_is(name, class, name.len() as int);
}

/// A word with no white space at either end is its own trimmed text.
proof fn lemma_trimmed_word(word: Seq<char>)
    requires
        word.len() > 0,
        !crate::text::is_white_space(word[0]),
        !crate::text::is_white_space(word.last()),
    ensures
        trimmed(word) == word,
{
    crate::text::lemma_leading_is(word, CharClass::WhiteSpace, 0);
    assert(trimmed_start(word) == word);
    crate::text::lemma_trailing_is(word, CharClass::WhiteSpace, 0);
}

/// The name a named key is written with holds no `+`, and reads back as the same key.
proof fn lemma_key_name_reads_back(key: u32, modifiers: u32)
    requires
        is_named_key(key),
    ensures
        forall|i: int| 0 <= i < key_name_of(key).len() ==> #[trigger] key_name_of(key)[i] != '+',
        with_part(modifiers, None, lowered(trimmed(key_name_of(key)))) == Some((modifiers, Some(key))),
{
    let name = key_name_of(key);
    if key == 0x20 {
        lemma_trimmed_word(name);
        assert(lowered(name) == seq!['s', 'p', 'a', 'c', 'e']);
    } else if 0x70 <= key <= 0x87 {
        let number = (key - 0x70 + 1) as nat;
        let digits = decimal_digits(number);
        crate::text::lemma_decimal_digits(number);
        assert(name == seq!['F'] + digits);
        assert forall|i: int| 0 <= i < name.len() implies #[trigger] name[i] != '+' by {
            if i > 0 {
                assert(name[i] == digits[i - 1]);
                assert(is_digit(digits[i - 1]));
            }
        }
        assert(is_digit(name.last())) by {
            assert(name.last() == digits[digits.len() - 1]);
        }
        lemma_trimmed_word(name);
        let low = lowered(name);
        assert(low == seq!['f'] + digits) by {
            assert forall|i: int| 0 <= i < low.len() implies #[trigger] low[i] == (seq!['f'] + digits)[i] by {
                if i > 0 {
                    assert(name[i] == digits[i - 1]);
                    assert(is_digit(digits[i - 1]));
                }
            }
        }
        assert(low.drop_first() == digits);
        assert(low != seq!['s', 'p', 'a', 'c', 'e']);
    } else {
        let c = key as char;
        assert(c as u32 == key);
        assert(name == seq![c]);
        lemma_trimmed_word(name);
        assert(lowered(name) == seq![crate::text::lower(c)]);
    }
}

/// Reading one more modifier word adds its flag.
proof fn lemma_read_modifier(parts: Seq<Seq<char>>, word: Seq<char>, modifiers: u32, flag: u32)
    requires
        read_parts(parts) == Some((modifiers, None::<u32>)),
        word.len() > 0,
        !crate::text::is_white_space(word[0]),
        !crate::text::is_white_space(word.last()),
        with_part(modifiers, None, lowered(word)) == Some((modifiers | flag, None::<u32>)),
    ensures
        read_parts(parts.push(word)) == Some((modifiers | flag, None::<u32>)),
{
    lemma_trimmed_word(word);
    assert(parts.push(word).drop_last() == parts);
}

/// The modifier words a shortcut is written with, in the order they are said.
pub open spec fn modifier_words(modifiers: u32) -> Seq<Seq<char>> {
    (if modifiers & MOD_CONTROL != 0 {
        seq![seq!['C', 't', 'r', 'l']]
    } else {
        Seq::empty()
    }) + (if modifiers & MOD_ALT != 0 {
        seq![seq!['A', 'l', 't']]
    } else {
        Seq::empty()
    }) + (if modifiers & MOD_SHIFT != 0 {
        seq![seq!['S', 'h', 'i', 'f', 't']]
    } else {
        Seq::empty()
    }) + (if modifiers & MOD_WIN != 0 {
        seq![seq!['W', 'i', 'n']]
    } else {
        Seq::empty()
    })
}

/// A written shortcut splits at its plus signs into its modifier words and its key's name.
proof fn lemma_described_pieces(shortcut: Shortcut)
    requires
        is_named_key(shortcut.key),
    ensures
        pieces(described(shortcut)) == modifier_words(shortcut.modifiers).push(key_name_of(shortcut.key)),
{
    let m = shortcut.modifiers;
    let name = key_name_of(shortcut.key);
    lemma_key_name_reads_back(shortcut.key, 0);
    let ctrl = seq!['C', 't', 'r', 'l'];
    let alt = seq!['A', 'l', 't'];
    let shift = seq!['S', 'h', 'i', 'f', 't'];
    let win = seq!['W', 'i', 'n'];
    let plus = seq!['+'];
    let part_ctrl = if m & MOD_CONTROL != 0 { ctrl + plus } else { Seq::<char>::empty() };
    let part_alt = if m & MOD_ALT != 0 { alt + plus } else { Seq::<char>::empty() };
    let part_shift = if m & MOD_SHIFT != 0 { shift + plus } else { Seq::<char>::empty() };
    let part_win = if m & MOD_WIN != 0 { win + plus } else { Seq::<char>::empty() };
    let words_ctrl = if m & MOD_CONTROL != 0 { seq![ctrl] } else { Seq::<Seq<char>>::empty() };
    let words_alt = if m & MOD_ALT != 0 { seq![alt] } else { Seq::<Seq<char>>::empty() };
    let words_shift = if m & MOD_SHIFT != 0 { seq![shift] } else { Seq::<Seq<char>>::empty() };
    let words_win = if m & MOD_WIN != 0 { seq![win] } else { Seq::<Seq<char>>::empty() };
    assert(described(shortcut) == part_ctrl + (part_alt + (part_shift + (part_win + name))));

    lemma_pieces_one(name);
    let r4 = part_win + name;
    if m & MOD_WIN != 0 {
        lemma_pieces_front(win, name);
    } else {
        assert(r4 == name);
    }
    assert(pieces(r4) == words_win.push(name));
    let r3 = part_shift + r4;
    if m & MOD_SHIFT != 0 {
        lemma_pieces_front(shift, r4);
    } else {
        assert(r3 == r4);
    }
    assert(pieces(r3) == words_shift + words_win.push(name));
    let r2 = part_alt + r3;
    if m & MOD_ALT != 0 {
        lemma_pieces_front(alt, r3);
    } else {
        assert(r2 == r3);
    }
    assert(pieces(r2) == words_alt + (words_shift + words_win.push(name)));
    let r1 = part_ctrl + r2;
    if m & MOD_CONTROL != 0 {
        lemma_pieces_front(ctrl, r2);
    } else {
        assert(r1 == r2);
    }
    assert(pieces(r1) == modifier_words(m).push(name));
}

/// The modifier words read as the modifier flags they stand for.
proof fn lemma_modifier_words_read(m: u32)
    ensures
        read_parts(modifier_words(m)) == Some((m & 15, None::<u32>)),
{
    let ctrl = seq!['C', 't', 'r', 'l'];
    let alt = seq!['A', 'l', 't'];
    let shift = seq!['S', 'h', 'i', 'f', 't'];
    let win = seq!['W', 'i', 'n'];
    assert(lowered(ctrl) == seq!['c', 't', 'r', 'l']);
    assert(lowered(alt) == seq!['a', 'l', 't']);
    assert(lowered(shift) == seq!['s', 'h', 'i', 'f', 't']);
    assert(lowered(win) == seq!['w', 'i', 'n']);
    let words_ctrl = if m & MOD_CONTROL != 0 { seq![ctrl] } else { Seq::<Seq<char>>::empty() };
    let words_alt = if m & MOD_ALT != 0 { seq![alt] } else { Seq::<Seq<char>>::empty() };
    let words_shift = if m & MOD_SHIFT != 0 { seq![shift] } else { Seq::<Seq<char>>::empty() };
    let words_win = if m & MOD_WIN != 0 { seq![win] } else { Seq::<Seq<char>>::empty() };

    let l1 = words_ctrl;
    let a1: u32 = if m & MOD_CONTROL != 0 { 0u32 | MOD_CONTROL } else { 0u32 };
    assert(read_parts(Seq::<Seq<char>>::empty()) == Some((0u32, None::<u32>)));
    if m & MOD_CONTROL != 0 {
        lemma_read_modifier(Seq::<Seq<char>>::empty(), ctrl, 0u32, MOD_CONTROL);
        assert(Seq::<Seq<char>>::empty().push(ctrl) == l1);
    }
    assert(read_parts(l1) == Some((a1, None::<u32>)));
    let l2 = l1 + words_alt;
    let a2: u32 = if m & MOD_ALT != 0 { a1 | MOD_ALT } else { a1 };
    if m & MOD_ALT != 0 {
        lemma_read_modifier(l1, alt, a1, MOD_ALT);
        assert(l1.push(alt) == l2);
    } else {
        assert(l2 == l1);
    }
    let l3 = l2 + words_shift;
    let a3: u32 = if m & MOD_SHIFT != 0 { a2 | MOD_SHIFT } else { a2 };
    if m & MOD_SHIFT != 0 {
        lemma_read_modifier(l2, shift, a2, MOD_SHIFT);
        assert(l2.push(shift) == l3);
    } else {
        assert(l3 == l2);
    }
    let l4 = l3 + words_win;
    let a4: u32 = if m & MOD_WIN != 0 { a3 | MOD_WIN } else { a3 };
    if m & MOD_WIN != 0 {
        lemma_read_modifier(l3, win, a3, MOD_WIN);
        assert(l3.push(win) == l4);
    } else {
        assert(l4 == l3);
    }
    assert(l4 == modifier_words(m));
    assert(a4 == m & 15) by (bit_vector)
        requires
            a1 == (if m & 2 != 0 { 0u32 | 2 } else { 0u32 }),
            a2 == (if m & 1 != 0 { a1 | 1 } else { a1 }),
            a3 == (if m & 4 != 0 { a2 | 4 } else { a2 }),
            a4 == (if m & 8 != 0 { a3 | 8 } else { a3 }),
    ;
}

/// A shortcut that can be read is written back as text that reads as the same shortcut.
pub proof fn lemma_described_reads_back(shortcut: Shortcut)
    requires
        is_readable(shortcut),
    ensures
        shortcut_of(described(shortcut)) == Some(shortcut),
{
    let m = shortcut.modifiers;
    let name = key_name_of(shortcut.key);
    let words = modifier_words(m);
    lemma_described_pieces(shortcut);
    lemma_modifier_words_read(m);
    lemma_key_name_reads_back(shortcut.key, m & 15);
    assert(words.push(name).drop_last() == words);
    assert(read_parts(words.push(name)) == Some((m & 15, Some(shortcut.key))));
}

/// The setting a line carries, as its name and value, both trimmed. Everything from the first
/// `#` on is a comment. Nothing for a line that holds only a comment or blanks, or that has no
/// `=` in it.
pub open spec fn setting_of(line: Seq<char>) -> Option<(Seq<char>, Seq<char>)> {
    let before_comment = match split_at_first(line, '#') {
        Some((before, _)) => before,
        None => line,
    };
    let text = trimmed(before_comment);
    if text.len() == 0 {
        None
    } else {
        match split_at_first(text, '=') {
            Some((name, value)) => Some((trimmed(name), trimmed(value))),
            None => None,
        }
    }
}

/// Where the trimmed part of `s[from..to]` starts and ends.
fn trimmed_range(s: &[char], from: usize, to: usize) -> (r: (usize, usize))
    requires
        from <= to <= s@.len(),
    ensures
        from <= r.0 <= r.1 <= to,
        s@.subrange(r.0 as int, r.1 as int) == trimmed(s@.subrange(from as int, to as int)),
{
    let ghost part = s@.subrange(from as int, to as int);
    let front = count_leading(&s[from..to], &CharClass::WhiteSpace);
    proof {
        lemma_leading(part, CharClass::WhiteSpace);
    }
    let back = count_trailing(&s[from + front..to], &CharClass::WhiteSpace);
    proof {
        assert(s@.subrange((from + front) as int, to as int) == trimmed_start(part));
        lemma_trailing(trimmed_start(part), CharClass::WhiteSpace);
        assert(s@.subrange((from + front) as int, (to - back) as int) == trimmed(part));
    }
    (from + front, to - back)
}

/// Splits one line into a setting and its value, or nothing if it carries neither.
pub fn setting_on(line: &str) -> (r: Option<(&str, &str)>)
    ensures
        r is Some <==> setting_of(line@) is Some,
        r matches Some((name, value)) ==> setting_of(line@) == Some((name@, value@)),
{
    let characters = chars_of(line);
    let c = characters.as_slice();
    let comment = count_leading(c, &CharClass::Not('#'));
    proof {
        lemma_leading(c@, CharClass::Not('#'));
        assert(c@.subrange(0, comment as int) == match split_at_first(c@, '#') {
            Some((before, _)) => before,
            None => c@,
        });
    }
    let (start, end) = trimmed_range(c, 0, comment);
    if start == end {
        return None;
    }
    let ghost text = c@.subrange(start as int, end as int);
    let equals = count_leading(&c[start..end], &CharClass::Not('='));
    proof {
        lemma_leading(text, CharClass::Not('='));
    }
    if equals == end - start {
        return None;
    }
    let (name_start, name_end) = trimmed_range(c, start, start + equals);
    let (value_start, value_end) = trimmed_range(c, start + equals + 1, end);
    proof {
        assert(c@.subrange(start as int, (start + equals) as int) == text.take(equals as int));
        assert(c@.subrange((start + equals + 1) as int, end as int) == text.skip(equals + 1 as int));
    }
    Some((line.substring_char(name_start, name_end), line.substring_char(value_start, value_end)))
}

/// Something in the settings file that could not be used.
pub enum SettingProblem {
    /// The line names no setting this knows.
    UnknownName { line: usize, name: String },
    /// The line names a setting, but its value is not a shortcut this understands.
    UnreadableShortcut { line: usize, name: String, value: String },
}

impl View for SettingProblem {
    /// The line number, counted from 1; the name; and the value, for a known name only.
    type V = (usize, Seq<char>, Option<Seq<char>>);

    open spec fn view(&self) -> (usize, Seq<char>, Option<Seq<char>>) {
        match self {
            SettingProblem::UnknownName { line, name } => (*line, name@, None),
            SettingProblem::UnreadableShortcut { line, name, value } => (*line, name@, Some(value@)),
        }
    }
}

pub open spec fn word_capture() -> Seq<char> {
    seq!['c', 'a', 'p', 't', 'u', 'r', 'e']
}

pub open spec fn word_answer() -> Seq<char> {
    seq!['a', 'n', 's', 'w', 'e', 'r']
}

/// The settings the lines leave, starting from the defaults. A value that cannot be read leaves
/// the setting as it was.
pub open spec fn settings_after(lines: Seq<Seq<char>>) -> Settings
    decreases lines.len(),
{
    if lines.len() == 0 {
        default_settings()
    } else {
        let before = settings_after(lines.drop_last());
        match setting_of(lines.last()) {
            None => before,
            Some((name, value)) => match shortcut_of(value) {
                None => before,
                Some(shortcut) => if name == word_capture() {
                    Settings { capture: shortcut, ..before }
                } else if name == word_answer() {
                    Settings { answer: shortcut, ..before }
                } else {
                    before
                },
            },
        }
    }
}

/// A line that sets `name` to a shortcut that can be read.
pub open spec fn sets(line: Seq<char>, name: Seq<char>) -> bool {
    setting_of(line) matches Some((n, value)) && n == name && shortcut_of(value) is Some
}

/// The shortcut such a line sets.
pub open spec fn shortcut_set_by(line: Seq<char>) -> Shortcut {
    match setting_of(line) {
        Some((_, value)) => shortcut_of(value)->0,
        None => default_settings().capture,
    }
}

/// The shortcut of `settings` that `name` stands for.
pub open spec fn shortcut_named(settings: Settings, name: Seq<char>) -> Shortcut {
    if name == word_capture() {
        settings.capture
    } else {
        settings.answer
    }
}

/// Each shortcut is the one the last line that sets it gives, whatever other lines come before
/// or after it: a line that sets one shortcut leaves the other as it was. A shortcut that no line
/// sets keeps its default.
pub proof fn lemma_last_line_wins(lines: Seq<Seq<char>>, name: Seq<char>)
    requires
        name == word_capture() || name == word_answer(),
    ensures
        forall|k: int|
            0 <= k < lines.len() && #[trigger] sets(lines[k], name) && (forall|j: int|
                k < j < lines.len() ==> !#[trigger] sets(lines[j], name)) ==> shortcut_named(
                settings_after(lines),
                name,
            ) == shortcut_set_by(lines[k]),
        (forall|j: int| 0 <= j < lines.len() ==> !#[trigger] sets(lines[j], name)) ==> shortcut_named(
            settings_after(lines),
            name,
        ) == shortcut_named(default_settings(), name),
    decreases lines.len(),
{
    assert(word_capture() != word_answer()) by {
        assert(word_capture()[0] != word_answer()[0]);
    }
    if lines.len() > 0 {
        let last = lines.len() - 1;
        let before = lines.drop_last();
        lemma_last_line_wins(before, name);
        assert forall|j: int| 0 <= j < before.len() implies #[trigger] before[j] == lines[j] by {}
        let now = shortcut_named(settings_after(lines), name);
        if sets(lines[last], name) {
            assert(now == shortcut_set_by(lines[last]));
            assert forall|k: int|
                0 <= k < lines.len() && #[trigger] sets(lines[k], name) && (forall|j: int|
                    k < j < lines.len() ==> !#[trigger] sets(lines[j], name)) implies now
                == shortcut_set_by(lines[k]) by {
                if k < last {
                    assert(sets(lines[last], name));
                }
            }
        } else {
            assert(now == shortcut_named(settings_after(before), name));
            assert forall|k: int|
                0 <= k < lines.len() && #[trigger] sets(lines[k], name) && (forall|j: int|
                    k < j < lines.len() ==> !#[trigger] sets(lines[j], name)) implies now
                == shortcut_set_by(lines[k]) by {
                assert(k < last);
                assert(sets(before[k], name));
                assert forall|j: int| k < j < before.len() implies !#[trigger] sets(before[j], name) by {
                    assert(!sets(lines[j], name));
                }
            }
            if forall|j: int| 0 <= j < lines.len() ==> !#[trigger] sets(lines[j], name) {
                assert forall|j: int| 0 <= j < before.len() implies !#[trigger] sets(before[j], name) by {
                    assert(!sets(lines[j], name));
                }
            }
        }
    }
}

/// What is wrong with the lines, one entry per line that names an unknown setting or gives a
/// known one a value that is not a shortcut, in file order.
pub open spec fn problems_in(lines: Seq<Seq<char>>) -> Seq<(usize, Seq<char>, Option<Seq<char>>)>
    decreases lines.len(),
{
    if lines.len() == 0 {
        Seq::empty()
    } else {
        let before = problems_in(lines.drop_last());
        let number = lines.len() as usize;
        match setting_of(lines.last()) {
            None => before,
            Some((name, value)) => if name != word_capture() && name != word_answer() {
                before.push((number, name, None))
            } else if shortcut_of(value) is None {
                before.push((number, name, Some(value)))
            } else {
                before
            },
        }
    }
}

/// What a settings file amounts to.
pub struct SettingsFile {
    pub settings: Settings,
    /// What could not be used, for the log. Named rather than counted, because the person who
    /// mistyped it is reading the log to find out why their shortcut does nothing.
    pub problems: Vec<SettingProblem>,
}

/// Reads the settings out of the file's contents. Anything unreadable keeps its default.
#[verifier::spinoff_prover]
#[verifier::rlimit(40)]
pub fn read_settings(contents: &str) -> (file: SettingsFile)
    requires
        contents@.len() < usize::MAX,
    ensures
        file.settings == settings_after(lines_of(contents@)),
        file.problems@.map_values(|p: SettingProblem| p@) == problems_in(lines_of(contents@)),
{
    let characters = chars_of(contents);
    let c = characters.as_slice();
    let ghost all = lines_of(c@);
    let ranges = line_ranges(c);
    let mut settings = Settings::default();
    let mut problems: Vec<SettingProblem> = Vec::new();
    let capture: &[char] = &['c', 'a', 'p', 't', 'u', 'r', 'e'];
    let answer: &[char] = &['a', 'n', 's', 'w', 'e', 'r'];
    let mut i: usize = 0;
    while i < ranges.len()
        invariant
            i <= ranges@.len(),
            c@ == contents@,
            all == lines_of(c@),
            ranges@.len() == all.len(),
            c@.len() < usize::MAX,
            forall|k: int|
                #![trigger ranges@[k]]
                0 <= k < ranges@.len() ==> ranges@[k].0 <= ranges@[k].1 <= c@.len() && c@.subrange(
                    ranges@[k].0 as int,
                    ranges@[k].1 as int,
                ) == all[k],
            settings == settings_after(all.take(i as int)),
            problems@.map_values(|p: SettingProblem| p@) == problems_in(all.take(i as int)),
            capture@ == word_capture(),
            answer@ == word_answer(),
        decreases ranges.len() - i,
    {
        let (start, end) = ranges[i];
        let line = string_of(&c[start..end]);
        let ghost next = all.take(i + 1);
        proof {
            assert(line@ == all[i as int]);
            assert(next.drop_last() == all.take(i as int));
            assert(next.last() == all[i as int]);
        }
        let ghost before = problems@;
        match setting_on(line.as_str()) {
            None => {},
            Some((name, value)) => {
                let name_chars = chars_of(name);
                let is_capture = same_chars(name_chars.as_slice(), capture);
                let is_answer = same_chars(name_chars.as_slice(), answer);
                if !is_capture && !is_answer {
                    problems.push(SettingProblem::UnknownName { line: i + 1, name: name.to_string() });
                    proof {
                        lemma_problems_push(before, problems@.last());
                    }
                } else {
                    match parse_shortcut(value) {
                        Some(shortcut) => {
                            if is_capture {
                                settings.capture = shortcut;
                            } else {
                                settings.answer = shortcut;
                            }
                        },
                        None => {
                            problems.push(
                                SettingProblem::UnreadableShortcut {
                                    line: i + 1,
                                    name: name.to_string(),
                                    value: value.to_string(),
                                },
                            );
                            proof {
                                lemma_problems_push(before, problems@.last());
                            }
                        },
                    }
                }
            },
        }
        i += 1;
    }
    assert(all.take(ranges@.len() as int) == all);
    SettingsFile { settings, problems }
}

proof fn lemma_problems_push(before: Seq<SettingProblem>, problem: SettingProblem)
    ensures
        before.push(problem).map_values(|p: SettingProblem| p@) == before.map_values(
            |p: SettingProblem| p@,
        ).push(problem@),
{
    assert(before.push(problem).map_values(|p: SettingProblem| p@) =~= before.map_values(
        |p: SettingProblem| p@,
    ).push(problem@));
}

} // verus!
