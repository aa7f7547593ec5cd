//! Character-level reading and writing shared by the parsers: the same trimming, case folding,
//! splitting and decimal numbers that `str` offers, on characters, with what each one means
//! written down.

use vstd::prelude::*;

verus! {

/// The kinds of character that the parsers skip over or collect in runs.
pub enum CharClass {
    /// What `char::is_whitespace` accepts.
    WhiteSpace,
    /// The space character alone.
    Space,
    /// `0` to `9`.
    Digit,
    /// ASCII letters of either case.
    Letter,
    /// Anything but the given character.
    Not(char),
    /// The given character alone.
    Only(char),
    /// Anything `char::is_whitespace` refuses.
    Visible,
}

/// The Unicode `White_Space` property, which is what `char::is_whitespace` tests.
pub open spec fn is_white_space(c: char) -> bool {
    let n = c as u32;
    ||| 0x09 <= n <= 0x0d
    ||| n == 0x20
    ||| n == 0x85
    ||| n == 0xa0
    ||| n == 0x1680
    ||| 0x2000 <= n <= 0x200a
    ||| n == 0x2028
    ||| n == 0x2029
    ||| n == 0x202f
    ||| n == 0x205f
    ||| n == 0x3000
}

pub open spec fn is_digit(c: char) -> bool {
    '0' as u32 <= c as u32 <= '9' as u32
}

pub open spec fn is_letter(c: char) -> bool {
    ||| 'a' as u32 <= c as u32 <= 'z' as u32
    ||| 'A' as u32 <= c as u32 <= 'Z' as u32
}

pub open spec fn in_class(c: char, class: CharClass) -> bool {
    match class {
        CharClass::WhiteSpace => is_white_space(c),
        CharClass::Space => c == ' ',
        CharClass::Digit => is_digit(c),
        CharClass::Letter => is_letter(c),
        CharClass::Not(other) => c != other,
        CharClass::Only(other) => c == other,
        CharClass::Visible => !is_white_space(c),
    }
}

/// How many characters at the front of `s` belong to `class`.
pub open spec fn leading(s: Seq<char>, class: CharClass) -> nat
    decreases s.len(),
{
    if s.len() > 0 && in_class(s[0], class) {
        1 + leading(s.drop_first(), class)
    } else {
        0
    }
}

/// How many characters at the back of `s` belong to `class`.
pub open spec fn trailing(s: Seq<char>, class: CharClass) -> nat
    decreases s.len(),
{
    if s.len() > 0 && in_class(s.last(), class) {
        1 + trailing(s.drop_last(), class)
    } else {
        0
    }
}

pub open spec fn trimmed_start(s: Seq<char>) -> Seq<char> {
    s.skip(leading(s, CharClass::WhiteSpace) as int)
}

pub open spec fn trimmed_end(s: Seq<char>) -> Seq<char> {
    s.take(s.len() - trailing(s, CharClass::WhiteSpace))
}

/// What `str::trim` leaves.
pub open spec fn trimmed(s: Seq<char>) -> Seq<char> {
    trimmed_end(trimmed_start(s))
}

pub open spec fn lower(c: char) -> char {
    if 'A' as u32 <= c as u32 <= 'Z' as u32 {
        ((c as u32) + 32) as char
    } else {
        c
    }
}

/// What `str::to_ascii_lowercase` gives.
pub open spec fn lowered(s: Seq<char>) -> Seq<char> {
    s.map_values(|c: char| lower(c))
}

pub open spec fn begins_with(s: Seq<char>, prefix: Seq<char>) -> bool {
    prefix.len() <= s.len() && s.take(prefix.len() as int) == prefix
}

pub open spec fn finishes_with(s: Seq<char>, suffix: Seq<char>) -> bool {
    suffix.len() <= s.len() && s.skip(s.len() - suffix.len()) == suffix
}

/// What `str::split_once` with a single character gives: the text before the first
/// occurrence and the text after it.
pub open spec fn split_at_first(s: Seq<char>, separator: char) -> Option<(Seq<char>, Seq<char>)> {
    let at = leading(s, CharClass::Not(separator));
    if at < s.len() {
        Some((s.take(at as int), s.skip(at + 1 as int)))
    } else {
        None
    }
}

pub open spec fn all_digits(s: Seq<char>) -> bool {
    forall|i: int| 0 <= i < s.len() ==> is_digit(#[trigger] s[i])
}

pub open spec fn digit_value(c: char) -> nat {
    (c as u32 - '0' as u32) as nat
}

/// The number a run of decimal digits spells, leading zeros and all.
pub open spec fn decimal(s: Seq<char>) -> nat
    decreases s.len(),
{
    if s.len() == 0 {
        0
    } else {
        decimal(s.drop_last()) * 10 + digit_value(s.last())
    }
}

/// The digits that write `n` in decimal, with no leading zero.
pub open spec fn decimal_digits(n: nat) -> Seq<char>
    decreases n,
{
    if n < 10 {
        seq![(n + '0' as u32) as char]
    } else {
        decimal_digits(n / 10).push(((n % 10) + '0' as u32) as char)
    }
}

/// What `u32::from_str` accepts: an optional `+` and at least one digit, for a value that fits.
pub open spec fn parsed_u32(s: Seq<char>) -> Option<nat> {
    let digits = if s.len() > 0 && s[0] == '+' {
        s.drop_first()
    } else {
        s
    };
    if digits.len() > 0 && all_digits(digits) && decimal(digits) <= u32::MAX {
        Some(decimal(digits))
    } else {
        None
    }
}

pub proof fn lemma_leading(s: Seq<char>, class: CharClass)
    ensures
        leading(s, class) <= s.len(),
        forall|j: int| 0 <= j < leading(s, class) ==> in_class(#[trigger] s[j], class),
        leading(s, class) < s.len() ==> !in_class(s[leading(s, class) as int], class),
    decreases s.len(),
{
    if s.len() > 0 && in_class(s[0], class) {
        lemma_leading(s.drop_first(), class);
        assert forall|j: int| 0 <= j < leading(s, class) implies in_class(#[trigger] s[j], class) by {
            if j > 0 {
                assert(s[j] == s.drop_first()[j - 1]);
            }
        }
    }
}

pub proof fn lemma_leading_is(s: Seq<char>, class: CharClass, i: int)
    requires
        0 <= i <= s.len(),
        forall|j: int| 0 <= j < i ==> in_class(#[trigger] s[j], class),
        i == s.len() || !in_class(s[i], class),
    ensures
        leading(s, class) == i,
    decreases s.len(),
{
    if i > 0 {
        assert(in_class(s[0], class));
        assert forall|j: int| 0 <= j < i - 1 implies in_class(#[trigger] s.drop_first()[j], class) by {
            assert(s.drop_first()[j] == s[j + 1]);
        }
        if i < s.len() {
            assert(s.drop_first()[i - 1] == s[i]);
        }
        lemma_leading_is(s.drop_first(), class, i - 1);
    }
}

pub proof fn lemma_trailing(s: Seq<char>, class: CharClass)
    ensures
        trailing(s, class) <= s.len(),
        forall|j: int| s.len() - trailing(s, class) <= j < s.len() ==> in_class(#[trigger] s[j], class),
        trailing(s, class) < s.len() ==> !in_class(s[s.len() - trailing(s, class) - 1], class),
    decreases s.len(),
{
    if s.len() > 0 && in_class(s.last(), class) {
        lemma_trailing(s.drop_last(), class);
        assert forall|j: int| s.len() - trailing(s, class) <= j < s.len() implies in_class(#[trigger] s[j], class) by {
            if j < s.len() - 1 {
                assert(s[j] == s.drop_last()[j]);
            }
        }
        if trailing(s, class) < s.len() {
            assert(s[s.len() - trailing(s, class) - 1] == s.drop_last()[s.drop_last().len() - trailing(s.drop_last(), class) - 1]);
        }
    }
}

pub proof fn lemma_trailing_is(s: Seq<char>, class: CharClass, i: int)
    requires
        0 <= i <= s.len(),
        forall|j: int| s.len() - i <= j < s.len() ==> in_class(#[trigger] s[j], class),
        i == s.len() || !in_class(s[s.len() - i - 1], class),
    ensures
        trailing(s, class) == i,
    decreases s.len(),
{
    if i > 0 {
        assert(in_class(s.last(), class));
        let t = s.drop_last();
        assert forall|j: int| t.len() - (i - 1) <= j < t.len() implies in_class(#[trigger] t[j], class) by {
            assert(t[j] == s[j]);
        }
        if i < s.len() {
            assert(t[t.len() - (i - 1) - 1] == s[s.len() - i - 1]);
        }
        lemma_trailing_is(t, class, i - 1);
    }
}

/// A prefix of a run of digits never spells more than the whole run.
pub proof fn lemma_decimal_prefix(s: Seq<char>, k: int)
    requires
        0 <= k <= s.len(),
    ensures
        decimal(s.take(k)) <= decimal(s),
    decreases s.len(),
{
    if k < s.len() {
        assert(s.drop_last().take(k) == s.take(k));
        lemma_decimal_prefix(s.drop_last(), k);
    } else {
        assert(s.take(k) == s);
    }
}

/// Lowering a character never makes it white space or stops it being white space, and lowering
/// twice is lowering once.
pub proof fn lemma_lower(c: char)
    ensures
        is_white_space(lower(c)) == is_white_space(c),
        lower(lower(c)) == lower(c),
{
    if 'A' as u32 <= c as u32 <= 'Z' as u32 {
        assert(lower(c) as u32 == c as u32 + 32);
    }
}

/// Trimming and lowering can be done in either order, and lowering twice is lowering once.
pub proof fn lemma_lowered_trimmed(s: Seq<char>)
    ensures
        trimmed(lowered(s)) == lowered(trimmed(s)),
        trimmed_start(lowered(s)) == lowered(trimmed_start(s)),
        lowered(lowered(s)) == lowered(s),
{
    let class = CharClass::WhiteSpace;
    let l = lowered(s);
    assert forall|j: int| 0 <= j < s.len() implies #[trigger] l[j] == lower(s[j]) && in_class(l[j], class)
        == in_class(s[j], class) && lower(l[j]) == l[j] by {
        lemma_lower(s[j]);
    }
    lemma_leading(s, class);
    lemma_leading_is(l, class, leading(s, class) as int);
    let front = leading(s, class) as int;
    assert(trimmed_start(l) == lowered(trimmed_start(s)));
    let t = trimmed_start(s);
    let lt = lowered(t);
    assert forall|j: int| 0 <= j < t.len() implies #[trigger] lt[j] == lower(t[j]) && in_class(lt[j], class)
        == in_class(t[j], class) by {
        lemma_lower(t[j]);
    }
    lemma_trailing(t, class);
    lemma_trailing_is(lt, class, trailing(t, class) as int);
    assert(trimmed_end(lt) == lowered(trimmed_end(t)));
    assert(lowered(l) == l);
}

/// Trimming the end first and then the start leaves what `trimmed` leaves.
pub proof fn lemma_trim_either_way(s: Seq<char>)
    ensures
        trimmed_start(trimmed_end(s)) == trimmed(s),
        trimmed(s).len() > 0 ==> trailing(s, CharClass::WhiteSpace) < s.len(),
{
    let class = CharClass::WhiteSpace;
    lemma_leading(s, class);
    lemma_trailing(s, class);
    let a = leading(s, class) as int;
    let b = trailing(s, class) as int;
    if a == s.len() {
        lemma_trailing_is(s, class, s.len() as int);
        assert(trimmed_end(s).len() == 0);
        assert(trimmed_start(s).len() == 0);
        lemma_trailing_is(trimmed_start(s), class, 0);
        lemma_leading_is(trimmed_end(s), class, 0);
    } else {
        assert(!in_class(s[a], class));
        assert(a <= s.len() - b - 1);
        let e = trimmed_end(s);
        assert forall|j: int| 0 <= j < a implies in_class(#[trigger] e[j], class) by {
            assert(e[j] == s[j]);
        }
        assert(e[a] == s[a]);
        lemma_leading_is(e, class, a);
        let f = trimmed_start(s);
        assert forall|j: int| f.len() - b <= j < f.len() implies in_class(#[trigger] f[j], class) by {
            assert(f[j] == s[j + a]);
        }
        assert(f[f.len() - b - 1] == s[s.len() - b - 1]);
        lemma_trailing_is(f, class, b);
        assert(trimmed_start(e) == s.subrange(a, s.len() - b));
        assert(trimmed_end(f) == s.subrange(a, s.len() - b));
        if b == s.len() {
            lemma_leading_is(s, class, s.len() as int);
        }
    }
}

/// How many characters at the front of two texts joined belong to a class: those of the first,
/// and when all of it does, those of the second too.
pub proof fn lemma_leading_concat(a: Seq<char>, b: Seq<char>, class: CharClass)
    ensures
        leading(a + b, class) == if leading(a, class) < a.len() {
            leading(a, class)
        } else {
            a.len() + leading(b, class)
        },
    decreases a.len(),
{
    if a.len() == 0 {
        assert(a + b == b);
    } else {
        assert((a + b)[0] == a[0]);
        assert((a + b).drop_first() == a.drop_first() + b);
        lemma_leading_concat(a.drop_first(), b, class);
    }
}

pub fn in_class_exec(c: char, class: &CharClass) -> (b: bool)
    ensures
        b == in_class(c, *class),
{
    let n = c as u32;
    match class {
        CharClass::WhiteSpace => {
            (0x09 <= n && n <= 0x0d) || n == 0x20 || n == 0x85 || n == 0xa0 || n == 0x1680 || (0x2000
                <= n && n <= 0x200a) || n == 0x2028 || n == 0x2029 || n == 0x202f || n == 0x205f
                || n == 0x3000
        },
        CharClass::Space => c == ' ',
        CharClass::Digit => '0' as u32 <= n && n <= '9' as u32,
        CharClass::Letter => ('a' as u32 <= n && n <= 'z' as u32) || ('A' as u32 <= n && n
            <= 'Z' as u32),
        CharClass::Not(other) => c != *other,
        CharClass::Only(other) => c == *other,
        CharClass::Visible => !((0x09 <= n && n <= 0x0d) || n == 0x20 || n == 0x85 || n == 0xa0
            || n == 0x1680 || (0x2000 <= n && n <= 0x200a) || n == 0x2028 || n == 0x2029 || n
            == 0x202f || n == 0x205f || n == 0x3000),
    }
}

pub fn count_leading(s: &[char], class: &CharClass) -> (n: usize)
    ensures
        n == leading(s@, *class),
{
    let mut i: usize = 0;
    while i < s.len() && in_class_exec(s[i], class)
        invariant
            i <= s@.len(),
            forall|j: int| 0 <= j < i ==> in_class(#[trigger] s@[j], *class),
        decreases s.len() - i,
    {
        i += 1;
    }
    proof {
        lemma_leading_is(s@, *class, i as int);
    }
    i
}

pub fn count_trailing(s: &[char], class: &CharClass) -> (n: usize)
    ensures
        n == trailing(s@, *class),
{
    let mut i: usize = 0;
    while i < s.len() && in_class_exec(s[s.len() - 1 - i], class)
        invariant
            i <= s@.len(),
            forall|j: int| s@.len() - i <= j < s@.len() ==> in_class(#[trigger] s@[j], *class),
        decreases s.len() - i,
    {
        i += 1;
    }
    proof {
        lemma_trailing_is(s@, *class, i as int);
    }
    i
}

pub fn trim_start(s: &[char]) -> (r: &[char])
    ensures
        r@ == trimmed_start(s@),
{
    let n = count_leading(s, &CharClass::WhiteSpace);
    proof {
        lemma_leading(s@, CharClass::WhiteSpace);
    }
    &s[n..s.len()]
}

pub fn trim_end(s: &[char]) -> (r: &[char])
    ensures
        r@ == trimmed_end(s@),
{
    let n = count_trailing(s, &CharClass::WhiteSpace);
    proof {
        lemma_trailing(s@, CharClass::WhiteSpace);
    }
    &s[0..s.len() - n]
}

pub fn trim(s: &[char]) -> (r: &[char])
    ensures
        r@ == trimmed(s@),
{
    trim_end(trim_start(s))
}

pub fn to_ascii_lowercase(s: &[char]) -> (r: Vec<char>)
    ensures
        r@ == lowered(s@),
{
    let mut r: Vec<char> = Vec::new();
    let mut i: usize = 0;
    while i < s.len()
        invariant
            i <= s@.len(),
            r@ == lowered(s@.take(i as int)),
        decreases s.len() - i,
    {
        let c = s[i];
        let n = c as u32;
        let l = if 'A' as u32 <= n && n <= 'Z' as u32 {
            (n + 32) as u8 as char
        } else {
            c
        };
        r.push(l);
        assert(lowered(s@.take(i + 1)) == lowered(s@.take(i as int)).push(lower(c)));
        i += 1;
    }
    assert(s@.take(s@.len() as int) == s@);
    r
}

pub fn same_chars(a: &[char], b: &[char]) -> (e: bool)
    ensures
        e == (a@ == b@),
{
    if a.len() != b.len() {
        return false;
    }
    let mut i: usize = 0;
    while i < a.len()
        invariant
            i <= a@.len(),
            a@.len() == b@.len(),
            forall|j: int| 0 <= j < i ==> a@[j] == b@[j],
        decreases a.len() - i,
    {
        if a[i] != b[i] {
            return false;
        }
        i += 1;
    }
    assert(a@ =~= b@);
    true
}

pub fn strip_prefix<'a>(s: &'a [char], prefix: &[char]) -> (r: Option<&'a [char]>)
    ensures
        r is Some <==> begins_with(s@, prefix@),
        r matches Some(rest) ==> rest@ == s@.skip(prefix@.len() as int),
{
    if prefix.len() > s.len() {
        return None;
    }
    if same_chars(&s[0..prefix.len()], prefix) {
        Some(&s[prefix.len()..s.len()])
    } else {
        None
    }
}

pub fn strip_suffix<'a>(s: &'a [char], suffix: &[char]) -> (r: Option<&'a [char]>)
    ensures
        r is Some <==> finishes_with(s@, suffix@),
        r matches Some(rest) ==> rest@ == s@.take(s@.len() - suffix@.len()),
{
    if suffix.len() > s.len() {
        return None;
    }
    if same_chars(&s[s.len() - suffix.len()..s.len()], suffix) {
        Some(&s[0..s.len() - suffix.len()])
    } else {
        None
    }
}

pub fn split_once<'a>(s: &'a [char], separator: char) -> (r: Option<(&'a [char], &'a [char])>)
    ensures
        r is Some <==> split_at_first(s@, separator) is Some,
        r matches Some((before, after)) ==> split_at_first(s@, separator) == Some((before@, after@)),
{
    let at = count_leading(s, &CharClass::Not(separator));
    proof {
        lemma_leading(s@, CharClass::Not(separator));
    }
    if at < s.len() {
        Some((&s[0..at], &s[at + 1..s.len()]))
    } else {
        None
    }
}

/// Reads a run of digits as a `u64`, or nothing when it spells more than a `u64` holds.
pub fn decimal_u64(digits: &[char]) -> (r: Option<u64>)
    requires
        all_digits(digits@),
    ensures
        r is Some <==> decimal(digits@) <= u64::MAX,
        r matches Some(v) ==> v == decimal(digits@),
{
    let mut value: u64 = 0;
    let mut i: usize = 0;
    while i < digits.len()
        invariant
            i <= digits@.len(),
            all_digits(digits@),
            value == decimal(digits@.take(i as int)),
        decreases digits.len() - i,
    {
        let c = digits[i];
        assert(is_digit(digits@[i as int]));
        let d = (c as u32 - '0' as u32) as u64;
        assert(digits@.take(i + 1).drop_last() == digits@.take(i as int));
        assert(decimal(digits@.take(i + 1)) == value * 10 + d);
        let next = match value.checked_mul(10) {
            Some(t) => t.checked_add(d),
            None => None,
        };
        match next {
            Some(v) => {
                value = v;
            },
            None => {
                proof {
                    lemma_decimal_prefix(digits@, i + 1);
                }
                return None;
            },
        }
        i += 1;
    }
    assert(digits@.take(digits@.len() as int) == digits@);
    Some(value)
}

/// `u32::from_str`, on characters.
pub fn parse_u32(s: &[char]) -> (r: Option<u32>)
    ensures
        r is Some <==> parsed_u32(s@) is Some,
        r matches Some(v) ==> parsed_u32(s@) == Some(v as nat),
{
    let digits = if s.len() > 0 && s[0] == '+' {
        &s[1..s.len()]
    } else {
        s
    };
    assert(digits@ == (if s@.len() > 0 && s@[0] == '+' {
        s@.drop_first()
    } else {
        s@
    }));
    if digits.len() == 0 {
        return None;
    }
    let n = count_leading(digits, &CharClass::Digit);
    proof {
        lemma_leading(digits@, CharClass::Digit);
    }
    if n < digits.len() {
        return None;
    }
    match decimal_u64(digits) {
        Some(v) => {
            if v <= u32::MAX as u64 {
                Some(v as u32)
            } else {
                None
            }
        },
        None => None,
    }
}

/// The characters of a string, in order.
pub fn chars_of(s: &str) -> (v: Vec<char>)
    ensures
        v@ == s@,
{
    broadcast use vstd::string::group_string_axioms;
    let mut v: Vec<char> = Vec::new();
    for c in it: s.chars()
        invariant
            v@ == it.seq().take(it.index() as int),
            it.seq() == s@,
    {
        v.push(c);
    }
    v
}

/// Appends one character to a string with `String::push`, which the contract takes to leave
/// the string's characters followed by that one.
#[verifier::external_body]
fn push_char(s: &mut String, c: char)
    ensures
        final(s)@ == old(s)@.push(c),
{
    s.push(c);
}

/// A string of the given characters.
pub fn string_of(v: &[char]) -> (s: String)
    ensures
        s@ == v@,
{
    let mut s = String::new();
    let mut i: usize = 0;
    while i < v.len()
        invariant
            i <= v@.len(),
            s@ == v@.take(i as int),
        decreases v.len() - i,
    {
        push_char(&mut s, v[i]);
        assert(v@.take(i + 1) == v@.take(i as int).push(v@[i as int]));
        i += 1;
    }
    assert(v@.take(v@.len() as int) == v@);
    s
}

/// What `u64::from_str` accepts: an optional `+` and at least one digit, for a value that fits.
pub open spec fn parsed_u64(s: Seq<char>) -> Option<nat> {
    let digits = if s.len() > 0 && s[0] == '+' {
        s.drop_first()
    } else {
        s
    };
    if digits.len() > 0 && all_digits(digits) && decimal(digits) <= u64::MAX {
        Some(decimal(digits))
    } else {
        None
    }
}

pub proof fn lemma_decimal_digits(n: nat)
    ensures
        decimal_digits(n).len() >= 1,
        all_digits(decimal_digits(n)),
        decimal(decimal_digits(n)) == n,
        decimal_digits(n)[0] != '+',
    decreases n,
{
    if n >= 10 {
        lemma_decimal_digits(n / 10);
        let c = ((n % 10) + '0' as u32) as char;
        let s = decimal_digits(n / 10).push(c);
        assert(c as u32 == (n % 10) + 48);
        assert(digit_value(c) == n % 10);
        assert(s.drop_last() == decimal_digits(n / 10));
        assert(decimal(s) == decimal(s.drop_last()) * 10 + digit_value(s.last()));
        assert((n / 10) * 10 + n % 10 == n);
        assert forall|i: int| 0 <= i < s.len() implies is_digit(#[trigger] s[i]) by {
            if i < s.len() - 1 {
                assert(s[i] == decimal_digits(n / 10)[i]);
            }
        }
    } else {
        let c = (n + '0' as u32) as char;
        let s = seq![c];
        assert(c as u32 == n + 48);
        assert(s.drop_last() == Seq::<char>::empty());
        assert(decimal(s) == decimal(s.drop_last()) * 10 + digit_value(s.last()));
    }
}

/// The decimal digits of `n`: `u64::to_string`, on characters.
pub fn decimal_chars(n: u64) -> (r: Vec<char>)
    ensures
        r@ == decimal_digits(n as nat),
    decreases n,
{
    if n < 10 {
        let c = (n as u8 + 48u8) as char;
        let mut r: Vec<char> = Vec::new();
        r.push(c);
        assert(r@ == seq![c]);
        r
    } else {
        let mut r = decimal_chars(n / 10);
        assert(decimal_digits(n as nat) == decimal_digits(n as nat / 10).push(((n as nat % 10) + '0' as u32) as char));
        let c = ((n % 10) as u8 + 48u8) as char;
        r.push(c);
        r
    }
}

/// `u64::from_str`, on characters.
pub fn parse_u64(s: &[char]) -> (r: Option<u64>)
    ensures
        r is Some <==> parsed_u64(s@) is Some,
        r matches Some(v) ==> parsed_u64(s@) == Some(v as nat),
{
    let digits = if s.len() > 0 && s[0] == '+' {
        &s[1..s.len()]
    } else {
        s
    };
    assert(digits@ == (if s@.len() > 0 && s@[0] == '+' {
        s@.drop_first()
    } else {
        s@
    }));
    if digits.len() == 0 {
        return None;
    }
    let n = count_leading(digits, &CharClass::Digit);
    proof {
        lemma_leading(digits@, CharClass::Digit);
    }
    if n < digits.len() {
        return None;
    }
    decimal_u64(digits)
}

/// A line without the carriage return that ended it, if one did.
pub open spec fn without_cr(line: Seq<char>) -> Seq<char> {
    if line.len() > 0 && line.last() == '\r' {
        line.drop_last()
    } else {
        line
    }
}

/// What `str::lines` gives: the text split at each line feed, a carriage return before a line
/// feed dropped with it, and no empty line after a final line feed.
pub open spec fn lines_of(s: Seq<char>) -> Seq<Seq<char>>
    decreases s.len(),
{
    match split_at_first(s, '\n') {
        Some((line, rest)) => {
            proof {
                lemma_leading(s, CharClass::Not('\n'));
            }
            seq![without_cr(line)] + lines_of(rest)
        },
        None => if s.len() == 0 {
            Seq::empty()
        } else {
            seq![s]
        },
    }
}

/// Where each line of `s` starts and ends, its line feed and the carriage return before it
/// left out.
pub fn line_ranges(s: &[char]) -> (ranges: Vec<(usize, usize)>)
    requires
        s@.len() < usize::MAX,
    ensures
        ranges@.len() == lines_of(s@).len(),
        forall|k: int|
            #![trigger ranges@[k]]
                0 <= k < ranges@.len() ==> ranges@[k].0 <= ranges@[k].1 <= s@.len() && s@.subrange(
                ranges@[k].0 as int,
                ranges@[k].1 as int,
            ) == lines_of(s@)[k],
{
    let mut ranges: Vec<(usize, usize)> = Vec::new();
    let mut position: usize = 0;
    let ghost mut done: Seq<Seq<char>> = Seq::empty();
    assert(s@.skip(0) == s@);
    while position < s.len()
        invariant
            position <= s@.len(),
            s@.len() < usize::MAX,
            lines_of(s@) == done + lines_of(s@.skip(position as int)),
            ranges@.len() == done.len(),
            forall|k: int|
                #![trigger ranges@[k]]
                0 <= k < ranges@.len() ==> ranges@[k].0 <= ranges@[k].1 <= s@.len() && s@.subrange(
                    ranges@[k].0 as int,
                    ranges@[k].1 as int,
                ) == done[k],
        decreases s.len() - position,
    {
        let rest = &s[position..s.len()];
        assert(rest@ == s@.skip(position as int));
        let length = count_leading(rest, &CharClass::Not('\n'));
        proof {
            lemma_leading(rest@, CharClass::Not('\n'));
        }
        if length < rest.len() {
            // A line ended by a line feed, and by a carriage return before it if there is one.
            let end = if length > 0 && rest[length - 1] == '\r' {
                position + length - 1
            } else {
                position + length
            };
            let ghost line = without_cr(rest@.take(length as int));
            assert(s@.subrange(position as int, end as int) == line);
            assert(lines_of(rest@) == seq![line] + lines_of(rest@.skip(length + 1 as int)));
            assert(rest@.skip(length + 1 as int) == s@.skip(position + length + 1));
            proof {
                assert(done.push(line) + lines_of(s@.skip(position + length + 1)) == done + (seq![line]
                    + lines_of(s@.skip(position + length + 1))));
                done = done.push(line);
            }
            let ghost old_ranges = ranges@;
            ranges.push((position, end));
            assert(forall|k: int| 0 <= k < old_ranges.len() ==> ranges@[k] == old_ranges[k]);
            position = position + length + 1;
        } else {
            // The last line, with no line feed after it.
            assert(lines_of(rest@) == seq![rest@]);
            assert(s@.subrange(position as int, s@.len() as int) == rest@);
            proof {
                done = done.push(rest@);
            }
            let ghost old_ranges = ranges@;
            ranges.push((position, s.len()));
            assert(forall|k: int| 0 <= k < old_ranges.len() ==> ranges@[k] == old_ranges[k]);
            position = s.len();
            assert(lines_of(s@.skip(position as int)) == Seq::<Seq<char>>::empty());
        }
    }
    assert(s@.skip(position as int) == Seq::<char>::empty());
    assert(lines_of(Seq::<char>::empty()) == Seq::<Seq<char>>::empty());
    assert(done + Seq::<Seq<char>>::empty() == done);
    ranges
}

/// Appends the characters of a slice.
pub fn push_all(out: &mut Vec<char>, more: &[char])
    ensures
        final(out)@ == old(out)@ + more@,
{
    let mut i: usize = 0;
    while i < more.len()
        invariant
            i <= more@.len(),
            out@ == old(out)@ + more@.take(i as int),
        decreases more.len() - i,
    {
        out.push(more[i]);
        assert(more@.take(i + 1) == more@.take(i as int).push(more@[i as int]));
        i += 1;
    }
    assert(more@.take(more@.len() as int) == more@);
}

/// Appends the characters of a string.
pub fn push_str(out: &mut Vec<char>, s: &str)
    ensures
        final(out)@ == old(out)@ + s@,
{
    let characters = chars_of(s);
    push_all(out, characters.as_slice());
}

} // verus!
