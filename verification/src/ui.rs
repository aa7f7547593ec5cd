//! The small pieces both windows share: DPI scaling, the type sizes of the design, rectangles
//! and hit testing, and the wide strings Windows takes.

use vstd::prelude::*;

use crate::text::chars_of;

verus! {

/// Type sizes, in logical pixels.
pub const TITLE_SIZE: i32 = 13;

pub const LABEL_SIZE: i32 = 11;

pub const BUTTON_SIZE: i32 = 12;

pub const FIELD_SIZE: i32 = 16;

pub const HINT_SIZE: i32 = 11;

/// Letter spacing for the uppercase runs.
pub const TITLE_TRACKING: i32 = 3;

pub const LABEL_TRACKING: i32 = 2;

/// Division that rounds toward zero, as `/` on Rust's integers does.
pub open spec fn quotient_toward_zero(a: int, b: int) -> int {
    if a >= 0 {
        a / b
    } else {
        -((-a) / b)
    }
}

/// `logical` pixels at 96 DPI, at `dpi`.
pub open spec fn scaled(logical: int, dpi: int) -> int {
    quotient_toward_zero(logical * dpi, 96)
}

/// A length of the design scaled to any DPI is no more than its share of the product, which is
/// what keeps sums of scaled lengths within reach of the largest product that fits.
pub proof fn lemma_scaled_bounds(logical: int, dpi: int)
    requires
        0 <= logical,
        0 <= dpi,
    ensures
        0 <= scaled(logical, dpi),
        96 * scaled(logical, dpi) <= logical * dpi,
{
    assert(0 <= logical * dpi) by (nonlinear_arith)
        requires
            0 <= logical,
            0 <= dpi,
    ;
}

/// Scales a length in logical pixels (at 96 DPI) to the given DPI, rounding toward zero.
pub fn scale(logical: i32, dpi: u32) -> (pixels: i32)
    requires
        dpi <= i32::MAX,
        i32::MIN <= logical * dpi <= i32::MAX,
    ensures
        pixels == scaled(logical as int, dpi as int),
{
    logical * dpi as i32 / 96
}

/// A rectangle in device pixels, as Windows writes one: the left and top edges inside it, the
/// right and bottom edges just outside.
#[derive(Clone, Copy, PartialEq, Eq, Structural, Debug)]
pub struct Rect {
    pub left: i32,
    pub top: i32,
    pub right: i32,
    pub bottom: i32,
}

/// Whether a rectangle has the given edges.
pub open spec fn has_edges(r: Rect, left: int, top: int, right: int, bottom: int) -> bool {
    r.left == left && r.top == top && r.right == right && r.bottom == bottom
}

/// Whether a point lies in a rectangle, as `PtInRect` decides it.
pub open spec fn within(r: Rect, x: int, y: int) -> bool {
    r.left <= x < r.right && r.top <= y < r.bottom
}

pub fn contains(r: &Rect, x: i32, y: i32) -> (inside: bool)
    ensures
        inside == within(*r, x as int, y as int),
{
    r.left <= x && x < r.right && r.top <= y && y < r.bottom
}

/// The rectangle moved in by `dx` on the left and right and by `dy` at the top and bottom.
pub fn inset(r: &Rect, dx: i32, dy: i32) -> (inner: Rect)
    requires
        i32::MIN <= r.left + dx <= i32::MAX,
        i32::MIN <= r.top + dy <= i32::MAX,
        i32::MIN <= r.right - dx <= i32::MAX,
        i32::MIN <= r.bottom - dy <= i32::MAX,
    ensures
        has_edges(inner, r.left + dx, r.top + dy, r.right - dx, r.bottom - dy),
{
    Rect { left: r.left + dx, top: r.top + dy, right: r.right - dx, bottom: r.bottom - dy }
}

/// The first of the buttons, counted from `from`, that holds the point.
pub open spec fn first_hit_from(buttons: Seq<Rect>, x: int, y: int, from: nat) -> Option<usize>
    decreases buttons.len() - from,
{
    if from >= buttons.len() {
        None
    } else if within(buttons[from as int], x, y) {
        Some(from as usize)
    } else {
        first_hit_from(buttons, x, y, from + 1)
    }
}

/// The first of the buttons that holds the point.
pub open spec fn first_hit(buttons: Seq<Rect>, x: int, y: int) -> Option<usize> {
    first_hit_from(buttons, x, y, 0)
}

/// The first of the buttons that holds the point, counted from the start.
pub fn hit(buttons: &[Rect], x: i32, y: i32) -> (found: Option<usize>)
    ensures
        found == first_hit(buttons@, x as int, y as int),
        found matches Some(i) ==> i < buttons@.len() && within(buttons@[i as int], x as int, y as int)
            && forall|j: int| 0 <= j < i ==> !within(#[trigger] buttons@[j], x as int, y as int),
        found is None ==> forall|j: int|
            0 <= j < buttons@.len() ==> !within(#[trigger] buttons@[j], x as int, y as int),
{
    let mut i: usize = 0;
    while i < buttons.len()
        invariant
            i <= buttons@.len(),
            forall|j: int| 0 <= j < i ==> !within(#[trigger] buttons@[j], x as int, y as int),
            first_hit(buttons@, x as int, y as int) == first_hit_from(buttons@, x as int, y as int, i as nat),
        decreases buttons.len() - i,
    {
        if contains(&buttons[i], x, y) {
            return Some(i);
        }
        i += 1;
    }
    None
}

/// One character in UTF-16: itself below `0x10000`, a surrogate pair above.
pub open spec fn utf16_of(c: char) -> Seq<u16> {
    let n = c as u32;
    if n < 0x10000 {
        seq![n as u16]
    } else {
        seq![(0xD800 + (n - 0x10000) / 1024) as u16, (0xDC00 + (n - 0x10000) % 1024) as u16]
    }
}

/// A text in UTF-16, character by character.
pub open spec fn utf16(text: Seq<char>) -> Seq<u16>
    decreases text.len(),
{
    if text.len() == 0 {
        Seq::empty()
    } else {
        utf16_of(text[0]) + utf16(text.drop_first())
    }
}

pub proof fn lemma_utf16_append(a: Seq<char>, b: Seq<char>)
    ensures
        utf16(a + b) == utf16(a) + utf16(b),
    decreases a.len(),
{
    if a.len() == 0 {
        assert(a + b == b);
        assert(utf16(a) == Seq::<u16>::empty());
        assert(Seq::<u16>::empty() + utf16(b) == utf16(b));
    } else {
        assert((a + b).drop_first() == a.drop_first() + b);
        assert((a + b)[0] == a[0]);
        lemma_utf16_append(a.drop_first(), b);
        assert(utf16_of(a[0]) + (utf16(a.drop_first()) + utf16(b)) == (utf16_of(a[0]) + utf16(
            a.drop_first(),
        )) + utf16(b));
    }
}

/// A text as the null-terminated UTF-16 Windows takes.
pub fn wide(text: &str) -> (units: Vec<u16>)
    ensures
        units@ == utf16(text@).push(0),
{
    let characters = chars_of(text);
    let mut units: Vec<u16> = Vec::new();
    let mut i: usize = 0;
    while i < characters.len()
        invariant
            i <= characters@.len(),
            characters@ == text@,
            units@ == utf16(characters@.take(i as int)),
        decreases characters.len() - i,
    {
        let c = characters[i];
        proof {
            lemma_utf16_append(characters@.take(i as int), seq![c]);
            assert(characters@.take(i + 1) == characters@.take(i as int) + seq![c]);
            assert(utf16(seq![c]) == utf16_of(c)) by {
                assert(seq![c].drop_first() == Seq::<char>::empty());
                assert(seq![c][0] == c);
                assert(utf16(Seq::<char>::empty()) == Seq::<u16>::empty());
                assert(utf16_of(c) + Seq::<u16>::empty() == utf16_of(c));
            }
        }
        let ghost before = units@;
        let n = c as u32;
        if n < 0x10000 {
            units.push(n as u16);
        } else {
            let m = n - 0x10000;
            units.push((0xD800 + m / 1024) as u16);
            units.push((0xDC00 + m % 1024) as u16);
        }
        assert(units@ == before + utf16_of(c));
        i += 1;
    }
    assert(characters@.take(characters@.len() as int) == characters@);
    units.push(0);
    units
}

} // verus!
