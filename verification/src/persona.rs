//! The character on a notification: a note pinned to the screen, animated by swapping frames.
//!
//! Every frame is the same rectangle of characters, so redrawing one never moves anything around
//! it. The note itself never changes. Only the brows, the eyes and the mouth differ, which is
//! what makes a new expression cost three names rather than a new drawing.
//!
//! The brows are blank at rest, so a settled note carries only eyes and a mouth. That is
//! deliberate: a face that has been level all along and then draws its brows together says
//! something a permanently drawn brow cannot.

use vstd::prelude::*;

use crate::text::{push_all, string_of};

verus! {

// The three parts that ever differ. Each is nine characters wide and sits in the same nine
// columns of the note, so the eyes line up under the brows and over the mouth by construction.
#[derive(Clone, Copy, PartialEq, Eq, Structural, Debug)]
pub enum Brows {
    Level,
    Raised,
    Cocked,
    Drawn,
    Tired,
}

#[derive(Clone, Copy, PartialEq, Eq, Structural, Debug)]
pub enum Eyes {
    Open,
    Shut,
    Wide,
    Huge,
    /// One column off centre reads as a glance, two as the head turning.
    Left,
    Right,
    TurnedLeft,
    TurnedRight,
}

#[derive(Clone, Copy, PartialEq, Eq, Structural, Debug)]
pub enum Mouth {
    Flat,
    Small,
    Open,
    Grim,
}

pub open spec fn brows_art(brows: Brows) -> Seq<char> {
    match brows {
        Brows::Level => seq![' ', ' ', ' ', ' ', ' ', ' ', ' ', ' ', ' '],
        Brows::Raised => seq![' ', ' ', '^', ' ', ' ', ' ', '^', ' ', ' '],
        Brows::Cocked => seq![' ', ' ', '^', ' ', ' ', ' ', '_', ' ', ' '],
        Brows::Drawn => seq![' ', ' ', '\\', ' ', ' ', ' ', '/', ' ', ' '],
        Brows::Tired => seq![' ', ' ', '~', ' ', ' ', ' ', '~', ' ', ' '],
    }
}

pub open spec fn eyes_art(eyes: Eyes) -> Seq<char> {
    match eyes {
        Eyes::Open => seq![' ', ' ', 'o', ' ', ' ', ' ', 'o', ' ', ' '],
        Eyes::Shut => seq![' ', ' ', '-', ' ', ' ', ' ', '-', ' ', ' '],
        Eyes::Wide => seq![' ', ' ', 'O', ' ', ' ', ' ', 'O', ' ', ' '],
        Eyes::Huge => seq![' ', ' ', '@', ' ', ' ', ' ', '@', ' ', ' '],
        Eyes::Left => seq![' ', 'o', ' ', ' ', ' ', 'o', ' ', ' ', ' '],
        Eyes::Right => seq![' ', ' ', ' ', 'o', ' ', ' ', ' ', 'o', ' '],
        Eyes::TurnedLeft => seq!['o', ' ', ' ', ' ', 'o', ' ', ' ', ' ', ' '],
        Eyes::TurnedRight => seq![' ', ' ', ' ', ' ', 'o', ' ', ' ', ' ', 'o'],
    }
}

pub open spec fn mouth_art(mouth: Mouth) -> Seq<char> {
    match mouth {
        Mouth::Flat => seq![' ', ' ', ' ', ' ', '-', ' ', ' ', ' ', ' '],
        Mouth::Small => seq![' ', ' ', ' ', ' ', '.', ' ', ' ', ' ', ' '],
        Mouth::Open => seq![' ', ' ', ' ', '_', '_', '_', ' ', ' ', ' '],
        Mouth::Grim => seq![' ', ' ', ' ', '-', '-', '-', ' ', ' ', ' '],
    }
}

/// A part dropped into the note between its two edges.
pub open spec fn framed(part: Seq<char>) -> Seq<char> {
    seq!['|', ' '] + part + seq![' ', '|']
}

/// The six lines of a pinned note with the three parts dropped into it.
pub open spec fn note_lines(brows: Brows, eyes: Eyes, mouth: Mouth) -> Seq<Seq<char>> {
    seq![
        seq![' ', ' ', ' ', ' ', ' ', '(', 'o', ')', ' ', ' ', ' ', ' ', ' '],
        seq![',', '-', '-', '-', '-', '-', '-', '-', '-', '-', '-', '-', ','],
        framed(brows_art(brows)),
        framed(eyes_art(eyes)),
        framed(mouth_art(mouth)),
        seq!['\'', '~', 'v', '~', 'v', '~', 'v', '~', 'v', '~', 'v', '~', '\''],
    ]
}

/// Lines joined with a line feed between each two.
pub open spec fn joined(lines: Seq<Seq<char>>) -> Seq<char>
    decreases lines.len(),
{
    if lines.len() == 0 {
        Seq::empty()
    } else if lines.len() == 1 {
        lines[0]
    } else {
        joined(lines.drop_last()) + seq!['\n'] + lines.last()
    }
}

pub open spec fn note_art(brows: Brows, eyes: Eyes, mouth: Mouth) -> Seq<char> {
    joined(note_lines(brows, eyes, mouth))
}

pub struct Frame {
    pub art: String,
    pub millis: u64,
}

#[derive(Clone, Copy, PartialEq, Eq, Structural, Debug)]
pub enum Mood {
    /// Nothing has happened yet: blinks, glances about, and now and then turns to look.
    Idle,
    /// Already pushed back at least once: heavy lidded.
    Waiting,
    /// On screen a while with no answer: stares.
    Ignored,
}

/// The frames of each mood, as their parts and how long each is shown for.
pub open spec fn frame_parts(mood: Mood) -> Seq<(Brows, Eyes, Mouth, u64)> {
    match mood {
        Mood::Idle => seq![
            (Brows::Level, Eyes::Open, Mouth::Flat, 2600u64),
            (Brows::Level, Eyes::Shut, Mouth::Flat, 130u64),
            (Brows::Level, Eyes::Open, Mouth::Flat, 300u64),
            (Brows::Level, Eyes::Shut, Mouth::Flat, 130u64),
            (Brows::Level, Eyes::Open, Mouth::Flat, 2000u64),
            (Brows::Level, Eyes::Left, Mouth::Flat, 900u64),
            (Brows::Level, Eyes::TurnedLeft, Mouth::Flat, 1300u64),
            (Brows::Raised, Eyes::TurnedLeft, Mouth::Small, 700u64),
            (Brows::Level, Eyes::Open, Mouth::Flat, 1500u64),
            (Brows::Level, Eyes::Shut, Mouth::Flat, 130u64),
            (Brows::Level, Eyes::Open, Mouth::Flat, 1800u64),
            (Brows::Level, Eyes::Right, Mouth::Flat, 900u64),
            (Brows::Level, Eyes::TurnedRight, Mouth::Flat, 1300u64),
            (Brows::Cocked, Eyes::TurnedRight, Mouth::Small, 800u64),
        ],
        Mood::Waiting => seq![
            (Brows::Tired, Eyes::Shut, Mouth::Small, 1700u64),
            (Brows::Tired, Eyes::Open, Mouth::Small, 500u64),
            (Brows::Tired, Eyes::Shut, Mouth::Small, 2400u64),
            (Brows::Tired, Eyes::Shut, Mouth::Open, 900u64),
        ],
        Mood::Ignored => seq![
            (Brows::Drawn, Eyes::Wide, Mouth::Grim, 3800u64),
            (Brows::Drawn, Eyes::Huge, Mouth::Open, 220u64),
            (Brows::Drawn, Eyes::Wide, Mouth::Open, 300u64),
        ],
    }
}

/// How long on screen without an answer before the character starts to stare.
pub const STARE_AFTER_SECONDS: u64 = 25;

pub open spec fn mood_of(snoozes: u32, on_screen_seconds: u64) -> Mood {
    if on_screen_seconds >= STARE_AFTER_SECONDS {
        Mood::Ignored
    } else if snoozes > 0 {
        Mood::Waiting
    } else {
        Mood::Idle
    }
}

/// How it looks: put out by having been pushed back, and increasingly pointed about being
/// left on screen unanswered. The time on screen is in whole seconds.
pub fn mood(snoozes: u32, on_screen_seconds: u64) -> (m: Mood)
    ensures
        m == mood_of(snoozes, on_screen_seconds),
{
    if on_screen_seconds >= STARE_AFTER_SECONDS {
        Mood::Ignored
    } else if snoozes > 0 {
        Mood::Waiting
    } else {
        Mood::Idle
    }
}

fn brows_chars(brows: Brows) -> (r: &'static [char])
    ensures
        r@ == brows_art(brows),
{
    let r: &'static [char] = match brows {
        Brows::Level => &[' ', ' ', ' ', ' ', ' ', ' ', ' ', ' ', ' '],
        Brows::Raised => &[' ', ' ', '^', ' ', ' ', ' ', '^', ' ', ' '],
        Brows::Cocked => &[' ', ' ', '^', ' ', ' ', ' ', '_', ' ', ' '],
        Brows::Drawn => &[' ', ' ', '\\', ' ', ' ', ' ', '/', ' ', ' '],
        Brows::Tired => &[' ', ' ', '~', ' ', ' ', ' ', '~', ' ', ' '],
    };
    r
}

fn eyes_chars(eyes: Eyes) -> (r: &'static [char])
    ensures
        r@ == eyes_art(eyes),
{
    let r: &'static [char] = match eyes {
        Eyes::Open => &[' ', ' ', 'o', ' ', ' ', ' ', 'o', ' ', ' '],
        Eyes::Shut => &[' ', ' ', '-', ' ', ' ', ' ', '-', ' ', ' '],
        Eyes::Wide => &[' ', ' ', 'O', ' ', ' ', ' ', 'O', ' ', ' '],
        Eyes::Huge => &[' ', ' ', '@', ' ', ' ', ' ', '@', ' ', ' '],
        Eyes::Left => &[' ', 'o', ' ', ' ', ' ', 'o', ' ', ' ', ' '],
        Eyes::Right => &[' ', ' ', ' ', 'o', ' ', ' ', ' ', 'o', ' '],
        Eyes::TurnedLeft => &['o', ' ', ' ', ' ', 'o', ' ', ' ', ' ', ' '],
        Eyes::TurnedRight => &[' ', ' ', ' ', ' ', 'o', ' ', ' ', ' ', 'o'],
    };
    r
}

fn mouth_chars(mouth: Mouth) -> (r: &'static [char])
    ensures
        r@ == mouth_art(mouth),
{
    let r: &'static [char] = match mouth {
        Mouth::Flat => &[' ', ' ', ' ', ' ', '-', ' ', ' ', ' ', ' '],
        Mouth::Small => &[' ', ' ', ' ', ' ', '.', ' ', ' ', ' ', ' '],
        Mouth::Open => &[' ', ' ', ' ', '_', '_', '_', ' ', ' ', ' '],
        Mouth::Grim => &[' ', ' ', ' ', '-', '-', '-', ' ', ' ', ' '],
    };
    r
}

/// Assembles a frame: a pinned note with the three parts dropped into it.
fn note(brows: Brows, eyes: Eyes, mouth: Mouth) -> (art: String)
    ensures
        art@ == note_art(brows, eyes, mouth),
{
    let ghost lines = note_lines(brows, eyes, mouth);
    let top: &[char] = &[' ', ' ', ' ', ' ', ' ', '(', 'o', ')', ' ', ' ', ' ', ' ', ' '];
    let edge: &[char] = &[',', '-', '-', '-', '-', '-', '-', '-', '-', '-', '-', '-', ','];
    let bottom: &[char] = &['\'', '~', 'v', '~', 'v', '~', 'v', '~', 'v', '~', 'v', '~', '\''];
    let mut art: Vec<char> = Vec::new();
    push_all(&mut art, top);
    assert(art@ == joined(lines.take(1)));
    art.push('\n');
    push_all(&mut art, edge);
    assert(lines.take(2).drop_last() == lines.take(1));
    assert(art@ == joined(lines.take(2)));
    let parts: [&[char]; 3] = [brows_chars(brows), eyes_chars(eyes), mouth_chars(mouth)];
    let mut k: usize = 0;
    while k < 3
        invariant
            k <= 3,
            lines == note_lines(brows, eyes, mouth),
            art@ == joined(lines.take(k + 2)),
            parts@[0]@ == brows_art(brows),
            parts@[1]@ == eyes_art(eyes),
            parts@[2]@ == mouth_art(mouth),
        decreases 3 - k,
    {
        art.push('\n');
        art.push('|');
        art.push(' ');
        push_all(&mut art, parts[k]);
        art.push(' ');
        art.push('|');
        assert(lines.take(k + 3).drop_last() == lines.take(k + 2));
        assert(lines[k + 2] == framed(parts@[k as int]@));
        assert(art@ == joined(lines.take(k + 3)));
        k += 1;
    }
    art.push('\n');
    push_all(&mut art, bottom);
    assert(lines.take(6).drop_last() == lines.take(5));
    assert(lines.take(6) == lines);
    string_of(art.as_slice())
}

/// Every frame of a mood, in the order they are shown. The loop runs round to the first again.
pub fn frames(mood: Mood) -> (frames: Vec<Frame>)
    ensures
        frames@.len() == frame_parts(mood).len(),
        forall|i: int|
            0 <= i < frames@.len() ==> {
                let (brows, eyes, mouth, millis) = #[trigger] frame_parts(mood)[i];
                &&& frames@[i].art@ == note_art(brows, eyes, mouth)
                &&& frames@[i].millis == millis
            },
{
    let parts: Vec<(Brows, Eyes, Mouth, u64)> = match mood {
        Mood::Idle => vec![
            (Brows::Level, Eyes::Open, Mouth::Flat, 2600u64),
            (Brows::Level, Eyes::Shut, Mouth::Flat, 130u64),
            (Brows::Level, Eyes::Open, Mouth::Flat, 300u64),
            (Brows::Level, Eyes::Shut, Mouth::Flat, 130u64),
            (Brows::Level, Eyes::Open, Mouth::Flat, 2000u64),
            (Brows::Level, Eyes::Left, Mouth::Flat, 900u64),
            (Brows::Level, Eyes::TurnedLeft, Mouth::Flat, 1300u64),
            (Brows::Raised, Eyes::TurnedLeft, Mouth::Small, 700u64),
            (Brows::Level, Eyes::Open, Mouth::Flat, 1500u64),
            (Brows::Level, Eyes::Shut, Mouth::Flat, 130u64),
            (Brows::Level, Eyes::Open, Mouth::Flat, 1800u64),
            (Brows::Level, Eyes::Right, Mouth::Flat, 900u64),
            (Brows::Level, Eyes::TurnedRight, Mouth::Flat, 1300u64),
            (Brows::Cocked, Eyes::TurnedRight, Mouth::Small, 800u64),
        ],
        Mood::Waiting => vec![
            (Brows::Tired, Eyes::Shut, Mouth::Small, 1700u64),
            (Brows::Tired, Eyes::Open, Mouth::Small, 500u64),
            (Brows::Tired, Eyes::Shut, Mouth::Small, 2400u64),
            (Brows::Tired, Eyes::Shut, Mouth::Open, 900u64),
        ],
        Mood::Ignored => vec![
            (Brows::Drawn, Eyes::Wide, Mouth::Grim, 3800u64),
            (Brows::Drawn, Eyes::Huge, Mouth::Open, 220u64),
            (Brows::Drawn, Eyes::Wide, Mouth::Open, 300u64),
        ],
    };
    assert(parts@ == frame_parts(mood));
    let mut frames: Vec<Frame> = Vec::new();
    let mut i: usize = 0;
    while i < parts.len()
        invariant
            i <= parts@.len(),
            parts@ == frame_parts(mood),
            frames@.len() == i,
            forall|j: int|
                0 <= j < i ==> {
                    let (brows, eyes, mouth, millis) = #[trigger] frame_parts(mood)[j];
                    &&& frames@[j].art@ == note_art(brows, eyes, mouth)
                    &&& frames@[j].millis == millis
                },
        decreases parts.len() - i,
    {
        let (brows, eyes, mouth, millis) = parts[i];
        frames.push(Frame { art: note(brows, eyes, mouth), millis });
        i += 1;
    }
    frames
}

/// A seam-free rectangle: `count` lines of 13 columns each, joined by line feeds.
pub open spec fn is_rectangle(lines: Seq<Seq<char>>) -> bool {
    forall|k: int| 0 <= k < lines.len() ==> (#[trigger] lines[k]).len() == 13 && forall|j: int|
        0 <= j < 13 ==> lines[k][j] != '\n' && (lines[k][j] as u32) < 128
}

/// Where each character of joined lines of 13 columns comes from.
pub proof fn lemma_joined_positions(lines: Seq<Seq<char>>)
    requires
        lines.len() > 0,
        is_rectangle(lines),
    ensures
        joined(lines).len() == 14 * lines.len() - 1,
        forall|k: int, j: int|
            0 <= k < lines.len() && 0 <= j < 13 ==> #[trigger] joined(lines)[14 * k + j] == lines[k][j],
        forall|k: int| 0 <= k < lines.len() - 1 ==> #[trigger] joined(lines)[14 * k + 13] == '\n',
    decreases lines.len(),
{
    if lines.len() > 1 {
        let front = lines.drop_last();
        assert(is_rectangle(front)) by {
            assert forall|k: int| 0 <= k < front.len() implies (#[trigger] front[k]).len() == 13 by {
                assert(front[k] == lines[k]);
            }
        }
        lemma_joined_positions(front);
        let j0 = joined(front);
        assert(joined(lines) == j0 + seq!['\n'] + lines.last());
        assert forall|k: int, j: int| 0 <= k < lines.len() && 0 <= j < 13 implies #[trigger] joined(
            lines,
        )[14 * k + j] == lines[k][j] by {
            if k < lines.len() - 1 {
                assert(front[k] == lines[k]);
                assert(joined(lines)[14 * k + j] == j0[14 * k + j]);
            }
        }
        assert forall|k: int| 0 <= k < lines.len() - 1 implies #[trigger] joined(lines)[14 * k + 13]
            == '\n' by {
            if k < lines.len() - 2 {
                assert(joined(lines)[14 * k + 13] == j0[14 * k + 13]);
            }
        }
    }
}

/// Every frame there could be is the same rectangle: six lines of thirteen columns, of nothing
/// but ASCII, so a redraw never moves anything and every glyph comes from the one face.
pub proof fn lemma_every_note_is_the_same_rectangle(brows: Brows, eyes: Eyes, mouth: Mouth)
    ensures
        note_lines(brows, eyes, mouth).len() == 6,
        is_rectangle(note_lines(brows, eyes, mouth)),
        note_art(brows, eyes, mouth).len() == 83,
        forall|i: int|
            0 <= i < 83 ==> (#[trigger] note_art(brows, eyes, mouth)[i] == '\n' <==> i % 14 == 13),
        forall|i: int| 0 <= i < 83 ==> (#[trigger] note_art(brows, eyes, mouth)[i] as u32) < 128,
{
    let lines = note_lines(brows, eyes, mouth);
    assert(is_rectangle(lines)) by {
        assert forall|k: int| 0 <= k < lines.len() implies (#[trigger] lines[k]).len() == 13 && forall|j: int|
            0 <= j < 13 ==> lines[k][j] != '\n' && (lines[k][j] as u32) < 128 by {
            if k == 2 {
                assert forall|j: int| 0 <= j < 13 implies lines[k][j] != '\n' && (lines[k][j] as u32) < 128 by {
                    if 2 <= j < 11 {
                        assert(lines[k][j] == brows_art(brows)[j - 2]);
                    }
                }
            } else if k == 3 {
                assert forall|j: int| 0 <= j < 13 implies lines[k][j] != '\n' && (lines[k][j] as u32) < 128 by {
                    if 2 <= j < 11 {
                        assert(lines[k][j] == eyes_art(eyes)[j - 2]);
                    }
                }
            } else if k == 4 {
                assert forall|j: int| 0 <= j < 13 implies lines[k][j] != '\n' && (lines[k][j] as u32) < 128 by {
                    if 2 <= j < 11 {
                        assert(lines[k][j] == mouth_art(mouth)[j - 2]);
                    }
                }
            }
        }
    }
    lemma_joined_positions(lines);
    let art = note_art(brows, eyes, mouth);
    assert forall|i: int| 0 <= i < 83 implies (#[trigger] art[i] == '\n' <==> i % 14 == 13) && (
    art[i] as u32) < 128 by {
        let k = i / 14;
        let j = i % 14;
        assert(i == 14 * k + j);
        if j < 13 {
            assert(art[14 * k + j] == lines[k][j]);
        } else {
            assert(art[14 * k + 13] == '\n');
        }
    }
}

proof fn lemma_joined_at(lines: Seq<Seq<char>>, k: int, j: int)
    requires
        lines.len() > 0,
        is_rectangle(lines),
        0 <= k < lines.len(),
        0 <= j < 13,
    ensures
        joined(lines)[14 * k + j] == lines[k][j],
{
    lemma_joined_positions(lines);
}

/// Notes that look the same have the same brows, eyes and mouth.
pub proof fn lemma_notes_differ(b1: Brows, e1: Eyes, m1: Mouth, b2: Brows, e2: Eyes, m2: Mouth)
    requires
        (b1, e1, m1) != (b2, e2, m2),
    ensures
        note_art(b1, e1, m1) != note_art(b2, e2, m2),
{
    lemma_every_note_is_the_same_rectangle(b1, e1, m1);
    lemma_every_note_is_the_same_rectangle(b2, e2, m2);
    let l1 = note_lines(b1, e1, m1);
    let l2 = note_lines(b2, e2, m2);
    if note_art(b1, e1, m1) == note_art(b2, e2, m2) {
        assert forall|k: int, j: int| 0 <= k < 6 && 0 <= j < 13 implies l1[k][j] == l2[k][j] by {
            lemma_joined_at(l1, k, j);
            lemma_joined_at(l2, k, j);
        }
        assert forall|j: int| 0 <= j < 9 implies brows_art(b1)[j] == brows_art(b2)[j] by {
            assert(l1[2][j + 2] == l2[2][j + 2]);
        }
        assert forall|j: int| 0 <= j < 9 implies eyes_art(e1)[j] == eyes_art(e2)[j] by {
            assert(l1[3][j + 2] == l2[3][j + 2]);
        }
        assert forall|j: int| 0 <= j < 9 implies mouth_art(m1)[j] == mouth_art(m2)[j] by {
            assert(l1[4][j + 2] == l2[4][j + 2]);
        }
        assert(brows_art(b1)[2] == brows_art(b2)[2] && brows_art(b1)[6] == brows_art(b2)[6]);
        assert(eyes_art(e1)[0] == eyes_art(e2)[0] && eyes_art(e1)[1] == eyes_art(e2)[1]
            && eyes_art(e1)[2] == eyes_art(e2)[2] && eyes_art(e1)[3] == eyes_art(e2)[3]
            && eyes_art(e1)[8] == eyes_art(e2)[8]);
        assert(mouth_art(m1)[3] == mouth_art(m2)[3] && mouth_art(m1)[4] == mouth_art(m2)[4]);
    }
}

/// Every mood has more than one frame, and every frame is shown for some time, so the character
/// always moves.
pub proof fn lemma_every_mood_advances(mood: Mood)
    ensures
        frame_parts(mood).len() > 1,
        forall|i: int| 0 <= i < frame_parts(mood).len() ==> (#[trigger] frame_parts(mood)[i]).3 > 0,
{
}

/// No frame repeats the one before it, including where the loop wraps round to the first: a
/// redraw always changes something.
pub proof fn lemma_no_frame_repeats_the_one_before(mood: Mood, i: int)
    requires
        0 <= i < frame_parts(mood).len(),
    ensures
        ({
            let this = frame_parts(mood)[i];
            let next = frame_parts(mood)[(i + 1) % frame_parts(mood).len() as int];
            note_art(this.0, this.1, this.2) != note_art(next.0, next.1, next.2)
        }),
{
    let parts = frame_parts(mood);
    let this = parts[i];
    let next = parts[(i + 1) % parts.len() as int];
    assert((this.0, this.1, this.2) != (next.0, next.1, next.2)) by {
        match mood {
            Mood::Idle => {
                if i == 0 {
                    assert((i + 1) % 14 == 1);
                }
                if i == 1 {
                    assert((i + 1) % 14 == 2);
                }
                if i == 2 {
                    assert((i + 1) % 14 == 3);
                }
                if i == 3 {
                    assert((i + 1) % 14 == 4);
                }
                if i == 4 {
                    assert((i + 1) % 14 == 5);
                }
                if i == 5 {
                    assert((i + 1) % 14 == 6);
                }
                if i == 6 {
                    assert((i + 1) % 14 == 7);
                }
                if i == 7 {
                    assert((i + 1) % 14 == 8);
                }
                if i == 8 {
                    assert((i + 1) % 14 == 9);
                }
                if i == 9 {
                    assert((i + 1) % 14 == 10);
                }
                if i == 10 {
                    assert((i + 1) % 14 == 11);
                }
                if i == 11 {
                    assert((i + 1) % 14 == 12);
                }
                if i == 12 {
                    assert((i + 1) % 14 == 13);
                }
                if i == 13 {
                    assert((i + 1) % 14 == 0);
                }
            },
            Mood::Waiting => {
                if i == 0 {
                    assert((i + 1) % 4 == 1);
                }
                if i == 1 {
                    assert((i + 1) % 4 == 2);
                }
                if i == 2 {
                    assert((i + 1) % 4 == 3);
                }
                if i == 3 {
                    assert((i + 1) % 4 == 0);
                }
            },
            Mood::Ignored => {
                if i == 0 {
                    assert((i + 1) % 3 == 1);
                }
                if i == 1 {
                    assert((i + 1) % 3 == 2);
                }
                if i == 2 {
                    assert((i + 1) % 3 == 0);
                }
            },
        }
    }
    lemma_notes_differ(this.0, this.1, this.2, next.0, next.1, next.2);
}

} // verus!
