//! What a notification decides: the line above the reminder, what each of its buttons means,
//! and where everything in it sits. The window itself is drawn by hand beside the message loop.

use vstd::prelude::*;

use crate::reminder::{parse_when_at, when_of, DAY};
use crate::text::{decimal_chars, decimal_digits, push_all, push_str, string_of};
use crate::ui::{has_edges, quotient_toward_zero, scale, scaled, Rect, LABEL_SIZE};

verus! {

/// What the user did with the notification.
#[derive(Clone, Copy, PartialEq, Eq, Structural, Debug)]
pub enum Outcome {
    Done,
    /// Pushed back by this many seconds. Closing or ignoring the window means the first snooze,
    /// so a reminder is never lost by being dismissed.
    Later(u64),
}

/// The buttons, in the order they are drawn from the left. Done is last and is the filled one.
pub const ACTION_COUNT: usize = 4;

pub const DONE: usize = 3;

/// Ignoring the window is the same as pressing the first snooze.
pub open spec fn standing_outcome() -> Outcome {
    Outcome::Later(1800u64)
}

pub fn first_snooze() -> (outcome: Outcome)
    ensures
        outcome == standing_outcome(),
{
    Outcome::Later(30 * 60)
}

/// The caption of each button.
pub fn action_label(index: usize) -> (label: &'static str)
    requires
        index < ACTION_COUNT,
    ensures
        index == 0 ==> label@ == "+30 MIN"@,
        index == 1 ==> label@ == "+2 HRS"@,
        index == 2 ==> label@ == "TOMORROW"@,
        index == DONE ==> label@ == "DONE  \u{2713}"@,
{
    if index == 0 {
        "+30 MIN"
    } else if index == 1 {
        "+2 HRS"
    } else if index == 2 {
        "TOMORROW"
    } else {
        "DONE  \u{2713}"
    }
}

/// What each snooze button puts the reminder off by, written as a time expression so the
/// parser stays the one place that knows what "tomorrow" means.
pub fn action_expression(index: usize) -> (expression: &'static str)
    requires
        index < DONE,
    ensures
        index == 0 ==> expression@ == "30m"@,
        index == 1 ==> expression@ == "2h"@,
        index == 2 ==> expression@ == "tomorrow"@,
{
    if index == 0 {
        "30m"
    } else if index == 1 {
        "2h"
    } else {
        "tomorrow"
    }
}

/// The expression behind a snooze button, as characters.
pub open spec fn action_expression_of(index: int) -> Seq<char> {
    if index == 0 {
        "30m"@
    } else if index == 1 {
        "2h"@
    } else {
        "tomorrow"@
    }
}

/// What pressing button `index` records, at the given time of day and weekday: Done for the
/// last button, the snooze's delay for the others, or what was standing if a snooze could not
/// be read.
pub fn chosen_outcome(index: usize, now: u32, today: u16, standing: Outcome) -> (outcome: Outcome)
    requires
        index < ACTION_COUNT,
        now < DAY,
        today < 7,
    ensures
        index == DONE ==> outcome == Outcome::Done,
        index != DONE ==> outcome == match when_of(action_expression_of(index as int), now as int, today as int) {
            Some(delay) => Outcome::Later(delay as u64),
            None => standing,
        },
{
    if index == DONE {
        Outcome::Done
    } else {
        match parse_when_at(action_expression(index), now, today) {
            Some(delay) => Outcome::Later(delay),
            None => standing,
        }
    }
}

/// The line above the reminder: how many times it has been put off, once it has been.
pub open spec fn eyebrow_of(snoozes: u32) -> Seq<char> {
    if snoozes == 0 {
        "EXCUSE ME... BUT:"@
    } else {
        "EXCUSE ME... BUT: (snoozed "@ + decimal_digits(snoozes as nat) + "x)"@
    }
}

pub fn eyebrow(snoozes: u32) -> (line: String)
    ensures
        line@ == eyebrow_of(snoozes),
{
    let mut line: Vec<char> = Vec::new();
    if snoozes == 0 {
        push_str(&mut line, "EXCUSE ME... BUT:");
    } else {
        push_str(&mut line, "EXCUSE ME... BUT: (snoozed ");
        push_all(&mut line, decimal_chars(snoozes as u64).as_slice());
        push_str(&mut line, "x)");
    }
    string_of(line.as_slice())
}

/// Logical pixels at 96 DPI.
pub const WIDTH: i32 = 520;

pub const HEIGHT: i32 = 284;

pub const TITLEBAR: i32 = 34;

pub const PADDING: i32 = 18;

pub const GAP: i32 = 10;

pub const FACE: i32 = 152;

pub const BUTTON_HEIGHT: i32 = 44;

pub const DONE_WIDTH: i32 = 118;

/// The size of the type the reminder itself is written in, and of the character's.
pub const MESSAGE_SIZE: i32 = 17;

pub const PERSONA_SIZE: i32 = 19;

/// Where everything sits inside the notification's client area, in device pixels.
pub struct Layout {
    pub titlebar: Rect,
    pub close: Rect,
    pub face: Rect,
    pub eyebrow: Rect,
    pub message: Rect,
    /// The snoozes from the left, then Done.
    pub buttons: [Rect; 4],
}

/// The width each snooze button gets: what the row has left once Done and the gaps are taken.
pub open spec fn snooze_width_at(client_right: int, dpi: int) -> int {
    let padding = scaled(PADDING as int, dpi);
    quotient_toward_zero(
        client_right - padding * 2 - scaled(DONE_WIDTH as int, dpi) - scaled(GAP as int, dpi) * 3,
        3,
    )
}

/// What the layout of a notification `client_right` pixels wide at `dpi` is: the character in a
/// square on the left under the title bar, the line above the reminder and the reminder beside
/// it, and a row of buttons underneath, the snoozes sharing what Done leaves.
pub open spec fn is_notification_layout(layout: Layout, client_right: int, dpi: int) -> bool {
    let titlebar = scaled(TITLEBAR as int, dpi);
    let padding = scaled(PADDING as int, dpi);
    let gap = scaled(GAP as int, dpi);
    let face = scaled(FACE as int, dpi);
    let body_top = titlebar + padding;
    let column_left = padding + face + scaled(18, dpi);
    let eyebrow_bottom = body_top + scaled(LABEL_SIZE * 2, dpi);
    let buttons_top = body_top + face + scaled(16, dpi);
    let buttons_bottom = buttons_top + scaled(BUTTON_HEIGHT as int, dpi);
    let width = snooze_width_at(client_right, dpi);
    let done_width = scaled(DONE_WIDTH as int, dpi);
    &&& has_edges(layout.titlebar, 0, 0, client_right, titlebar)
    &&& has_edges(layout.close, client_right - scaled(46, dpi), 0, client_right, titlebar)
    &&& has_edges(layout.face, padding, body_top, padding + face, body_top + face)
    &&& has_edges(layout.eyebrow, column_left, body_top, client_right - padding, eyebrow_bottom)
    &&& has_edges(layout.message, column_left, eyebrow_bottom + gap, client_right - padding, body_top + face)
    &&& forall|i: int|
        0 <= i < DONE ==> has_edges(
            #[trigger] layout.buttons@[i],
            padding + (width + gap) * i,
            buttons_top,
            padding + (width + gap) * i + width,
            buttons_bottom,
        )
    &&& has_edges(
        layout.buttons@[DONE as int],
        client_right - padding - done_width,
        buttons_top,
        client_right - padding,
        buttons_bottom,
    )
}

/// The layout of a notification whose client area is `client_right` pixels wide, at `dpi`: any
/// width a client area can have, at any DPI at which the largest length it scales, the face,
/// does not overflow.
#[verifier::rlimit(40)]
pub fn layout(client_right: i32, dpi: u32) -> (layout: Layout)
    requires
        0 <= client_right,
        FACE * dpi <= i32::MAX,
    ensures
        is_notification_layout(layout, client_right as int, dpi as int),
{
    proof {
        crate::ui::lemma_scaled_bounds(TITLEBAR as int, dpi as int);
        crate::ui::lemma_scaled_bounds(PADDING as int, dpi as int);
        crate::ui::lemma_scaled_bounds(GAP as int, dpi as int);
        crate::ui::lemma_scaled_bounds(FACE as int, dpi as int);
        crate::ui::lemma_scaled_bounds(BUTTON_HEIGHT as int, dpi as int);
        crate::ui::lemma_scaled_bounds(DONE_WIDTH as int, dpi as int);
        crate::ui::lemma_scaled_bounds(LABEL_SIZE * 2, dpi as int);
        crate::ui::lemma_scaled_bounds(46, dpi as int);
        crate::ui::lemma_scaled_bounds(18, dpi as int);
        crate::ui::lemma_scaled_bounds(16, dpi as int);
    }
    let titlebar_height = scale(TITLEBAR, dpi);
    let padding = scale(PADDING, dpi);
    let gap = scale(GAP, dpi);
    let face = scale(FACE, dpi);
    let button_height = scale(BUTTON_HEIGHT, dpi);
    let done_width = scale(DONE_WIDTH, dpi);
    let label_height = scale(LABEL_SIZE * 2, dpi);

    let body_top = titlebar_height + padding;
    let face_rect = Rect { left: padding, top: body_top, right: padding + face, bottom: body_top + face };
    let column_left = face_rect.right + scale(18, dpi);
    let eyebrow = Rect { left: column_left, top: body_top, right: client_right - padding, bottom: body_top + label_height };
    let message = Rect {
        left: column_left,
        top: eyebrow.bottom + gap,
        right: client_right - padding,
        bottom: face_rect.bottom,
    };

    // Done keeps a fixed width; the three snoozes share what is left.
    let buttons_top = face_rect.bottom + scale(16, dpi);
    let buttons_bottom = buttons_top + button_height;
    let available = client_right - padding * 2 - done_width - gap * 3;
    let snooze_width = available / 3;
    let second = padding + snooze_width + gap;
    let third = second + snooze_width + gap;
    let buttons = [
        Rect { left: padding, top: buttons_top, right: padding + snooze_width, bottom: buttons_bottom },
        Rect { left: second, top: buttons_top, right: second + snooze_width, bottom: buttons_bottom },
        Rect { left: third, top: buttons_top, right: third + snooze_width, bottom: buttons_bottom },
        Rect {
            left: client_right - padding - done_width,
            top: buttons_top,
            right: client_right - padding,
            bottom: buttons_bottom,
        },
    ];
    let layout = Layout {
        titlebar: Rect { left: 0, top: 0, right: client_right, bottom: titlebar_height },
        close: Rect { left: client_right - scale(46, dpi), top: 0, right: client_right, bottom: titlebar_height },
        face: face_rect,
        eyebrow,
        message,
        buttons,
    };
    proof {
        assert(snooze_width == snooze_width_at(client_right as int, dpi as int));
        assert forall|i: int| 0 <= i < DONE implies has_edges(
            #[trigger] layout.buttons@[i],
            padding + (snooze_width + gap) * i,
            buttons_top as int,
            padding + (snooze_width + gap) * i + snooze_width,
            buttons_bottom as int,
        ) by {
            if i == 1 {
                assert((snooze_width + gap) * i == snooze_width + gap);
            } else if i == 2 {
                assert((snooze_width + gap) * i == 2 * (snooze_width + gap));
            }
        }
    }
    layout
}

/// The step up from the bottom corner that notification number `slot` sits at: its own height
/// and a margin for every slot below it.
pub open spec fn step_at(slot: int, dpi: int) -> int {
    (scaled(HEIGHT as int, dpi) + scaled(12, dpi)) * slot
}

/// Where notification number `slot` goes, stacked up from the bottom right corner of a
/// monitor's work area: its left and top edges, width and height.
pub fn placement(work: &Rect, slot: usize, dpi: u32) -> (position: (i32, i32, i32, i32))
    requires
        WIDTH * dpi <= i32::MAX,
        step_at(slot as int, dpi as int) <= i32::MAX,
        i32::MIN <= work.right - scaled(12, dpi as int) - scaled(WIDTH as int, dpi as int),
        i32::MIN <= work.bottom - scaled(12, dpi as int) - scaled(HEIGHT as int, dpi as int) - step_at(
            slot as int,
            dpi as int,
        ),
    ensures
        ({
            let width = scaled(WIDTH as int, dpi as int);
            let height = scaled(HEIGHT as int, dpi as int);
            let margin = scaled(12, dpi as int);
            &&& position.0 == work.right - margin - width
            &&& position.1 == work.bottom - margin - height - step_at(slot as int, dpi as int)
            &&& position.2 == width
            &&& position.3 == height
        }),
{
    proof {
        crate::ui::lemma_scaled_bounds(WIDTH as int, dpi as int);
        crate::ui::lemma_scaled_bounds(HEIGHT as int, dpi as int);
        crate::ui::lemma_scaled_bounds(12, dpi as int);
        assert(HEIGHT * dpi <= WIDTH * dpi && 12 * dpi <= WIDTH * dpi) by (nonlinear_arith)
            requires
                HEIGHT == 284,
                WIDTH == 520,
        ;
    }
    let width = scale(WIDTH, dpi);
    let height = scale(HEIGHT, dpi);
    let margin = scale(12, dpi);
    let one = height + margin;
    proof {
        assert(0 <= one * slot <= i32::MAX);
        if one >= 1 {
            assert(slot <= one * slot) by (nonlinear_arith)
                requires
                    one >= 1,
                    slot >= 0,
            ;
            assert(slot as i32 == slot);
        } else {
            assert(one == 0);
            assert(one * (slot as i32) == 0) by (nonlinear_arith)
                requires
                    one == 0,
            ;
            assert(one * (slot as int) == 0) by (nonlinear_arith)
                requires
                    one == 0,
            ;
        }
        assert(step_at(slot as int, dpi as int) == one * (slot as int));
    }
    let step = one * slot as i32;
    (work.right - margin - width, work.bottom - margin - height - step, width, height)
}

/// Stacked notifications never overlap: each slot starts a full window and a margin above the
/// one below it.
pub proof fn lemma_slots_do_not_overlap(slot: int, dpi: int)
    requires
        0 <= slot,
    ensures
        step_at(slot + 1, dpi) - step_at(slot, dpi) == scaled(HEIGHT as int, dpi) + scaled(12, dpi),
{
    assert((scaled(HEIGHT as int, dpi) + scaled(12, dpi)) * (slot + 1) == (scaled(HEIGHT as int, dpi)
        + scaled(12, dpi)) * slot + (scaled(HEIGHT as int, dpi) + scaled(12, dpi))) by (nonlinear_arith);
}

} // verus!
