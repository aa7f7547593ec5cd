//! What the reminder input form decides: what pressing one of its buttons means, and where its
//! stacked rows and buttons sit. The window and its edit controls live beside the message loop.

use vstd::prelude::*;

use crate::reminder::{
    lemma_bare_tomorrow_is_the_morning, lemma_units_in_seconds, means_seconds, parse_when_at, when_of, word_tomorrow,
    DAY, DEFAULT_MORNING,
};
use crate::text::decimal;
use crate::text::{chars_of, trim, trimmed};
use crate::ui::{has_edges, scale, scaled, Rect, FIELD_SIZE, LABEL_SIZE};

verus! {

/// Logical pixels at 96 DPI.
pub const WIDTH: i32 = 540;

pub const TITLEBAR: i32 = 34;

pub const PADDING: i32 = 24;

pub const LABEL_GAP: i32 = 10;

pub const GROUP_GAP: i32 = 20;

pub const TEXT_HEIGHT: i32 = 76;

pub const ROW_HEIGHT: i32 = 40;

pub const QUICK_HEIGHT: i32 = 38;

pub const QUICK_GAP: i32 = 12;

pub const SET_WIDTH: i32 = 88;

pub const CANCEL_WIDTH: i32 = 118;

pub const CANCEL_HEIGHT: i32 = 38;

pub const HINT_HEIGHT: i32 = 17;

pub const EDIT_INSET: i32 = 10;

pub const HINT: &'static str = "e.g. \"in 45m\"   \"at 12\"   \"tomorrow 9\"   \"monday 14\"";

/// One click for the times a reminder actually gets set for: the first buttons.
pub const QUICK_COUNT: usize = 3;

/// The buttons that are not quick picks, numbered on from them.
pub const SET: usize = 3;

pub const CANCEL: usize = 4;

pub const BUTTONS: usize = 5;

/// What the user accepted: the reminder itself, and how many seconds from now it is due.
pub struct Entry {
    pub text: String,
    pub delay: u64,
}

/// What pressing a button means.
pub enum Answer {
    Accepted(Entry),
    Cancelled,
    /// Said no to without saying which half was wrong: an empty reminder or a time that cannot
    /// be read.
    Rejected,
}

pub fn quick_label(button: usize) -> (label: &'static str)
    requires
        button < QUICK_COUNT,
    ensures
        button == 0 ==> label@ == "10 MIN"@,
        button == 1 ==> label@ == "1 HOUR"@,
        button == 2 ==> label@ == "TOMORROW 9AM"@,
{
    if button == 0 {
        "10 MIN"
    } else if button == 1 {
        "1 HOUR"
    } else {
        "TOMORROW 9AM"
    }
}

pub open spec fn quick_expression_of(button: int) -> Seq<char> {
    if button == 0 {
        "10m"@
    } else if button == 1 {
        "1h"@
    } else {
        "tomorrow"@
    }
}

/// The quick picks mean what their labels say: ten minutes from now, an hour from now, and
/// 09:00 tomorrow.
pub proof fn lemma_quick_picks_mean_their_labels(now: int, today: int)
    requires
        0 <= now < DAY,
        0 <= today < 7,
    ensures
        when_of(quick_expression_of(0), now, today) == Some(600int),
        when_of(quick_expression_of(1), now, today) == Some(3600int),
        when_of(quick_expression_of(2), now, today) == Some(DAY + DEFAULT_MORNING - now),
{
    reveal_strlit("10m");
    reveal_strlit("1h");
    reveal_strlit("tomorrow");
    reveal_with_fuel(decimal, 3);
    let ten = seq!['1', '0'];
    let one = seq!['1'];
    let gap = Seq::<char>::empty();
    assert(decimal(ten) == 10);
    assert(decimal(one) == 1);
    lemma_units_in_seconds(ten, gap, now, today);
    lemma_units_in_seconds(one, gap, now, today);
    assert(means_seconds(ten + gap + seq!['m'], now, today, 600));
    assert(means_seconds(one + gap + seq!['h'], now, today, 3600));
    assert(ten + gap + seq!['m'] == quick_expression_of(0));
    assert(one + gap + seq!['h'] == quick_expression_of(1));
    assert(quick_expression_of(2) == word_tomorrow());
    lemma_bare_tomorrow_is_the_morning(now, today);
    reveal(means_seconds);
}

pub fn quick_expression(button: usize) -> (expression: &'static str)
    requires
        button < QUICK_COUNT,
    ensures
        expression@ == quick_expression_of(button as int),
{
    if button == 0 {
        "10m"
    } else if button == 1 {
        "1h"
    } else {
        "tomorrow"
    }
}

/// What pressing `button` means once the fields have been read: Cancel cancels; otherwise a
/// reminder with nothing but whitespace in it is refused, and the time is the quick pick's or
/// the one typed, read at the given time of day and weekday.
pub fn answer(button: usize, text: String, typed: &str, now: u32, today: u16) -> (r: Answer)
    requires
        button < BUTTONS,
        now < DAY,
        today < 7,
    ensures
        button == CANCEL ==> r is Cancelled,
        button != CANCEL && trimmed(text@).len() == 0 ==> r is Rejected,
        button < QUICK_COUNT && trimmed(text@).len() > 0 ==> (r matches Answer::Accepted(entry) && entry.text@
            == text@ && entry.delay == if button == 0 {
            600
        } else if button == 1 {
            3600
        } else {
            DAY + DEFAULT_MORNING - now
        }),
        button != CANCEL && trimmed(text@).len() > 0 ==> ({
            let expression = if button < QUICK_COUNT {
                quick_expression_of(button as int)
            } else {
                typed@
            };
            match when_of(expression, now as int, today as int) {
                Some(delay) => r matches Answer::Accepted(entry) && entry.text@ == text@ && entry.delay
                    == delay,
                None => r is Rejected,
            }
        }),
{
    proof {
        lemma_quick_picks_mean_their_labels(now as int, today as int);
    }
    if button == CANCEL {
        return Answer::Cancelled;
    }
    let characters = chars_of(text.as_str());
    if trim(characters.as_slice()).len() == 0 {
        return Answer::Rejected;
    }
    let expression = if button < QUICK_COUNT {
        quick_expression(button)
    } else {
        typed
    };
    match parse_when_at(expression, now, today) {
        Some(delay) => Answer::Accepted(Entry { text, delay }),
        None => Answer::Rejected,
    }
}

pub open spec fn label_height_at(dpi: int) -> int {
    scaled(LABEL_SIZE as int, dpi) * 3 / 2
}

/// The height of a label row, in device pixels: one and a half times the label type.
pub fn label_height(dpi: u32) -> (pixels: i32)
    requires
        LABEL_SIZE * dpi <= i32::MAX,
    ensures
        pixels == label_height_at(dpi as int),
{
    scale(LABEL_SIZE, dpi) * 3 / 2
}

/// The height the stacked rows add up to, in device pixels.
pub open spec fn height_at(dpi: int) -> int {
    scaled(TITLEBAR as int, dpi) + scaled(PADDING as int, dpi) * 2 + label_height_at(dpi) * 3
        + scaled(LABEL_GAP as int, dpi) * 4 + scaled(TEXT_HEIGHT as int, dpi) + scaled(
        QUICK_HEIGHT as int,
        dpi,
    ) + scaled(ROW_HEIGHT as int, dpi) + scaled(HINT_HEIGHT as int, dpi) + scaled(
        CANCEL_HEIGHT as int,
        dpi,
    ) + scaled(GROUP_GAP as int, dpi) * 3
}

///
/// The tallest length it scales is the reminder's box, so it works for every DPI at which that
/// one scales without overflow.
pub fn height(dpi: u32) -> (pixels: i32)
    requires
        TEXT_HEIGHT * dpi <= i32::MAX,
    ensures
        pixels == height_at(dpi as int),
{
    let label = label_height(dpi);
    scale(TITLEBAR, dpi) + scale(PADDING, dpi) * 2 + label * 3 + scale(LABEL_GAP, dpi) * 4 + scale(
        TEXT_HEIGHT,
        dpi,
    ) + scale(QUICK_HEIGHT, dpi) + scale(ROW_HEIGHT, dpi) + scale(HINT_HEIGHT, dpi) + scale(
        CANCEL_HEIGHT,
        dpi,
    ) + scale(GROUP_GAP, dpi) * 3
}

/// The top edge of each stacked row, in order: the label over the reminder, the reminder, the
/// label over the quick picks, the quick picks, the label over the time, the time and the set
/// button, the hint, and the cancel button.
pub open spec fn row_tops(dpi: int) -> Seq<int> {
    let label = label_height_at(dpi);
    let label_gap = scaled(LABEL_GAP as int, dpi);
    let group_gap = scaled(GROUP_GAP as int, dpi);
    let t0 = scaled(TITLEBAR as int, dpi) + scaled(PADDING as int, dpi);
    let t1 = t0 + label + label_gap;
    let t2 = t1 + scaled(TEXT_HEIGHT as int, dpi) + group_gap;
    let t3 = t2 + label + label_gap;
    let t4 = t3 + scaled(QUICK_HEIGHT as int, dpi) + group_gap;
    let t5 = t4 + label + label_gap;
    let t6 = t5 + scaled(ROW_HEIGHT as int, dpi) + label_gap;
    let t7 = t6 + scaled(HINT_HEIGHT as int, dpi) + group_gap;
    seq![t0, t1, t2, t3, t4, t5, t6, t7]
}

/// The height of each stacked row, in the same order.
pub open spec fn row_heights(dpi: int) -> Seq<int> {
    let label = label_height_at(dpi);
    seq![
        label,
        scaled(TEXT_HEIGHT as int, dpi),
        label,
        scaled(QUICK_HEIGHT as int, dpi),
        label,
        scaled(ROW_HEIGHT as int, dpi),
        scaled(HINT_HEIGHT as int, dpi),
        scaled(CANCEL_HEIGHT as int, dpi),
    ]
}

/// The width of each quick pick but the last, which is stretched to the right edge.
pub open spec fn quick_width_at(client_right: int, dpi: int) -> int {
    let padding = scaled(PADDING as int, dpi);
    crate::ui::quotient_toward_zero(client_right - 2 * padding - 2 * scaled(QUICK_GAP as int, dpi), 3)
}

/// Where everything sits inside the form's client area, in device pixels.
pub struct Layout {
    pub titlebar: Rect,
    pub close: Rect,
    pub about_label: Rect,
    pub text_box: Rect,
    pub when_label: Rect,
    pub time_label: Rect,
    pub time_box: Rect,
    pub hint: Rect,
    /// The quick picks, then Set, then Cancel.
    pub buttons: [Rect; 5],
}

/// What the layout of a form `client_right` pixels wide at `dpi` is. Every row is full width
/// inside the padding and they are stacked in order; the three quick picks share their row with
/// the last stretched to the edge, Set ends the time row, and Cancel ends the last row.
pub open spec fn is_form_layout(layout: Layout, client_right: int, dpi: int) -> bool {
    let padding = scaled(PADDING as int, dpi);
    let left = padding;
    let right = client_right - padding;
    let tops = row_tops(dpi);
    let heights = row_heights(dpi);
    let titlebar = scaled(TITLEBAR as int, dpi);
    let gap = scaled(QUICK_GAP as int, dpi);
    let width = quick_width_at(client_right, dpi);
    let set_left = right - scaled(SET_WIDTH as int, dpi);
    &&& has_edges(layout.titlebar, 0, 0, client_right, titlebar)
    &&& has_edges(layout.close, client_right - scaled(46, dpi), 0, client_right, titlebar)
    &&& has_edges(layout.about_label, left, tops[0], right, tops[0] + heights[0])
    &&& has_edges(layout.text_box, left, tops[1], right, tops[1] + heights[1])
    &&& has_edges(layout.when_label, left, tops[2], right, tops[2] + heights[2])
    &&& has_edges(layout.time_label, left, tops[4], right, tops[4] + heights[4])
    &&& has_edges(layout.time_box, left, tops[5], set_left - gap, tops[5] + heights[5])
    &&& has_edges(layout.hint, left, tops[6], right, tops[6] + heights[6])
    &&& forall|i: int|
        0 <= i < QUICK_COUNT ==> has_edges(
            #[trigger] layout.buttons@[i],
            left + (width + gap) * i,
            tops[3],
            if i == QUICK_COUNT - 1 {
                right
            } else {
                left + (width + gap) * i + width
            },
            tops[3] + heights[3],
        )
    &&& has_edges(layout.buttons@[SET as int], set_left, tops[5], right, tops[5] + heights[5])
    &&& has_edges(
        layout.buttons@[CANCEL as int],
        right - scaled(CANCEL_WIDTH as int, dpi),
        tops[7],
        right,
        tops[7] + heights[7],
    )
}

/// The layout of a form whose client area is `client_right` pixels wide, at `dpi`: any width a
/// client area can have, at any DPI at which the widest length it scales, the cancel button,
/// does not overflow.
#[verifier::rlimit(40)]
pub fn layout(client_right: i32, dpi: u32) -> (layout: Layout)
    requires
        0 <= client_right,
        CANCEL_WIDTH * dpi <= i32::MAX,
    ensures
        is_form_layout(layout, client_right as int, dpi as int),
{
    proof {
        crate::ui::lemma_scaled_bounds(PADDING as int, dpi as int);
        crate::ui::lemma_scaled_bounds(LABEL_GAP as int, dpi as int);
        crate::ui::lemma_scaled_bounds(GROUP_GAP as int, dpi as int);
        crate::ui::lemma_scaled_bounds(TITLEBAR as int, dpi as int);
        crate::ui::lemma_scaled_bounds(LABEL_SIZE as int, dpi as int);
        crate::ui::lemma_scaled_bounds(TEXT_HEIGHT as int, dpi as int);
        crate::ui::lemma_scaled_bounds(QUICK_HEIGHT as int, dpi as int);
        crate::ui::lemma_scaled_bounds(ROW_HEIGHT as int, dpi as int);
        crate::ui::lemma_scaled_bounds(HINT_HEIGHT as int, dpi as int);
        crate::ui::lemma_scaled_bounds(CANCEL_HEIGHT as int, dpi as int);
        crate::ui::lemma_scaled_bounds(QUICK_GAP as int, dpi as int);
        crate::ui::lemma_scaled_bounds(SET_WIDTH as int, dpi as int);
        crate::ui::lemma_scaled_bounds(CANCEL_WIDTH as int, dpi as int);
        crate::ui::lemma_scaled_bounds(46, dpi as int);
    }
    let padding = scale(PADDING, dpi);
    let label_gap = scale(LABEL_GAP, dpi);
    let group_gap = scale(GROUP_GAP, dpi);
    let titlebar_height = scale(TITLEBAR, dpi);
    let label = label_height(dpi);
    let left = padding;
    let right = client_right - padding;

    // Every row is full width and stacked, so they are taken off the top in order.
    let t0 = titlebar_height + padding;
    let t1 = t0 + label + label_gap;
    let text_height = scale(TEXT_HEIGHT, dpi);
    let t2 = t1 + text_height + group_gap;
    let t3 = t2 + label + label_gap;
    let quick_height = scale(QUICK_HEIGHT, dpi);
    let t4 = t3 + quick_height + group_gap;
    let t5 = t4 + label + label_gap;
    let row_height = scale(ROW_HEIGHT, dpi);
    let t6 = t5 + row_height + label_gap;
    let hint_height = scale(HINT_HEIGHT, dpi);
    let t7 = t6 + hint_height + group_gap;
    let cancel_height = scale(CANCEL_HEIGHT, dpi);

    // The last quick pick is stretched to the right edge, so dividing by three cannot leave it
    // a pixel or two narrower than the other two.
    let quick_gap = scale(QUICK_GAP, dpi);
    let quick_width = (right - left - quick_gap * 2) / 3;
    let second = left + quick_width + quick_gap;
    let third = second + quick_width + quick_gap;
    let set_left = right - scale(SET_WIDTH, dpi);
    let buttons = [
        Rect { left, top: t3, right: left + quick_width, bottom: t3 + quick_height },
        Rect { left: second, top: t3, right: second + quick_width, bottom: t3 + quick_height },
        Rect { left: third, top: t3, right, bottom: t3 + quick_height },
        Rect { left: set_left, top: t5, right, bottom: t5 + row_height },
        Rect { left: right - scale(CANCEL_WIDTH, dpi), top: t7, right, bottom: t7 + cancel_height },
    ];
    let layout = Layout {
        titlebar: Rect { left: 0, top: 0, right: client_right, bottom: titlebar_height },
        close: Rect { left: client_right - scale(46, dpi), top: 0, right: client_right, bottom: titlebar_height },
        about_label: Rect { left, top: t0, right, bottom: t0 + label },
        text_box: Rect { left, top: t1, right, bottom: t1 + text_height },
        when_label: Rect { left, top: t2, right, bottom: t2 + label },
        time_label: Rect { left, top: t4, right, bottom: t4 + label },
        time_box: Rect { left, top: t5, right: set_left - quick_gap, bottom: t5 + row_height },
        hint: Rect { left, top: t6, right, bottom: t6 + hint_height },
        buttons,
    };
    proof {
        assert(quick_width == quick_width_at(client_right as int, dpi as int));
        assert forall|i: int| 0 <= i < QUICK_COUNT implies has_edges(
            #[trigger] layout.buttons@[i],
            left + (quick_width + quick_gap) * i,
            t3 as int,
            if i == QUICK_COUNT - 1 {
                right as int
            } else {
                left + (quick_width + quick_gap) * i + quick_width
            },
            t3 + quick_height,
        ) by {
            if i == 1 {
                assert((quick_width + quick_gap) * i == quick_width + quick_gap);
            } else if i == 2 {
                assert((quick_width + quick_gap) * i == 2 * (quick_width + quick_gap));
            }
        }
    }
    layout
}

/// The stacked rows end one padding above the bottom of the form, however it is scaled.
pub proof fn lemma_rows_fill_the_form(dpi: int)
    ensures
        row_tops(dpi)[7] + row_heights(dpi)[7] + scaled(PADDING as int, dpi) == height_at(dpi),
{
}

/// Where the two edit controls go, inside the boxes drawn for them. The reminder fills its box,
/// inset, with its text from the top. A single line control draws its text at the top too, so
/// the time field is made one line tall and that line is centred in its box.
pub fn field_areas(client_right: i32, dpi: u32) -> (areas: (Rect, Rect))
    requires
        0 <= client_right,
        CANCEL_WIDTH * dpi <= i32::MAX,
    ensures
        ({
            let padding = scaled(PADDING as int, dpi as int);
            let edge = scaled(EDIT_INSET as int, dpi as int);
            let tops = row_tops(dpi as int);
            let heights = row_heights(dpi as int);
            let right = client_right - padding;
            let line = scaled(FIELD_SIZE as int, dpi as int) * 3 / 2;
            let top = tops[5] + crate::ui::quotient_toward_zero(heights[5] - line, 2);
            let time_right = right - scaled(SET_WIDTH as int, dpi as int) - scaled(QUICK_GAP as int, dpi as int);
            &&& has_edges(areas.0, padding + edge, tops[1] + edge / 2, right - edge, tops[1] + heights[1] - edge / 2)
            &&& has_edges(areas.1, padding + edge, top, time_right - edge, top + line)
        }),
{
    proof {
        crate::ui::lemma_scaled_bounds(EDIT_INSET as int, dpi as int);
        crate::ui::lemma_scaled_bounds(FIELD_SIZE as int, dpi as int);
        crate::ui::lemma_scaled_bounds(ROW_HEIGHT as int, dpi as int);
    }
    let layout = layout(client_right, dpi);
    let edge = scale(EDIT_INSET, dpi);
    let text_area = crate::ui::inset(&layout.text_box, edge, edge / 2);
    let line = scale(FIELD_SIZE, dpi) * 3 / 2;
    let box_height = layout.time_box.bottom - layout.time_box.top;
    let top = layout.time_box.top + (box_height - line) / 2;
    let time_area = Rect {
        left: layout.time_box.left + edge,
        top,
        right: layout.time_box.right - edge,
        bottom: top + line,
    };
    (text_area, time_area)
}

/// Where a window `width` by `tall` goes to sit in the middle of a monitor's work area: its left
/// and top edges.
pub fn centred(work: &Rect, width: i32, tall: i32) -> (position: (i32, i32))
    requires
        i32::MIN <= work.right - work.left <= i32::MAX,
        i32::MIN <= work.bottom - work.top <= i32::MAX,
        i32::MIN <= work.right - work.left - width <= i32::MAX,
        i32::MIN <= work.bottom - work.top - tall <= i32::MAX,
        i32::MIN <= work.left + crate::ui::quotient_toward_zero(work.right - work.left - width, 2) <= i32::MAX,
        i32::MIN <= work.top + crate::ui::quotient_toward_zero(work.bottom - work.top - tall, 2) <= i32::MAX,
    ensures
        position.0 == work.left + crate::ui::quotient_toward_zero(work.right - work.left - width, 2),
        position.1 == work.top + crate::ui::quotient_toward_zero(work.bottom - work.top - tall, 2),
{
    let left = work.left + (work.right - work.left - width) / 2;
    let top = work.top + (work.bottom - work.top - tall) / 2;
    (left, top)
}

} // verus!
