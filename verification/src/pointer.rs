//! What the mouse and the keyboard mean to the two hand-drawn windows.
//!
//! Both windows draw their own buttons and do their own hit testing. A button lights up under
//! the pointer, shows pressed while the mouse button is held on it, and counts as clicked only
//! when the mouse button comes up over the same button it went down on, which is how a native
//! button behaves and what lets somebody change their mind by dragging away. The window
//! procedures hand each event here and carry out what comes back.

use vstd::prelude::*;

use crate::ui::{contains, first_hit, hit, within, Rect};

verus! {

/// What the pointer is doing over a window's buttons: which one it is over, and which one the
/// mouse button went down on and is still held.
#[derive(Clone, Copy, PartialEq, Eq, Structural, Debug)]
pub struct Pointer {
    pub hovered: Option<usize>,
    pub pressed: Option<usize>,
}

/// What a press of the mouse button landed on. A button wins over the close box, and the close
/// box over the rest of the title bar, which drags the window.
#[derive(Clone, Copy, PartialEq, Eq, Structural, Debug)]
pub enum Press {
    Button(usize),
    Close,
    Drag,
    Elsewhere,
}

/// A pointer over nothing, with nothing held.
pub fn at_rest() -> (pointer: Pointer)
    ensures
        pointer.hovered is None,
        pointer.pressed is None,
{
    Pointer { hovered: None, pressed: None }
}

/// The pointer after moving to a point: over the first button that holds it, and whether that
/// changes what is lit, which is when the window has to be painted again.
pub fn moved(pointer: Pointer, buttons: &[Rect], x: i32, y: i32) -> (next: (Pointer, bool))
    ensures
        next.0.hovered == first_hit(buttons@, x as int, y as int),
        next.0.pressed == pointer.pressed,
        next.1 == (next.0.hovered != pointer.hovered),
{
    let hovered = hit(buttons, x, y);
    let changed = match (hovered, pointer.hovered) {
        (Some(a), Some(b)) => a != b,
        (None, None) => false,
        _ => true,
    };
    (Pointer { hovered, pressed: pointer.pressed }, changed)
}

/// The pointer after leaving the window: over nothing, and whether a button has to go dark.
pub fn left_window(pointer: Pointer) -> (next: (Pointer, bool))
    ensures
        next.0.hovered is None,
        next.0.pressed == pointer.pressed,
        next.1 == pointer.hovered is Some,
{
    (Pointer { hovered: None, pressed: pointer.pressed }, pointer.hovered.is_some())
}

/// What a press at a point lands on, given the buttons, the close box and the title bar.
pub open spec fn press_at(buttons: Seq<Rect>, close: Rect, titlebar: Rect, x: int, y: int) -> Press {
    match first_hit(buttons, x, y) {
        Some(i) => Press::Button(i),
        None => if within(close, x, y) {
            Press::Close
        } else if within(titlebar, x, y) {
            Press::Drag
        } else {
            Press::Elsewhere
        },
    }
}

/// The pointer after a press: holding the button it landed on, if it landed on one.
pub open spec fn after_press(pointer: Pointer, buttons: Seq<Rect>, x: int, y: int) -> Pointer {
    match first_hit(buttons, x, y) {
        Some(i) => Pointer { hovered: pointer.hovered, pressed: Some(i) },
        None => pointer,
    }
}

/// The mouse button going down at a point.
pub fn pressed(pointer: Pointer, buttons: &[Rect], close: &Rect, titlebar: &Rect, x: i32, y: i32) -> (next: (
    Pointer,
    Press,
))
    ensures
        next.0 == after_press(pointer, buttons@, x as int, y as int),
        next.1 == press_at(buttons@, *close, *titlebar, x as int, y as int),
{
    match hit(buttons, x, y) {
        Some(index) => (Pointer { hovered: pointer.hovered, pressed: Some(index) }, Press::Button(index)),
        None => {
            let press = if contains(close, x, y) {
                Press::Close
            } else if contains(titlebar, x, y) {
                Press::Drag
            } else {
                Press::Elsewhere
            };
            (pointer, press)
        },
    }
}

/// The button a release at a point clicks: the one the press went down on, if the pointer is
/// still over it.
pub open spec fn clicked(pointer: Pointer, buttons: Seq<Rect>, x: int, y: int) -> Option<usize> {
    match pointer.pressed {
        Some(i) => if first_hit(buttons, x, y) == Some(i) {
            Some(i)
        } else {
            None
        },
        None => None,
    }
}

/// The mouse button coming up at a point: nothing is held any more, and the button clicked, if
/// any.
pub fn released(pointer: Pointer, buttons: &[Rect], x: i32, y: i32) -> (next: (Pointer, Option<usize>))
    ensures
        next.0.hovered == pointer.hovered,
        next.0.pressed is None,
        next.1 == clicked(pointer, buttons@, x as int, y as int),
{
    let chosen = match pointer.pressed {
        Some(index) => match hit(buttons, x, y) {
            Some(over) => if over == index {
                Some(index)
            } else {
                None
            },
            None => None,
        },
        None => None,
    };
    (Pointer { hovered: pointer.hovered, pressed: None }, chosen)
}

/// A press and a release on the same button click it, and a release anywhere else clicks
/// nothing, whatever was held before.
pub proof fn lemma_a_click_is_a_press_and_release_on_one_button(
    pointer: Pointer,
    buttons: Seq<Rect>,
    x: int,
    y: int,
    later_x: int,
    later_y: int,
)
    requires
        first_hit(buttons, x, y) is Some,
    ensures
        clicked(after_press(pointer, buttons, x, y), buttons, later_x, later_y) == if first_hit(
            buttons,
            later_x,
            later_y,
        ) == first_hit(buttons, x, y) {
            first_hit(buttons, x, y)
        } else {
            None
        },
{
}

/// How a button is drawn: the one filled button for the action you actually want, or an
/// outlined one, either of them lit while the pointer is over it or it is held.
#[derive(Clone, Copy, PartialEq, Eq, Structural, Debug)]
pub enum Look {
    Filled,
    FilledLit,
    Outlined,
    OutlinedLit,
}

/// How button `index` is drawn, when `filled` is the window's filled button.
pub fn look(index: usize, filled: usize, pointer: Pointer) -> (drawn: Look)
    ensures
        ({
            let lit = pointer.hovered == Some(index) || pointer.pressed == Some(index);
            drawn == if index == filled {
                if lit {
                    Look::FilledLit
                } else {
                    Look::Filled
                }
            } else if lit {
                Look::OutlinedLit
            } else {
                Look::Outlined
            }
        }),
{
    let hovered = match pointer.hovered {
        Some(over) => over == index,
        None => false,
    };
    let held = match pointer.pressed {
        Some(down) => down == index,
        None => false,
    };
    let lit = hovered || held;
    if index == filled {
        if lit {
            Look::FilledLit
        } else {
            Look::Filled
        }
    } else if lit {
        Look::OutlinedLit
    } else {
        Look::Outlined
    }
}

/// The virtual keys the windows answer to.
pub const KEY_TAB: u16 = 0x09;

pub const KEY_RETURN: u16 = 0x0D;

pub const KEY_ESCAPE: u16 = 0x1B;

/// What a key means on a notification.
#[derive(Clone, Copy, PartialEq, Eq, Structural, Debug)]
pub enum NotificationKey {
    /// Press the button with this index.
    Answer(usize),
    /// Close the window and leave the standing outcome, the first snooze.
    Dismiss,
}

/// Enter is Done, Escape dismisses, and 1, 2 and 3 pick the snoozes from the left.
pub fn notification_key(key: u16) -> (meaning: Option<NotificationKey>)
    ensures
        key == KEY_RETURN ==> meaning == Some(NotificationKey::Answer(crate::notify::DONE)),
        key == KEY_ESCAPE ==> meaning == Some(NotificationKey::Dismiss),
        0x31 <= key <= 0x33 ==> meaning == Some(NotificationKey::Answer((key - 0x31) as usize)),
        key != KEY_RETURN && key != KEY_ESCAPE && !(0x31 <= key <= 0x33) ==> meaning is None,
{
    if key == KEY_RETURN {
        Some(NotificationKey::Answer(crate::notify::DONE))
    } else if key == KEY_ESCAPE {
        Some(NotificationKey::Dismiss)
    } else if 0x31 <= key && key <= 0x33 {
        Some(NotificationKey::Answer((key - 0x31) as usize))
    } else {
        None
    }
}

/// What a key means on the input form, before the field with the focus sees it.
#[derive(Clone, Copy, PartialEq, Eq, Structural, Debug)]
pub enum FormKey {
    /// Close the form without setting anything.
    Close,
    /// Move the focus to the other field.
    SwitchField,
    /// Press Set.
    Accept,
}

/// Escape closes and Tab switches fields. Enter accepts from the time field, where it has
/// nothing else to do, and Ctrl+Enter from either, so the reminder text never traps the user;
/// in the reminder text a plain Enter starts a new line.
pub fn form_key(key: u16, in_time_field: bool, control_down: bool) -> (meaning: Option<FormKey>)
    ensures
        key == KEY_ESCAPE ==> meaning == Some(FormKey::Close),
        key == KEY_TAB ==> meaning == Some(FormKey::SwitchField),
        key == KEY_RETURN ==> meaning == if in_time_field || control_down {
            Some(FormKey::Accept)
        } else {
            None::<FormKey>
        },
        key != KEY_ESCAPE && key != KEY_TAB && key != KEY_RETURN ==> meaning is None,
{
    if key == KEY_ESCAPE {
        Some(FormKey::Close)
    } else if key == KEY_TAB {
        Some(FormKey::SwitchField)
    } else if key == KEY_RETURN && (in_time_field || control_down) {
        Some(FormKey::Accept)
    } else {
        None
    }
}

} // verus!
