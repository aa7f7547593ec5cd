use reminderski::pointer::{
    at_rest, form_key, left_window, look, moved, notification_key, pressed, released, FormKey, Look, NotificationKey,
    Press, KEY_ESCAPE, KEY_RETURN, KEY_TAB,
};
use reminderski::ui::Rect;

fn buttons() -> Vec<Rect> {
    vec![
        Rect { left: 0, top: 100, right: 50, bottom: 120 },
        Rect { left: 60, top: 100, right: 110, bottom: 120 },
    ]
}

fn close() -> Rect {
    Rect { left: 150, top: 0, right: 200, bottom: 30 }
}

fn titlebar() -> Rect {
    Rect { left: 0, top: 0, right: 200, bottom: 30 }
}

#[test]
fn a_button_lights_up_under_the_pointer_and_goes_dark_when_it_leaves() {
    let (over, repaint) = moved(at_rest(), &buttons(), 70, 110);
    assert_eq!(over.hovered, Some(1));
    assert!(repaint);
    let (still, repaint) = moved(over, &buttons(), 71, 111);
    assert_eq!(still.hovered, Some(1));
    assert!(!repaint);
    let (gone, repaint) = left_window(still);
    assert_eq!(gone.hovered, None);
    assert!(repaint);
    assert!(!left_window(gone).1);
}

#[test]
fn a_click_is_a_press_and_a_release_on_the_same_button() {
    let (held, press) = pressed(at_rest(), &buttons(), &close(), &titlebar(), 10, 110);
    assert_eq!(press, Press::Button(0));
    assert_eq!(held.pressed, Some(0));
    let (after, chosen) = released(held, &buttons(), 40, 119);
    assert_eq!(chosen, Some(0));
    assert_eq!(after.pressed, None);
}

#[test]
fn dragging_away_before_letting_go_clicks_nothing() {
    let (held, _) = pressed(at_rest(), &buttons(), &close(), &titlebar(), 10, 110);
    assert_eq!(released(held, &buttons(), 70, 110).1, None);
    assert_eq!(released(held, &buttons(), 300, 300).1, None);
    assert_eq!(released(at_rest(), &buttons(), 10, 110).1, None);
}

#[test]
fn a_press_outside_the_buttons_closes_drags_or_does_nothing() {
    assert_eq!(pressed(at_rest(), &buttons(), &close(), &titlebar(), 160, 10).1, Press::Close);
    assert_eq!(pressed(at_rest(), &buttons(), &close(), &titlebar(), 20, 10).1, Press::Drag);
    let (pointer, press) = pressed(at_rest(), &buttons(), &close(), &titlebar(), 55, 110);
    assert_eq!(press, Press::Elsewhere);
    assert_eq!(pointer, at_rest());
}

#[test]
fn the_notification_answers_enter_escape_and_the_number_keys() {
    assert_eq!(notification_key(KEY_RETURN), Some(NotificationKey::Answer(3)));
    assert_eq!(notification_key(KEY_ESCAPE), Some(NotificationKey::Dismiss));
    assert_eq!(notification_key(0x31), Some(NotificationKey::Answer(0)));
    assert_eq!(notification_key(0x33), Some(NotificationKey::Answer(2)));
    assert_eq!(notification_key(0x34), None);
    assert_eq!(notification_key(0x30), None);
}

#[test]
fn enter_in_the_reminder_text_starts_a_new_line_unless_control_is_held() {
    assert_eq!(form_key(KEY_RETURN, false, false), None);
    assert_eq!(form_key(KEY_RETURN, false, true), Some(FormKey::Accept));
    assert_eq!(form_key(KEY_RETURN, true, false), Some(FormKey::Accept));
    assert_eq!(form_key(KEY_ESCAPE, false, false), Some(FormKey::Close));
    assert_eq!(form_key(KEY_TAB, true, true), Some(FormKey::SwitchField));
    assert_eq!(form_key(0x41, true, true), None);
}

#[test]
fn one_button_is_filled_and_any_button_lights_up_under_the_pointer() {
    let (over_first, _) = moved(at_rest(), &buttons(), 10, 110);
    assert_eq!(look(0, 1, over_first), Look::OutlinedLit);
    assert_eq!(look(1, 1, over_first), Look::Filled);
    assert_eq!(look(1, 1, moved(at_rest(), &buttons(), 70, 110).0), Look::FilledLit);
    assert_eq!(look(0, 1, at_rest()), Look::Outlined);
    let (held, _) = pressed(at_rest(), &buttons(), &close(), &titlebar(), 10, 110);
    let (_, repaint) = moved(held, &buttons(), 300, 300);
    assert!(!repaint);
    assert_eq!(look(0, 1, moved(held, &buttons(), 300, 300).0), Look::OutlinedLit);
}
