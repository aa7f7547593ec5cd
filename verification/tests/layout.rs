use reminderski::form;
use reminderski::notify;
use reminderski::ui::{contains, hit, inset, Rect};

fn rect(left: i32, top: i32, right: i32, bottom: i32) -> Rect {
    Rect { left, top, right, bottom }
}

#[test]
fn the_form_stacks_its_rows_at_96_dpi() {
    let layout = form::layout(540, 96);
    assert_eq!(layout.titlebar, rect(0, 0, 540, 34));
    assert_eq!(layout.close, rect(494, 0, 540, 34));
    assert_eq!(layout.about_label, rect(24, 58, 516, 74));
    assert_eq!(layout.text_box, rect(24, 84, 516, 160));
    assert_eq!(layout.when_label, rect(24, 180, 516, 196));
    assert_eq!(layout.time_label, rect(24, 264, 516, 280));
    assert_eq!(layout.time_box, rect(24, 290, 416, 330));
    assert_eq!(layout.hint, rect(24, 340, 516, 357));
    assert_eq!(layout.buttons[0], rect(24, 206, 180, 244));
    assert_eq!(layout.buttons[1], rect(192, 206, 348, 244));
    assert_eq!(layout.buttons[2], rect(360, 206, 516, 244));
    assert_eq!(layout.buttons[form::SET], rect(428, 290, 516, 330));
    assert_eq!(layout.buttons[form::CANCEL], rect(398, 377, 516, 415));
    // The last row ends one padding above the bottom of the window.
    assert_eq!(layout.buttons[form::CANCEL].bottom + 24, form::height(96));
}

#[test]
fn the_last_quick_pick_is_stretched_to_the_edge() {
    let layout = form::layout(541, 96);
    assert_eq!(layout.buttons[0].right - layout.buttons[0].left, 156);
    assert_eq!(layout.buttons[2].right, 517);
    assert_eq!(layout.buttons[2].right - layout.buttons[2].left, 157);
}

#[test]
fn the_fields_sit_inside_their_boxes() {
    let (text, time) = form::field_areas(540, 96);
    assert_eq!(text, rect(34, 89, 506, 155));
    // One line of 16 pixel type is 24 pixels tall, centred in a 40 pixel box.
    assert_eq!(time, rect(34, 298, 406, 322));
}

#[test]
fn the_form_is_centred_on_the_work_area() {
    let work = rect(0, 0, 1920, 1040);
    assert_eq!(form::centred(&work, 540, 439), (690, 300));
    let second = rect(1920, 0, 3840, 1080);
    assert_eq!(form::centred(&second, 541, 440), (2609, 320));
}

#[test]
fn the_notification_puts_the_face_beside_the_reminder_at_96_dpi() {
    let layout = notify::layout(520, 96);
    assert_eq!(layout.titlebar, rect(0, 0, 520, 34));
    assert_eq!(layout.face, rect(18, 52, 170, 204));
    assert_eq!(layout.eyebrow, rect(188, 52, 502, 74));
    assert_eq!(layout.message, rect(188, 84, 502, 204));
    assert_eq!(layout.buttons[0], rect(18, 220, 130, 264));
    assert_eq!(layout.buttons[1], rect(140, 220, 252, 264));
    assert_eq!(layout.buttons[2], rect(262, 220, 374, 264));
    assert_eq!(layout.buttons[notify::DONE], rect(384, 220, 502, 264));
}

#[test]
fn notifications_stack_up_from_the_corner() {
    let work = rect(0, 0, 1920, 1040);
    assert_eq!(notify::placement(&work, 0, 96), (1388, 744, 520, 284));
    assert_eq!(notify::placement(&work, 1, 96), (1388, 448, 520, 284));
    assert_eq!(notify::placement(&work, 0, 192), (856, 448, 1040, 568));
}

#[test]
fn a_point_hits_the_button_it_is_in() {
    let layout = notify::layout(520, 96);
    assert_eq!(hit(&layout.buttons, 18, 220), Some(0));
    assert_eq!(hit(&layout.buttons, 130, 230), None);
    assert_eq!(hit(&layout.buttons, 501, 263), Some(notify::DONE));
    assert_eq!(hit(&layout.buttons, 502, 263), None);
    assert!(contains(&rect(0, 0, 1, 1), 0, 0));
    assert!(!contains(&rect(0, 0, 1, 1), 1, 0));
    assert_eq!(inset(&rect(10, 10, 50, 30), 4, 2), rect(14, 12, 46, 28));
}

#[test]
fn the_icon_is_drawn_in_sixteenths_of_its_tile() {
    let marks = reminderski::tray::icon_marks(16, 16);
    assert_eq!(marks[0], rect(7, 1, 9, 3));
    assert_eq!(marks[1], rect(2, 4, 14, 14));
    assert_eq!(marks[4], rect(6, 11, 10, 12));
    let larger = reminderski::tray::icon_marks(20, 24);
    assert_eq!(larger[0], rect(8, 1, 11, 4));
    assert_eq!(larger[3], rect(12, 10, 15, 13));
}

#[test]
fn the_layouts_hold_for_any_width_and_any_dpi_that_scales() {
    let wide_form = form::layout(i32::MAX, 96);
    assert_eq!(wide_form.titlebar.right, i32::MAX);
    assert_eq!(wide_form.buttons[2].right, i32::MAX - 24);
    assert_eq!(wide_form.buttons[form::CANCEL].left, i32::MAX - 24 - 118);

    let highest = (i32::MAX / 118) as u32;
    let tall = form::layout(540, highest);
    assert_eq!(tall.buttons[form::CANCEL].bottom + reminderski::ui::scale(24, highest), form::height(highest));
    let (text, _) = form::field_areas(i32::MAX, highest);
    assert!(text.left < text.right);

    let face_limit = (i32::MAX / 152) as u32;
    let note = notify::layout(i32::MAX, face_limit);
    assert_eq!(note.buttons[notify::DONE].right, i32::MAX - reminderski::ui::scale(18, face_limit));
    let work = rect(0, 0, i32::MAX, i32::MAX);
    let widest = (i32::MAX / 520) as u32;
    let (left, _, width, _) = notify::placement(&work, 0, widest);
    assert_eq!(left + width + reminderski::ui::scale(12, widest), i32::MAX);
}

#[test]
fn the_icon_can_be_drawn_at_any_size_whose_edges_fit() {
    let largest = i32::MAX / 14;
    let marks = reminderski::tray::icon_marks(largest, largest);
    assert_eq!(marks[1].right, ((largest as i64) * 14 / 16) as i32);
    assert_eq!(marks[0].left, ((largest as i64) * 7 / 16) as i32);
}
