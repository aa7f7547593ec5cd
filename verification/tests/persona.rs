use reminderski::persona::{frames, mood, Mood};

/// The rectangle every frame has to fill, so a redraw never moves anything. Every line is
/// exactly this wide: the note is drawn as a block, and a short line would centre itself
/// against the others and shift the drawing.
const LINES: usize = 6;
const COLUMNS: usize = 13;

#[test]
fn every_frame_is_the_same_rectangle() {
    for mood in [Mood::Idle, Mood::Waiting, Mood::Ignored] {
        for frame in frames(mood) {
            let lines: Vec<&str> = frame.art.lines().collect();
            assert_eq!(lines.len(), LINES, "{}", frame.art);
            for line in lines {
                assert_eq!(
                    line.chars().count(),
                    COLUMNS,
                    "{line:?} is not {COLUMNS} columns"
                );
            }
        }
    }
}

/// Nothing outside Consolas: a glyph it lacks is fetched from another font and then measured
/// at a width it is not drawn at, which is what pushed the tick off the Done button.
#[test]
fn every_frame_is_plain_ascii() {
    for mood in [Mood::Idle, Mood::Waiting, Mood::Ignored] {
        for frame in frames(mood) {
            assert!(frame.art.is_ascii(), "{}", frame.art);
        }
    }
}

#[test]
fn every_mood_has_frames_that_advance() {
    for mood in [Mood::Idle, Mood::Waiting, Mood::Ignored] {
        let frames = frames(mood);
        assert!(frames.len() > 1);
        assert!(frames.iter().all(|frame| frame.millis > 0));
    }
}

/// A frame that repeats the one before it is a redraw that changes nothing.
#[test]
fn no_frame_repeats_the_one_before_it() {
    for mood in [Mood::Idle, Mood::Waiting, Mood::Ignored] {
        let frames = frames(mood);
        for pair in frames.windows(2) {
            assert_ne!(pair[0].art, pair[1].art);
        }
        assert_ne!(
            frames[frames.len() - 1].art,
            frames[0].art,
            "the loop repeats where it wraps"
        );
    }
}

#[test]
fn the_mood_follows_the_history() {
    assert!(mood(0, 0) == Mood::Idle);
    assert!(mood(2, 0) == Mood::Waiting);
    assert!(mood(0, 30) == Mood::Ignored);
    assert!(mood(2, 30) == Mood::Ignored);
}

#[test]
fn the_stare_starts_at_twenty_five_seconds() {
    assert!(mood(0, 24) == Mood::Idle);
    assert!(mood(0, 25) == Mood::Ignored);
    assert!(mood(1, 24) == Mood::Waiting);
}

#[test]
fn the_first_idle_frame_is_the_settled_note() {
    let first = &frames(Mood::Idle)[0];
    assert_eq!(
        first.art,
        "     (o)     \n,-----------,\n|           |\n|   o   o   |\n|     -     |\n'~v~v~v~v~v~'"
    );
    assert_eq!(first.millis, 2600);
    assert_eq!(frames(Mood::Idle).len(), 14);
    assert_eq!(frames(Mood::Waiting).len(), 4);
    assert_eq!(frames(Mood::Ignored).len(), 3);
    assert_eq!(
        frames(Mood::Ignored)[1].art,
        "     (o)     \n,-----------,\n|   \\   /   |\n|   @   @   |\n|    ___    |\n'~v~v~v~v~v~'"
    );
}
