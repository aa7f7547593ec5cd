//! The icon in the notification area, drawn rather than shipped as a resource: the note the
//! notifications carry, reduced to the few rectangles that survive being sixteen pixels across.
//! The tile is painted and handed to the shell beside the message loop.

use vstd::prelude::*;

use crate::ui::{has_edges, Rect};

verus! {

/// `sixteenths` sixteenths of a tile `size` pixels across, rounded down.
pub open spec fn part_of(size: int, sixteenths: int) -> int {
    size * sixteenths / 16
}

/// The pinned note in the fewest rectangles it can be recognised from: the pin, the note, the
/// left eye, the right eye and the mouth, in that order. The note is drawn as an outline and
/// the rest are filled.
///
/// Every position is a fraction of the tile rather than a fixed pixel count, because the shell
/// asks for sixteen, twenty or twenty-four across depending on how far the display is scaled and
/// the mark has to hold together at all three.
pub open spec fn marks_of(width: int, height: int) -> Seq<(int, int, int, int)> {
    seq![
        (part_of(width, 7), part_of(height, 1), part_of(width, 9), part_of(height, 3)),
        (part_of(width, 2), part_of(height, 4), part_of(width, 14), part_of(height, 14)),
        (part_of(width, 4), part_of(height, 7), part_of(width, 6), part_of(height, 9)),
        (part_of(width, 10), part_of(height, 7), part_of(width, 12), part_of(height, 9)),
        (part_of(width, 6), part_of(height, 11), part_of(width, 10), part_of(height, 12)),
    ]
}

fn sixteenths(size: i32, count: i32) -> (part: i32)
    requires
        0 <= size,
        0 <= count <= 16,
        size * count <= i32::MAX,
    ensures
        part == part_of(size as int, count as int),
        0 <= part <= size,
{
    assert(0 <= size * count <= size * 16) by (nonlinear_arith)
        requires
            0 <= size,
            0 <= count <= 16,
    ;
    size * count / 16
}

/// The rectangles of the icon for a tile `width` by `height` pixels, for any tile whose
/// furthest edge, fourteen sixteenths across or down, can be worked out without overflow.
pub fn icon_marks(width: i32, height: i32) -> (marks: [Rect; 5])
    requires
        0 <= width,
        0 <= height,
        width * 14 <= i32::MAX,
        height * 14 <= i32::MAX,
    ensures
        forall|i: int|
            0 <= i < 5 ==> has_edges(
                #[trigger] marks@[i],
                marks_of(width as int, height as int)[i].0,
                marks_of(width as int, height as int)[i].1,
                marks_of(width as int, height as int)[i].2,
                marks_of(width as int, height as int)[i].3,
            ),
{
    let mark = |left: i32, top: i32, right: i32, bottom: i32| -> (r: Rect)
        requires
            0 <= left <= 14 && 0 <= top <= 14 && 0 <= right <= 14 && 0 <= bottom <= 14,
        ensures
            has_edges(
                r,
                part_of(width as int, left as int),
                part_of(height as int, top as int),
                part_of(width as int, right as int),
                part_of(height as int, bottom as int),
            ),
        {
            proof {
                assert(width * left <= width * 14 && width * right <= width * 14) by (nonlinear_arith)
                    requires
                        0 <= width,
                        0 <= left <= 14,
                        0 <= right <= 14,
                ;
                assert(height * top <= height * 14 && height * bottom <= height * 14) by (nonlinear_arith)
                    requires
                        0 <= height,
                        0 <= top <= 14,
                        0 <= bottom <= 14,
                ;
            }
            Rect {
                left: sixteenths(width, left),
                top: sixteenths(height, top),
                right: sixteenths(width, right),
                bottom: sixteenths(height, bottom),
            }
        };
    [mark(7, 1, 9, 3), mark(2, 4, 14, 14), mark(4, 7, 6, 9), mark(10, 7, 12, 9), mark(6, 11, 10, 12)]
}

} // verus!
