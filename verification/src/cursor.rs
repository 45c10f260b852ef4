//! The cursor tracker: folds a frame's cursor-moved events and the cameras
//! into the cursor's current screen and world position.

use vstd::prelude::*;
use crate::camera::{CameraView, ScreenPoint, WindowSize, spec_cursor_world, cursor_pos_in_world,
    MAX_SCREEN};
use crate::mapper::WorldPoint;

verus! {

/// The pointer's last known position, on screen and in world space.
#[derive(Clone, Copy, PartialEq, Eq, Structural, Debug)]
pub struct CursorPosition {
    pub screen: ScreenPoint,
    pub world: WorldPoint,
}

impl Default for CursorPosition {
    fn default() -> (r: CursorPosition)
        ensures
            r.screen == (ScreenPoint { x: 0, y: 0 }),
            r.world == (WorldPoint { x: 0, y: 0 }),
    {
        CursorPosition { screen: ScreenPoint { x: 0, y: 0 }, world: WorldPoint { x: 0, y: 0 } }
    }
}

/// Folds this frame's cursor-moved events over every camera, as the hosting
/// loop does: after the call the cursor holds the last event's screen
/// position and its world position under the last camera; with no event or
/// no camera it is unchanged.
pub fn update_cursor(
    events: &Vec<ScreenPoint>,
    cameras: &Vec<CameraView>,
    window: WindowSize,
    cursor: &mut CursorPosition,
)
    requires
        window.wf(),
        forall|i: int|
            0 <= i < events@.len() ==> -MAX_SCREEN <= (#[trigger] events@[i]).x <= MAX_SCREEN
                && -MAX_SCREEN <= events@[i].y <= MAX_SCREEN,
        forall|i: int| 0 <= i < cameras@.len() ==> (#[trigger] cameras@[i]).wf(),
    ensures
        events@.len() == 0 || cameras@.len() == 0 ==> *final(cursor) == *old(cursor),
        events@.len() > 0 && cameras@.len() > 0 ==> final(cursor).screen == events@.last()
            && final(cursor).world == spec_cursor_world(events@.last(), window, cameras@.last()),
{
    let mut e: usize = 0;
    while e < events.len()
        invariant
            e <= events@.len(),
            window.wf(),
            forall|i: int|
                0 <= i < events@.len() ==> -MAX_SCREEN <= (#[trigger] events@[i]).x <= MAX_SCREEN
                    && -MAX_SCREEN <= events@[i].y <= MAX_SCREEN,
            forall|i: int| 0 <= i < cameras@.len() ==> (#[trigger] cameras@[i]).wf(),
            e == 0 || cameras@.len() == 0 ==> *cursor == *old(cursor),
            e > 0 && cameras@.len() > 0 ==> cursor.screen == events@[e - 1] && cursor.world
                == spec_cursor_world(events@[e - 1], window, cameras@.last()),
        decreases events@.len() - e,
    {
        let ev = events[e];
        let ghost cur0 = *cursor;
        let mut c: usize = 0;
        while c < cameras.len()
            invariant
                c <= cameras@.len(),
                window.wf(),
                -MAX_SCREEN <= ev.x <= MAX_SCREEN,
                -MAX_SCREEN <= ev.y <= MAX_SCREEN,
                forall|i: int| 0 <= i < cameras@.len() ==> (#[trigger] cameras@[i]).wf(),
                c == 0 ==> *cursor == cur0,
                c > 0 ==> cursor.screen == ev && cursor.world == spec_cursor_world(
                    ev,
                    window,
                    cameras@[c - 1],
                ),
            decreases cameras@.len() - c,
        {
            let cam = cameras[c];
            cursor.world = cursor_pos_in_world(ev, window, &cam);
            cursor.screen = ev;
            c += 1;
        }
        e += 1;
    }
}

} // verus!
