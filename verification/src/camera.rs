//! The camera model: what the mapper needs to turn a screen position into a
//! world position under an orthographic camera with a zoom factor.

use vstd::prelude::*;
use crate::mapper::WorldPoint;

verus! {

/// Largest screen coordinate or window dimension accepted, so that the
/// screen-to-world arithmetic fits in `i64`.
pub const MAX_SCREEN: i64 = 2147483648;

/// Largest camera zoom accepted, in tenths.
pub const MAX_SCALE_TENTHS: i64 = 1000;

/// A point on the screen, in pixels.
#[derive(Clone, Copy, PartialEq, Eq, Structural, Debug)]
pub struct ScreenPoint {
    pub x: i64,
    pub y: i64,
}

/// The window's drawable size in pixels.
#[derive(Clone, Copy, PartialEq, Eq, Structural, Debug)]
pub struct WindowSize {
    pub width: i64,
    pub height: i64,
}

impl WindowSize {
    pub open spec fn wf(self) -> bool {
        1 <= self.width <= MAX_SCREEN && 1 <= self.height <= MAX_SCREEN
    }
}

/// What the screen-to-world conversion reads of the camera: its world-space
/// center and its zoom, in tenths of a world unit per pixel. The hosting
/// camera adjusts zoom in steps of a tenth and clamps it at one half, so
/// tenths represent it exactly.
#[derive(Clone, Copy, PartialEq, Eq, Structural, Debug)]
pub struct CameraView {
    pub center: WorldPoint,
    pub scale_tenths: i64,
}

impl CameraView {
    pub open spec fn wf(self) -> bool {
        &&& 5 <= self.scale_tenths <= MAX_SCALE_TENTHS
        &&& -MAX_SCREEN <= self.center.x <= MAX_SCREEN
        &&& -MAX_SCREEN <= self.center.y <= MAX_SCREEN
    }
}

/// Scales a pixel offset by a zoom in tenths, truncating toward zero.
pub open spec fn spec_scaled(d: int, tenths: int) -> int {
    if d >= 0 {
        d * tenths / 10
    } else {
        -((-d) * tenths / 10)
    }
}

/// The world position under a screen position: the camera's center plus the
/// zoom-scaled offset of the pixel from the window's middle.
pub open spec fn spec_cursor_world(p: ScreenPoint, window: WindowSize, cam: CameraView) -> WorldPoint {
    WorldPoint {
        x: (cam.center.x + spec_scaled(p.x - window.width / 2, cam.scale_tenths as int)) as i64,
        y: (cam.center.y + spec_scaled(p.y - window.height / 2, cam.scale_tenths as int)) as i64,
    }
}

proof fn lemma_scaled_bound(d: int, tenths: int)
    requires
        -3 * MAX_SCREEN <= d <= 3 * MAX_SCREEN,
        0 <= tenths <= MAX_SCALE_TENTHS,
    ensures
        -3 * MAX_SCREEN * MAX_SCALE_TENTHS <= spec_scaled(d, tenths) <= 3 * MAX_SCREEN
            * MAX_SCALE_TENTHS,
{
    if d >= 0 {
        assert(d * tenths <= 3 * MAX_SCREEN * MAX_SCALE_TENTHS) by (nonlinear_arith)
            requires 0 <= d <= 3 * MAX_SCREEN && 0 <= tenths <= MAX_SCALE_TENTHS,
        {}
        assert(d * tenths >= 0) by (nonlinear_arith)
            requires d >= 0 && tenths >= 0,
        {}
        assert(0 <= d * tenths / 10 <= d * tenths) by {
            vstd::arithmetic::div_mod::lemma_div_is_ordered(0, d * tenths, 10);
            vstd::arithmetic::div_mod::lemma_div_is_ordered_by_denominator(d * tenths, 1, 10);
        }
    } else {
        assert((-d) * tenths <= 3 * MAX_SCREEN * MAX_SCALE_TENTHS) by (nonlinear_arith)
            requires 0 <= -d <= 3 * MAX_SCREEN && 0 <= tenths <= MAX_SCALE_TENTHS,
        {}
        assert((-d) * tenths >= 0) by (nonlinear_arith)
            requires -d >= 0 && tenths >= 0,
        {}
        assert(0 <= (-d) * tenths / 10 <= (-d) * tenths) by {
            vstd::arithmetic::div_mod::lemma_div_is_ordered(0, (-d) * tenths, 10);
            vstd::arithmetic::div_mod::lemma_div_is_ordered_by_denominator((-d) * tenths, 1, 10);
        }
    }
}

/// Scales a pixel offset by the camera zoom, truncating toward zero.
fn scaled(d: i64, tenths: i64) -> (r: i64)
    requires
        -3 * MAX_SCREEN <= d <= 3 * MAX_SCREEN,
        0 <= tenths <= MAX_SCALE_TENTHS,
    ensures
        r == spec_scaled(d as int, tenths as int),
        -3 * MAX_SCREEN * MAX_SCALE_TENTHS <= r <= 3 * MAX_SCREEN * MAX_SCALE_TENTHS,
{
    proof {
        lemma_scaled_bound(d as int, tenths as int);
        assert(d * tenths <= 3 * MAX_SCREEN * MAX_SCALE_TENTHS && -3 * MAX_SCREEN
            * MAX_SCALE_TENTHS <= d * tenths) by (nonlinear_arith)
            requires -3 * MAX_SCREEN <= d <= 3 * MAX_SCREEN && 0 <= tenths <= MAX_SCALE_TENTHS,
        {}
    }
    if d >= 0 {
        (((d as u64) * (tenths as u64)) / 10) as i64
    } else {
        let neg = -d;
        -((((neg as u64) * (tenths as u64)) / 10) as i64)
    }
}

/// Smallest camera zoom accepted, in tenths: the hosting camera clamps its
/// zoom at one half.
pub const MIN_SCALE_TENTHS: i64 = 5;

/// Largest camera center coordinate the per-frame movement accepts, so that
/// one pan step cannot overflow.
pub const MAX_PAN_CENTER: i64 = 1000000000;

/// Longest time step the per-frame movement accepts, in milliseconds.
pub const MAX_FRAME_MS: u64 = 1000;

/// World units the camera pans per second before zoom scaling.
pub const PAN_SPEED: i64 = 500;

/// The key state the camera movement reads in one frame.
#[derive(Clone, Copy, PartialEq, Eq, Structural, Debug)]
pub struct CameraInput {
    pub left: bool,
    pub right: bool,
    pub up: bool,
    pub down: bool,
    pub zoom_in: bool,
    pub zoom_out: bool,
}

/// The pan direction a key pair yields: one step toward the positive key,
/// one toward the negative, nothing when both or neither is held.
pub open spec fn spec_pan_dir(neg: bool, pos: bool) -> int {
    (if pos { 1int } else { 0int }) - (if neg { 1int } else { 0int })
}

/// The world units one frame of panning covers: the pan speed over the
/// frame's seconds, scaled by the zoom, truncated to whole units.
pub open spec fn spec_pan_step(dt_ms: int, tenths: int) -> int {
    PAN_SPEED * dt_ms * tenths / 10000
}

/// One frame of camera movement: pans the center by the held direction keys
/// at [`PAN_SPEED`] world units per second scaled by the current zoom, then
/// applies the zoom keys in steps of a tenth, clamped at
/// [`MIN_SCALE_TENTHS`]. The pan uses the zoom as it was when the frame
/// began, as the hosting loop does.
pub fn movement(cam: &mut CameraView, input: CameraInput, dt_ms: u64)
    requires
        old(cam).wf(),
        -MAX_PAN_CENTER <= old(cam).center.x <= MAX_PAN_CENTER,
        -MAX_PAN_CENTER <= old(cam).center.y <= MAX_PAN_CENTER,
        dt_ms <= MAX_FRAME_MS,
    ensures
        final(cam).center.x == old(cam).center.x + spec_pan_dir(input.left, input.right)
            * spec_pan_step(dt_ms as int, old(cam).scale_tenths as int),
        final(cam).center.y == old(cam).center.y + spec_pan_dir(input.down, input.up)
            * spec_pan_step(dt_ms as int, old(cam).scale_tenths as int),
        ({
            let adjusted = old(cam).scale_tenths + (if input.zoom_in { 1int } else { 0int }) - (
            if input.zoom_out { 1int } else { 0int });
            final(cam).scale_tenths == (if adjusted < MIN_SCALE_TENTHS {
                MIN_SCALE_TENTHS as int
            } else {
                adjusted
            })
        }),
{
    proof {
        let tenths = old(cam).scale_tenths as int;
        assert(PAN_SPEED * dt_ms * tenths <= PAN_SPEED * MAX_FRAME_MS * MAX_SCALE_TENTHS)
            by (nonlinear_arith)
            requires
                0 <= dt_ms <= MAX_FRAME_MS && 0 <= tenths <= MAX_SCALE_TENTHS,
        {}
        assert(PAN_SPEED * dt_ms * tenths >= 0) by (nonlinear_arith)
            requires dt_ms >= 0 && tenths >= 0,
        {}
        assert(0 <= PAN_SPEED * dt_ms * tenths / 10000 <= PAN_SPEED * dt_ms * tenths) by {
            vstd::arithmetic::div_mod::lemma_div_is_ordered(0, PAN_SPEED * dt_ms * tenths, 10000);
            vstd::arithmetic::div_mod::lemma_div_is_ordered_by_denominator(
                PAN_SPEED * dt_ms * tenths,
                1,
                10000,
            );
        }
    }
    let step = (((PAN_SPEED as u64) * dt_ms * (cam.scale_tenths as u64)) / 10000) as i64;
    let dx: i64 = if input.right && !input.left {
        step
    } else if input.left && !input.right {
        -step
    } else {
        0
    };
    let dy: i64 = if input.up && !input.down {
        step
    } else if input.down && !input.up {
        -step
    } else {
        0
    };
    cam.center.x = cam.center.x + dx;
    cam.center.y = cam.center.y + dy;
    proof {
        let s = spec_pan_step(dt_ms as int, old(cam).scale_tenths as int);
        let dirx = spec_pan_dir(input.left, input.right);
        let diry = spec_pan_dir(input.down, input.up);
        if input.right && !input.left {
            assert(dirx * s == s) by (nonlinear_arith)
                requires dirx == 1,
            {}
        } else if input.left && !input.right {
            assert(dirx * s == -s) by (nonlinear_arith)
                requires dirx == -1,
            {}
        } else {
            assert(dirx * s == 0) by (nonlinear_arith)
                requires dirx == 0,
            {}
        }
        if input.up && !input.down {
            assert(diry * s == s) by (nonlinear_arith)
                requires diry == 1,
            {}
        } else if input.down && !input.up {
            assert(diry * s == -s) by (nonlinear_arith)
                requires diry == -1,
            {}
        } else {
            assert(diry * s == 0) by (nonlinear_arith)
                requires diry == 0,
            {}
        }
    }
    if input.zoom_in {
        cam.scale_tenths = cam.scale_tenths + 1;
    }
    if input.zoom_out {
        cam.scale_tenths = cam.scale_tenths - 1;
    }
    if cam.scale_tenths < MIN_SCALE_TENTHS {
        cam.scale_tenths = MIN_SCALE_TENTHS;
    }
}

/// Converts a cursor's screen position into a world position under the
/// camera's transform: center the offset on the window's middle, scale it by
/// the zoom, and translate by the camera's position.
pub fn cursor_pos_in_world(cursor_pos: ScreenPoint, window: WindowSize, cam: &CameraView) -> (r:
    WorldPoint)
    requires
        window.wf(),
        cam.wf(),
        -MAX_SCREEN <= cursor_pos.x <= MAX_SCREEN,
        -MAX_SCREEN <= cursor_pos.y <= MAX_SCREEN,
    ensures
        r == spec_cursor_world(cursor_pos, window, *cam),
{
    let half_w = ((window.width as u64) / 2) as i64;
    let half_h = ((window.height as u64) / 2) as i64;
    let sx = scaled(cursor_pos.x - half_w, cam.scale_tenths);
    let sy = scaled(cursor_pos.y - half_h, cam.scale_tenths);
    WorldPoint { x: cam.center.x + sx, y: cam.center.y + sy }
}

} // verus!
