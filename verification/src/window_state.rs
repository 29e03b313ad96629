//! Which window geometry is remembered and restored.
use vstd::prelude::*;

verus! {

/// The remembered main-window geometry.
#[derive(Clone, Copy, Debug, PartialEq, Eq)]
pub struct WindowState {
    pub x: Option<i32>,
    pub y: Option<i32>,
    pub width: Option<u32>,
    pub height: Option<u32>,
    pub maximized: bool,
}

impl Default for WindowState {
    fn default() -> (s: WindowState)
        ensures
            s.x is None && s.y is None && s.width is None && s.height is None && !s.maximized,
    {
        WindowState { x: None, y: None, width: None, height: None, maximized: false }
    }
}

pub open spec fn normal_position(x: i32, y: i32) -> bool {
    x > -10_000 && y > -10_000 && x < 50_000 && y < 50_000
}

pub open spec fn normal_size(width: u32, height: u32) -> bool {
    width >= 720 && height >= 480 && width <= 20_000 && height <= 20_000
}

/// A position on or near the visible desktop.
pub fn is_normal_position(x: i32, y: i32) -> (r: bool)
    ensures
        r == normal_position(x, y),
{
    x > -10_000 && y > -10_000 && x < 50_000 && y < 50_000
}

/// A size the window can sensibly be restored to.
pub fn is_normal_size(width: u32, height: u32) -> (r: bool)
    ensures
        r == normal_size(width, height),
{
    width >= 720 && height >= 480 && width <= 20_000 && height <= 20_000
}

/// Width and height that the window decorations add to the inner size.
pub fn decoration_delta(outer: (u32, u32), inner: (u32, u32)) -> (r: (u32, u32))
    ensures
        r.0 == (if outer.0 >= inner.0 {
            outer.0 - inner.0
        } else {
            0
        }),
        r.1 == (if outer.1 >= inner.1 {
            outer.1 - inner.1
        } else {
            0
        }),
{
    (outer.0.saturating_sub(inner.0), outer.1.saturating_sub(inner.1))
}

/// The window's restored (non-maximized) outer frame.
#[derive(Clone, Copy, Debug)]
pub struct RestoredFrame {
    pub x: i32,
    pub y: i32,
    pub width: u32,
    pub height: u32,
}

/// `i32::saturating_sub`.
fn sat_sub_i32(a: i32, b: i32) -> (r: i32)
    ensures
        r == (if a - b > i32::MAX {
            i32::MAX as int
        } else if a - b < i32::MIN {
            i32::MIN as int
        } else {
            a - b
        }),
{
    let d = (a as i64) - (b as i64);
    if d > i32::MAX as i64 {
        i32::MAX
    } else if d < i32::MIN as i64 {
        i32::MIN
    } else {
        d as i32
    }
}

/// The frame of a placement rectangle, when it has a positive area.
pub fn frame_from_rect(left: i32, top: i32, right: i32, bottom: i32) -> (r: Option<
    RestoredFrame,
>)
    ensures
        match r {
            Some(f) => right - left > 0 && bottom - top > 0 && f.x == left && f.y == top
                && f.width == (if right - left > i32::MAX {
                i32::MAX as int
            } else {
                right - left
            }) && f.height == (if bottom - top > i32::MAX {
                i32::MAX as int
            } else {
                bottom - top
            }),
            None => right - left <= 0 || bottom - top <= 0,
        },
{
    let width = sat_sub_i32(right, left);
    let height = sat_sub_i32(bottom, top);
    if width <= 0 || height <= 0 {
        return None;
    }
    Some(RestoredFrame { x: left, y: top, width: width as u32, height: height as u32 })
}

/// Remembers a position and inner size when both look normal; otherwise keeps the old ones.
pub fn save_normal_inner_frame(state: &mut WindowState, pos: (i32, i32), size: (u32, u32))
    ensures
        if normal_position(pos.0, pos.1) && normal_size(size.0, size.1) {
            *final(state) == WindowState {
                x: Some(pos.0),
                y: Some(pos.1),
                width: Some(size.0),
                height: Some(size.1),
                ..*old(state)
            }
        } else {
            *final(state) == *old(state)
        },
{
    if is_normal_position(pos.0, pos.1) && is_normal_size(size.0, size.1) {
        state.x = Some(pos.0);
        state.y = Some(pos.1);
        state.width = Some(size.0);
        state.height = Some(size.1);
    }
}

/// Remembers the restored frame of a maximized or minimized window, less the
/// decorations, when it looks normal.
pub fn save_inner_frame_from_placement(
    state: &mut WindowState,
    frame: &RestoredFrame,
    pad: (u32, u32),
)
    ensures
        ({
            let w = if frame.width >= pad.0 {
                (frame.width - pad.0) as u32
            } else {
                0u32
            };
            let h = if frame.height >= pad.1 {
                (frame.height - pad.1) as u32
            } else {
                0u32
            };
            if normal_position(frame.x, frame.y) && normal_size(w, h) {
                *final(state) == WindowState {
                    x: Some(frame.x),
                    y: Some(frame.y),
                    width: Some(w),
                    height: Some(h),
                    ..*old(state)
                }
            } else {
                *final(state) == *old(state)
            }
        }),
{
    let width = frame.width.saturating_sub(pad.0);
    let height = frame.height.saturating_sub(pad.1);
    if is_normal_position(frame.x, frame.y) && is_normal_size(width, height) {
        state.x = Some(frame.x);
        state.y = Some(frame.y);
        state.width = Some(width);
        state.height = Some(height);
    }
}

/// What is known of the window when it closes.
pub struct WindowSnapshot {
    pub minimized: bool,
    pub maximized: bool,
    /// Outer position and inner size, when they could be read.
    pub normal_frame: Option<((i32, i32), (u32, u32))>,
    /// The restored frame, when it could be read.
    pub restored: Option<RestoredFrame>,
    /// The decoration size (outer minus inner).
    pub pad: (u32, u32),
}

/// The remembered frame updated with `pos`/`size` when both look normal.
pub open spec fn with_frame(s: WindowState, pos: (i32, i32), size: (u32, u32)) -> WindowState {
    if normal_position(pos.0, pos.1) && normal_size(size.0, size.1) {
        WindowState {
            x: Some(pos.0),
            y: Some(pos.1),
            width: Some(size.0),
            height: Some(size.1),
            ..s
        }
    } else {
        s
    }
}

/// `a - b`, or 0 when `b` is larger.
pub open spec fn sat_sub_u32(a: u32, b: u32) -> u32 {
    if a >= b {
        (a - b) as u32
    } else {
        0
    }
}

/// The geometry remembered when the window closes: the maximized flag unless
/// minimized; the current frame when the window is in its normal state;
/// otherwise the restored frame less decorations, when there are decorations
/// to take off.
pub open spec fn recorded_state(old: WindowState, snap: WindowSnapshot) -> WindowState {
    let s1 = if !snap.minimized {
        WindowState { maximized: snap.maximized, ..old }
    } else {
        old
    };
    if !snap.minimized && !snap.maximized {
        match snap.normal_frame {
            Some(frame) => with_frame(s1, frame.0, frame.1),
            None => s1,
        }
    } else {
        match snap.restored {
            Some(f) => if snap.pad.0 > 0 || snap.pad.1 > 0 {
                with_frame(
                    s1,
                    (f.x, f.y),
                    (sat_sub_u32(f.width, snap.pad.0), sat_sub_u32(f.height, snap.pad.1)),
                )
            } else {
                s1
            },
            None => s1,
        }
    }
}

/// Updates the remembered geometry from the window as it closes.
pub fn record_window(state: &mut WindowState, snap: &WindowSnapshot)
    ensures
        *final(state) == recorded_state(*old(state), *snap),
{
    if !snap.minimized {
        state.maximized = snap.maximized;
    }
    if !snap.minimized && !snap.maximized {
        match snap.normal_frame {
            Some((pos, size)) => save_normal_inner_frame(state, pos, size),
            None => {},
        }
    } else {
        match &snap.restored {
            Some(f) => {
                if snap.pad.0 > 0 || snap.pad.1 > 0 {
                    save_inner_frame_from_placement(state, f, snap.pad);
                }
            },
            None => {},
        }
    }
}

/// What restoring a remembered geometry does to the window.
pub struct RestorePlan {
    pub size: Option<(u32, u32)>,
    pub position: Option<(i32, i32)>,
    pub maximize: bool,
}

/// Only a normal remembered size and a normal remembered position are applied.
pub fn restore_plan(state: &WindowState) -> (r: RestorePlan)
    ensures
        (r.size, r.position, r.maximize) == planned_restore(*state),
{
    let size = match (state.width, state.height) {
        (Some(w), Some(h)) => if is_normal_size(w, h) {
            Some((w, h))
        } else {
            None
        },
        _ => None,
    };
    let position = match (state.x, state.y) {
        (Some(x), Some(y)) => if is_normal_position(x, y) {
            Some((x, y))
        } else {
            None
        },
        _ => None,
    };
    RestorePlan { size, position, maximize: state.maximized }
}

/// What restoring applies: a normal remembered size, a normal remembered
/// position, and the maximized flag.
pub open spec fn planned_restore(state: WindowState) -> (Option<(u32, u32)>, Option<(i32, i32)>, bool) {
    (
        match (state.width, state.height) {
            (Some(w), Some(h)) => if normal_size(w, h) {
                Some((w, h))
            } else {
                None
            },
            _ => None,
        },
        match (state.x, state.y) {
            (Some(x), Some(y)) => if normal_position(x, y) {
                Some((x, y))
            } else {
                None
            },
            _ => None,
        },
        state.maximized,
    )
}

/// A window closed in its normal state with a normal frame is restored to
/// exactly that frame, and not maximized.
pub proof fn lemma_record_then_restore(old: WindowState, snap: WindowSnapshot)
    requires
        !snap.minimized,
        !snap.maximized,
        match snap.normal_frame {
            Some((pos, size)) => normal_position(pos.0, pos.1) && normal_size(size.0, size.1),
            None => false,
        },
    ensures
        match snap.normal_frame {
            Some((pos, size)) => planned_restore(recorded_state(old, snap)) == (
                Some(size),
                Some(pos),
                false,
            ),
            None => false,
        },
{
}

} // verus!
