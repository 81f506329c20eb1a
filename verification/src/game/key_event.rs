//! What the keys do to the camera.
//!
//! The camera has a position and a target.  The letter keys, the space bar
//! and the left control key move the position; the arrow keys, the right
//! shift key and the right control key move the target.  How far a step
//! goes is for the caller to say.

use vstd::prelude::*;

verus! {

/// The keys that the game knows, and one for all the others.
#[derive(PartialEq, Eq, Structural, Debug, Clone, Copy)]
pub enum Key {
    W,
    S,
    A,
    D,
    Space,
    LControl,
    Up,
    Down,
    Left,
    Right,
    RShift,
    RControl,
    Other,
}

/// One of the three axes of space.
#[derive(PartialEq, Eq, Structural, Debug, Clone, Copy)]
pub enum Axis {
    X,
    Y,
    Z,
}

/// What a step moves.
#[derive(PartialEq, Eq, Structural, Debug, Clone, Copy)]
pub enum Moved {
    Position,
    Target,
}

/// One step of the camera.
#[derive(PartialEq, Eq, Structural, Debug, Clone, Copy)]
pub struct Step {
    /// What moves.
    pub moved: Moved,
    /// The axis along which it moves.
    pub axis: Axis,
    /// Whether it moves towards larger coordinates.
    pub forward: bool,
}

/// The step that a key stands for while it is pressed.
pub open spec fn step_of(key: Key) -> Option<Step> {
    match key {
        Key::W => Some(Step { moved: Moved::Position, axis: Axis::Z, forward: true }),
        Key::S => Some(Step { moved: Moved::Position, axis: Axis::Z, forward: false }),
        Key::A => Some(Step { moved: Moved::Position, axis: Axis::X, forward: false }),
        Key::D => Some(Step { moved: Moved::Position, axis: Axis::X, forward: true }),
        Key::Space => Some(Step { moved: Moved::Position, axis: Axis::Y, forward: true }),
        Key::LControl => Some(Step { moved: Moved::Position, axis: Axis::Y, forward: false }),
        Key::Up => Some(Step { moved: Moved::Target, axis: Axis::Y, forward: true }),
        Key::Down => Some(Step { moved: Moved::Target, axis: Axis::Y, forward: false }),
        Key::Left => Some(Step { moved: Moved::Target, axis: Axis::X, forward: false }),
        Key::Right => Some(Step { moved: Moved::Target, axis: Axis::X, forward: true }),
        Key::RShift => Some(Step { moved: Moved::Target, axis: Axis::Z, forward: true }),
        Key::RControl => Some(Step { moved: Moved::Target, axis: Axis::Z, forward: false }),
        Key::Other => None,
    }
}

/// The step that a key event asks for: that of the key where the key is
/// pressed, none where it is released.
pub fn handle_key_event(key: Key, pressed: bool) -> (step: Option<Step>)
    ensures
        step == (if pressed {
            step_of(key)
        } else {
            None
        }),
{
    if !pressed {
        return None;
    }
    let (moved, axis, forward) = match key {
        Key::W => (Moved::Position, Axis::Z, true),
        Key::S => (Moved::Position, Axis::Z, false),
        Key::A => (Moved::Position, Axis::X, false),
        Key::D => (Moved::Position, Axis::X, true),
        Key::Space => (Moved::Position, Axis::Y, true),
        Key::LControl => (Moved::Position, Axis::Y, false),
        Key::Up => (Moved::Target, Axis::Y, true),
        Key::Down => (Moved::Target, Axis::Y, false),
        Key::Left => (Moved::Target, Axis::X, false),
        Key::Right => (Moved::Target, Axis::X, true),
        Key::RShift => (Moved::Target, Axis::Z, true),
        Key::RControl => (Moved::Target, Axis::Z, false),
        Key::Other => { return None; },
    };
    Some(Step { moved, axis, forward })
}

} // verus!
