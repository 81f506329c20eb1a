//! Rules of the game that runs on the renderer.

pub mod key_event;
