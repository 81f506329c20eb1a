//! Choices made while the device is set up and while frames are drawn.

pub mod frame;
pub mod queue;
pub mod support;
pub mod swap_chain;
