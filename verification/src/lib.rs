//! Sub-allocation of device memory.
//!
//! A rendering engine obtains device memory in a few large objects and carves
//! buffers and images out of them.  This crate holds the bookkeeping for that:
//! which heap and memory type serve a request, where inside a memory object a
//! resource is placed, and how a staging buffer is shared by many uploads.
//! No function here talks to a device; callers hand in what the device
//! reported and carry out what the functions decide.

pub mod device;
pub mod game;
pub mod memory;
pub mod utils;
