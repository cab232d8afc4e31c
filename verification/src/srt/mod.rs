//! SRT transport: socket options and message fragmentation.

pub mod options;
pub mod fragments;
