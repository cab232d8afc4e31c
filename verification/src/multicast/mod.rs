//! Multicast transport: framing, fragmentation, reordering and loss tracking.

pub mod packet;
pub mod remuxer;
pub mod fragments;
pub mod receiver;
pub mod reliable;
pub mod sender;
pub mod nack;
