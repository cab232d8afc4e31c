//! Linear packetization of a byte stream.

pub mod packet;
