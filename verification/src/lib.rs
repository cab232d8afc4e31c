//! Verified core of a screen-casting toolkit: wire formats, packet
//! fragmentation and reassembly, reordering and loss detection.

pub mod be;
pub mod checksum;
pub mod chunk;
pub mod clock;
pub mod multicast;
pub mod srt;
pub mod physeter;
pub mod media;
pub mod hylarana;
pub mod mirror;
pub mod rist;
pub mod camel;
pub mod capture;
pub mod resample;
pub mod graphics;
