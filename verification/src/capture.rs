//! Capture sources and the handlers that receive captured frames.

use vstd::prelude::*;

verus! {

/// A capture source, such as one screen among several.
#[derive(Clone, Debug)]
pub struct Source {
    pub id: String,
    pub name: String,
    pub index: usize,
}

/// What to capture from a video source, and at which size and rate.
#[derive(Clone, Debug)]
pub struct VideoCaptureSourceDescription {
    pub source: Source,
    pub width: u32,
    pub height: u32,
    pub fps: u8,
}

/// Receives captured data.
pub trait CaptureFrameHandler {
    /// The type of data captured, such as video frames.
    type Frame;

    /// This method is called when the capture source captures new data. If it
    /// returns false, the source stops capturing.
    fn sink(&self, frame: &Self::Frame) -> bool;
}

/// A kind of capture.
pub trait CaptureHandler {
    type Error;

    /// The type of data captured, such as video frames.
    type Frame;

    /// Start capturing configuration information, which may be different for
    /// each source.
    type CaptureOptions;

    /// Stop capturing the current source.
    fn stop(&self) -> Result<(), Self::Error>;

    /// Get a list of sources, such as multiple screens in a display source.
    fn get_sources(&self) -> Result<Vec<Source>, Self::Error>;

    /// Start capturing. This function will not block until capturing is
    /// stopped, and it maintains its own capture thread internally.
    fn start<S: CaptureFrameHandler<Frame = Self::Frame>>(
        &self,
        options: Self::CaptureOptions,
        sink: S,
    ) -> Result<(), Self::Error>;
}

/// Screen capture; it records whether it is running.
pub struct ScreenCapture {
    is_running: bool,
}

impl ScreenCapture {
    /// A screen capture that is not running.
    pub fn new() -> (r: ScreenCapture)
        ensures
            !r.running(),
    {
        ScreenCapture { is_running: false }
    }

    /// Whether the capture is running.
    pub closed spec fn running(&self) -> bool {
        self.is_running
    }

    /// Stops the capture.
    pub fn stop(&mut self)
        ensures
            !final(self).running(),
    {
        self.is_running = false;
    }
}

/// Two 32-bit values in one 64-bit value: `a` in the high half, `b` in the
/// low half.
pub fn pack_u32_to_u64(a: u32, b: u32) -> (r: u64)
    ensures
        r == a as int * 0x1_0000_0000 + b as int,
        (r >> 32u64) as u32 == a,
        r as u32 == b,
{
    let r = ((a as u64) << 32u64) | b as u64;
    assert(((a as u64) << 32u64) | b as u64 == a as u64 * 0x1_0000_0000 + b as u64) by (bit_vector);
    assert((((((a as u64) << 32u64) | b as u64) >> 32u64) as u32 == a) && ((((a as u64)
        << 32u64) | b as u64) as u32 == b)) by (bit_vector);
    r
}

} // verus!
