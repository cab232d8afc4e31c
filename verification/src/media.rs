//! Plain descriptions of frames, windows and render back ends.

use vstd::prelude::*;

verus! {

/// A width and a height in pixels.
#[derive(Clone, Copy, Debug, PartialEq, Eq, Structural)]
pub struct Size {
    pub width: u32,
    pub height: u32,
}

/// The dimensions of a frame.
#[derive(Clone, Copy, Debug, PartialEq, Eq, Structural)]
pub struct FrameRect {
    pub width: usize,
    pub height: usize,
}

/// The dimensions of a video.
#[derive(Clone, Copy, Debug, PartialEq, Eq, Structural)]
pub struct VideoSize {
    pub width: u32,
    pub height: u32,
}

/// The pixel layout of a video frame.
#[derive(Clone, Copy, Debug, PartialEq, Eq, Structural)]
pub enum VideoFormat {
    RGBA,
    NV12,
}

/// Back end that draws video into a window.
#[derive(Clone, Copy, Debug, PartialEq, Eq, Structural)]
pub enum VideoRenderBackend {
    Dx11,
    Wgpu,
}

/// A window handle for a particular windowing system: the native handle
/// value and the window's size.
#[derive(Clone, Copy, Debug, PartialEq, Eq, Structural)]
pub enum Window {
    Win32(usize, Size),
}

impl Window {
    /// The size of the window.
    pub fn size(&self) -> (r: Size)
        ensures
            match *self {
                Window::Win32(_, s) => r == s,
            },
    {
        match self {
            Window::Win32(_, size) => *size,
        }
    }
}

} // verus!
