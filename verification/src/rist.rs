//! Error, profile and log level values of the RIST transport.

use vstd::prelude::*;

verus! {

/// Failures of the RIST transport.
#[derive(Clone, Copy, Debug, PartialEq, Eq, Structural)]
pub enum Error {
    SetLogging,
    CreateSender,
    ParseAddress,
    CreatePeer,
    Start,
    SendDataBlock,
    SetReceiverCallback,
}

impl Error {
    /// The name of the failure, as it is displayed.
    pub fn as_str(&self) -> (r: &'static str)
        ensures
            r@ == match *self {
                Error::SetLogging => "SetLogging"@,
                Error::CreateSender => "CreateSender"@,
                Error::ParseAddress => "ParseAddress"@,
                Error::CreatePeer => "CreatePeer"@,
                Error::Start => "Start"@,
                Error::SendDataBlock => "SendDataBlock"@,
                Error::SetReceiverCallback => "SetReceiverCallback"@,
            },
    {
        match self {
            Error::SetLogging => "SetLogging",
            Error::CreateSender => "CreateSender",
            Error::ParseAddress => "ParseAddress",
            Error::CreatePeer => "CreatePeer",
            Error::Start => "Start",
            Error::SendDataBlock => "SendDataBlock",
            Error::SetReceiverCallback => "SetReceiverCallback",
        }
    }
}

/// RIST profile.
#[derive(Clone, Copy, Debug, PartialEq, Eq, Structural)]
pub enum Profile {
    Simple,
    Main,
    Advanced,
}

impl Profile {
    /// The value the RIST library gives the profile.
    pub fn code(&self) -> (r: i32)
        ensures
            r == match *self {
                Profile::Simple => 0i32,
                Profile::Main => 1i32,
                Profile::Advanced => 2i32,
            },
    {
        match self {
            Profile::Simple => 0,
            Profile::Main => 1,
            Profile::Advanced => 2,
        }
    }
}

/// RIST log level.
#[derive(Clone, Copy, Debug, PartialEq, Eq, Structural)]
pub enum LogLevel {
    Disable,
    Error,
    Warn,
    Notice,
    Info,
    Debug,
    Simulate,
}

impl LogLevel {
    /// The value the RIST library gives the log level.
    pub fn code(&self) -> (r: i32)
        ensures
            r == match *self {
                LogLevel::Disable => -1i32,
                LogLevel::Error => 3i32,
                LogLevel::Warn => 4i32,
                LogLevel::Notice => 5i32,
                LogLevel::Info => 6i32,
                LogLevel::Debug => 7i32,
                LogLevel::Simulate => 100i32,
            },
    {
        match self {
            LogLevel::Disable => -1,
            LogLevel::Error => 3,
            LogLevel::Warn => 4,
            LogLevel::Notice => 5,
            LogLevel::Info => 6,
            LogLevel::Debug => 7,
            LogLevel::Simulate => 100,
        }
    }
}

} // verus!
