//! Status codes that a plugin's `process_image` entry point returns.
use vstd::prelude::*;

verus! {

/// Outcome of a plugin call, carried across the plugin boundary as an `i32`:
/// `0` success, `1` invalid image size, `2` unknown error, `3` invalid params.
#[derive(Debug, Copy, Clone, PartialEq, Eq, Structural)]
pub enum PluginError {
    /// The image was processed.
    Success,
    /// The image dimensions do not describe a buffer that fits in memory.
    InvalidSize,
    /// Any failure without a code of its own.
    UnknownError,
    /// The parameters are missing or malformed.
    InvalidParams,
}

/// The status code of each outcome.
pub open spec fn error_code(e: PluginError) -> i32 {
    match e {
        PluginError::Success => 0,
        PluginError::InvalidSize => 1,
        PluginError::UnknownError => 2,
        PluginError::InvalidParams => 3,
    }
}

/// The outcome a status code stands for; codes without a meaning of their
/// own are unknown errors.
pub open spec fn error_from_code(code: i32) -> PluginError {
    if code == 0 {
        PluginError::Success
    } else if code == 1 {
        PluginError::InvalidSize
    } else if code == 3 {
        PluginError::InvalidParams
    } else {
        PluginError::UnknownError
    }
}

impl PluginError {
    /// The status code that stands for this outcome.
    pub fn code(&self) -> (code: i32)
        ensures
            code == error_code(*self),
    {
        match self {
            PluginError::Success => 0,
            PluginError::InvalidSize => 1,
            PluginError::UnknownError => 2,
            PluginError::InvalidParams => 3,
        }
    }

    /// A short description of the outcome, for messages to the user.
    pub fn message(&self) -> (text: &'static str)
        ensures
            *self == PluginError::Success ==> text@ == "success"@,
            *self == PluginError::InvalidSize ==> text@ == "invalid image size"@,
            *self == PluginError::UnknownError ==> text@ == "unknown error"@,
            *self == PluginError::InvalidParams ==> text@ == "invalid params"@,
    {
        match self {
            PluginError::Success => "success",
            PluginError::InvalidSize => "invalid image size",
            PluginError::UnknownError => "unknown error",
            PluginError::InvalidParams => "invalid params",
        }
    }
}

impl From<i32> for PluginError {
    fn from(code: i32) -> (e: PluginError) {
        if code == 0 {
            PluginError::Success
        } else if code == 1 {
            PluginError::InvalidSize
        } else if code == 3 {
            PluginError::InvalidParams
        } else {
            PluginError::UnknownError
        }
    }
}

impl vstd::std_specs::convert::FromSpecImpl<i32> for PluginError {
    open spec fn obeys_from_spec() -> bool {
        true
    }

    open spec fn from_spec(code: i32) -> PluginError {
        error_from_code(code)
    }
}

/// Reading back the code of an outcome gives that outcome, and every code
/// that has a meaning reads back to itself.
pub proof fn lemma_code_round_trip(e: PluginError, code: i32)
    ensures
        error_from_code(error_code(e)) == e,
        0 <= code <= 3 ==> error_code(error_from_code(code)) == code,
        !(0 <= code <= 3) ==> error_from_code(code) == PluginError::UnknownError,
{
}

} // verus!
