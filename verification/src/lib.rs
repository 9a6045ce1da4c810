//! Image transformations of the `ip` tool and its plugins, on RGBA8 buffers.
pub mod pixels;
pub mod mirror;
pub mod plugin_error;
pub mod blur;
pub mod args;
