//! Errors from setting up or driving the GPU.

use vstd::prelude::*;

verus! {

/// Errors from adapter, device or surface setup and use.
#[derive(Debug)]
pub enum RendererError {
    /// No suitable GPU adapter was found.
    NoAdapter,
    /// The device request failed.
    DeviceRequest(String),
    /// The surface could not be created, configured or acquired.
    Surface(String),
}

impl RendererError {
    /// The human-readable message for this error.
    pub fn message(&self) -> (s: String)
        ensures
            s@ == match self {
                RendererError::NoAdapter => "no suitable GPU adapter found"@,
                RendererError::DeviceRequest(d) => "failed to request device: "@ + d@,
                RendererError::Surface(d) => "surface error: "@ + d@,
            },
    {
        match self {
            RendererError::NoAdapter => String::from_str("no suitable GPU adapter found"),
            RendererError::DeviceRequest(d) => {
                let mut s = String::from_str("failed to request device: ");
                s.append(d.as_str());
                s
            },
            RendererError::Surface(d) => {
                let mut s = String::from_str("surface error: ");
                s.append(d.as_str());
                s
            },
        }
    }
}

} // verus!
