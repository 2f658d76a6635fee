//! Platform: held-input tracking, window settings, and the per-frame
//! decisions of the event loop.

pub mod input;
pub mod window;
