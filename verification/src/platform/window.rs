//! Window settings, window and event-loop errors, and the frame-loop
//! decision of whether to keep running.

use vstd::prelude::*;
use crate::platform::input::InputEvent;

verus! {

/// Settings used when creating the main engine window.
#[derive(Debug)]
pub struct WindowConfig {
    /// Window title bar text.
    pub title: String,
    /// Initial inner width in logical pixels.
    pub width: u32,
    /// Initial inner height in logical pixels.
    pub height: u32,
    /// Whether the user can resize the window.
    pub resizable: bool,
    /// Whether the system draws a title bar and frame.
    pub decorations: bool,
    /// Whether presentation waits for vertical sync.
    pub vsync: bool,
}

impl Clone for WindowConfig {
    /// A field-by-field copy.
    fn clone(&self) -> (c: Self)
        ensures
            c.title@ == self.title@,
            c.width == self.width,
            c.height == self.height,
            c.resizable == self.resizable,
            c.decorations == self.decorations,
            c.vsync == self.vsync,
    {
        WindowConfig {
            title: self.title.clone(),
            width: self.width,
            height: self.height,
            resizable: self.resizable,
            decorations: self.decorations,
            vsync: self.vsync,
        }
    }
}

impl Default for WindowConfig {
    /// A resizable, decorated 1600x900 window titled "Elderforge", with vsync.
    fn default() -> (c: Self)
        ensures
            c.title@ == "Elderforge"@,
            c.width == 1600,
            c.height == 900,
            c.resizable,
            c.decorations,
            c.vsync,
    {
        WindowConfig {
            title: String::from_str("Elderforge"),
            width: 1600,
            height: 900,
            resizable: true,
            decorations: true,
            vsync: true,
        }
    }
}

/// Errors from window creation or the event loop itself.
#[derive(Debug)]
pub enum WindowError {
    /// The window could not be created.
    Creation(String),
    /// The event loop failed.
    EventLoop(String),
}

impl WindowError {
    /// The human-readable message for this error.
    pub fn message(&self) -> (s: String)
        ensures
            s@ == match self {
                WindowError::Creation(d) => "failed to create window: "@ + d@,
                WindowError::EventLoop(d) => "event loop error: "@ + d@,
            },
    {
        match self {
            WindowError::Creation(d) => {
                let mut s = String::from_str("failed to create window: ");
                s.append(d.as_str());
                s
            },
            WindowError::EventLoop(d) => {
                let mut s = String::from_str("event loop error: ");
                s.append(d.as_str());
                s
            },
        }
    }
}

/// What the per-frame closure tells the event loop to do next.
#[derive(Debug, Clone, Copy, PartialEq, Eq, Structural)]
pub enum FrameControl {
    /// Keep running; another frame will follow.
    Continue,
    /// Shut the event loop down after this frame.
    Exit,
}

/// Whether the event loop ends after this frame: when the frame's events
/// include a close request (delivered to the frame for last-frame work, then
/// the loop exits regardless), or when the frame asked to exit.
pub fn should_exit(events: &[InputEvent], control: FrameControl) -> (b: bool)
    ensures
        b == (control == FrameControl::Exit || exists|i: int|
            0 <= i < events@.len() && events@[i] == InputEvent::CloseRequested),
{
    let mut close_requested = false;
    let mut i: usize = 0;
    while i < events.len()
        invariant
            i <= events@.len(),
            close_requested == exists|j: int| 0 <= j < i && events@[j] == InputEvent::CloseRequested,
        decreases events@.len() - i,
    {
        if events[i] == InputEvent::CloseRequested {
            close_requested = true;
        }
        i = i + 1;
    }
    close_requested || control == FrameControl::Exit
}

} // verus!
