//! Which keys and mouse buttons are held, updated from engine events.
//! Keys and buttons are identified by integer codes; the event normalizer
//! assigns one code per physical key and per mouse button.

use vstd::prelude::*;
use std::collections::HashSet;

verus! {

broadcast use vstd::std_specs::hash::group_hash_axioms;

/// The discrete window and input events the engine reacts to. Pointer motion
/// and scrolling, which carry fractional coordinates, travel separately.
#[derive(Debug, Clone, Copy, PartialEq, Eq, Structural)]
pub enum InputEvent {
    /// The user asked to close the window.
    CloseRequested,
    /// The window's inner size changed, in physical pixels.
    Resized { width: u32, height: u32 },
    /// The window gained (`true`) or lost (`false`) keyboard focus.
    FocusChanged(bool),
    /// A physical key went down (repeats while held).
    KeyPressed(u32),
    /// A physical key was released.
    KeyReleased(u32),
    /// A mouse button went down.
    MouseButtonPressed(u32),
    /// A mouse button was released.
    MouseButtonReleased(u32),
}

/// Which keys and mouse buttons are currently held.
pub struct InputState {
    keys_down: HashSet<u32>,
    buttons_down: HashSet<u32>,
}

impl InputState {
    /// The keys held down.
    pub closed spec fn spec_keys(&self) -> Set<u32> {
        self.keys_down@
    }

    /// The mouse buttons held down.
    pub closed spec fn spec_buttons(&self) -> Set<u32> {
        self.buttons_down@
    }

    /// Nothing held.
    pub fn new() -> (s: Self)
        ensures
            s.spec_keys() == Set::<u32>::empty(),
            s.spec_buttons() == Set::<u32>::empty(),
    {
        InputState { keys_down: HashSet::new(), buttons_down: HashSet::new() }
    }

    /// Feed one event in: a press holds its key or button, a release lets it
    /// go, and losing focus lets everything go (the system delivers no
    /// releases while another window has focus). Other events change nothing.
    pub fn handle_event(&mut self, event: &InputEvent)
        ensures
            final(self).spec_keys() == match *event {
                InputEvent::KeyPressed(k) => old(self).spec_keys().insert(k),
                InputEvent::KeyReleased(k) => old(self).spec_keys().remove(k),
                InputEvent::FocusChanged(false) => Set::<u32>::empty(),
                _ => old(self).spec_keys(),
            },
            final(self).spec_buttons() == match *event {
                InputEvent::MouseButtonPressed(b) => old(self).spec_buttons().insert(b),
                InputEvent::MouseButtonReleased(b) => old(self).spec_buttons().remove(b),
                InputEvent::FocusChanged(false) => Set::<u32>::empty(),
                _ => old(self).spec_buttons(),
            },
    {
        match event {
            InputEvent::KeyPressed(k) => {
                self.keys_down.insert(*k);
            },
            InputEvent::KeyReleased(k) => {
                self.keys_down.remove(k);
            },
            InputEvent::MouseButtonPressed(b) => {
                self.buttons_down.insert(*b);
            },
            InputEvent::MouseButtonReleased(b) => {
                self.buttons_down.remove(b);
            },
            InputEvent::FocusChanged(false) => {
                self.keys_down.clear();
                self.buttons_down.clear();
            },
            _ => {},
        }
    }

    /// True while the key is held down.
    pub fn is_key_down(&self, key: u32) -> (b: bool)
        ensures
            b == self.spec_keys().contains(key),
    {
        self.keys_down.contains(&key)
    }

    /// True while the mouse button is held down.
    pub fn is_button_down(&self, button: u32) -> (b: bool)
        ensures
            b == self.spec_buttons().contains(button),
    {
        self.buttons_down.contains(&button)
    }
}

impl Default for InputState {
    /// Nothing held.
    fn default() -> (s: Self)
        ensures
            s.spec_keys() == Set::<u32>::empty(),
            s.spec_buttons() == Set::<u32>::empty(),
    {
        Self::new()
    }
}

/// A key is held exactly from its press until its release or a loss of
/// focus: pressing makes it held, releasing or losing focus makes it not
/// held, and an event about another key leaves it as it was.
pub proof fn lemma_key_press_release(before: InputState, after: InputState, event: InputEvent, key: u32)
    requires
        after.spec_keys() == match event {
            InputEvent::KeyPressed(k) => before.spec_keys().insert(k),
            InputEvent::KeyReleased(k) => before.spec_keys().remove(k),
            InputEvent::FocusChanged(false) => Set::<u32>::empty(),
            _ => before.spec_keys(),
        },
    ensures
        after.spec_keys().contains(key) == match event {
            InputEvent::KeyPressed(k) => k == key || before.spec_keys().contains(key),
            InputEvent::KeyReleased(k) => k != key && before.spec_keys().contains(key),
            InputEvent::FocusChanged(false) => false,
            _ => before.spec_keys().contains(key),
        },
{
}

} // verus!
