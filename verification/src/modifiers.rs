//! Keyboard modifier state.
//!
//! The flags mirror what a keyboard library reports for the effective
//! modifiers of a keyboard state; the caller reads them there and fills the
//! struct through [`ModifiersState::apply`].

use vstd::prelude::*;

verus! {

/// Modifier state as sent on the wire: masks per component, and the
/// effective layout.
#[derive(Copy, Clone, Debug, Default, PartialEq, Eq, Hash, Structural)]
pub struct SerializedMods {
    /// Mask of the modifiers that are pressed.
    pub depressed: u32,
    /// Mask of the modifiers that are latched.
    pub latched: u32,
    /// Mask of the modifiers that are locked.
    pub locked: u32,
    /// The effective keyboard layout.
    pub layout_effective: u32,
}

/// The current state of the keyboard modifiers.
///
/// Each flag is `true` while its modifier is effective: for some that means
/// the key is held, for others (caps lock, num lock) that it is toggled on.
#[derive(Copy, Clone, Debug, Default, PartialEq, Eq, Hash, Structural)]
pub struct ModifiersState {
    /// The "control" key.
    pub ctrl: bool,
    /// The "alt" key.
    pub alt: bool,
    /// The "shift" key.
    pub shift: bool,
    /// The "caps lock" key.
    pub caps_lock: bool,
    /// The "logo" key, also known as the "windows" key.
    pub logo: bool,
    /// The "num lock" key.
    pub num_lock: bool,
    /// Serialized modifier state, as sent e.g. by the wl_keyboard protocol.
    pub serialized: SerializedMods,
}

impl ModifiersState {
    /// Overwrite every field from plain values, as read off a keyboard
    /// state.
    pub fn apply(
        &mut self,
        ctrl: bool,
        alt: bool,
        shift: bool,
        caps_lock: bool,
        logo: bool,
        num_lock: bool,
        serialized: SerializedMods,
    )
        ensures
            *final(self) == (ModifiersState {
                ctrl,
                alt,
                shift,
                caps_lock,
                logo,
                num_lock,
                serialized,
            }),
    {
        self.ctrl = ctrl;
        self.alt = alt;
        self.shift = shift;
        self.caps_lock = caps_lock;
        self.logo = logo;
        self.num_lock = num_lock;
        self.serialized = serialized;
    }
}

} // verus!
