//! What the core shares with the application shell around it: the kind of
//! platform directory the shell resolves for the backing file, and the
//! interface the window's toggle switch drives.

use vstd::prelude::*;

verus! {

/// A platform directory the application resolves at startup; the core only
/// ever receives the resulting file's bytes.
#[derive(Clone, Copy, Debug, PartialEq, Eq, Structural)]
pub enum DirectoryType {
    Config,
    Data,
}

/// A tracking session that the window's toggle switch turns on and off.
pub trait WithToggleSwitch {
    /// Flip the session state, logging the matching work or break event.
    fn on_tracker_state_change(&mut self);

    /// The current session state, `true` while tracking.
    fn get_toggle_state(&self) -> bool;
}

} // verus!
