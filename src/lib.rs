//! Locating and rendering the last standup recorded in an IRC log.

use vstd::prelude::*;

pub mod cli;
pub mod irclog;
pub mod notes;
pub mod text;

pub use irclog::{rpos_str, write_last_standup};
pub use notes::notes_path;

verus! {

/// Errors reported while locating a standup.
#[derive(Debug)]
pub enum StandupError {
    /// Reading a file failed; carries the description of the failure.
    IO(String),
    /// A marker does not occur in any line of the log.
    StringNotFound(String),
    /// The markers were found, but not as start < discussion < end.
    IrcStandupPositionInvalid(usize, usize, usize),
    /// No IRC log file name matches the pattern.
    NoIrcLogPathsFound(String),
}

} // verus!
