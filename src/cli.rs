//! The options and subcommands of the command line interface.

use vstd::prelude::*;

verus! {

/// Options for the sup program.
#[derive(Debug, Clone)]
pub struct StandupOpt {
    /// The editor used to open standup notes.
    pub editor: String,
    /// The directory where the standup notes are kept.
    pub sup_dir_notes: String,
    /// The IRC log directory.
    pub sup_dir_irc_logs: String,
    /// The begin pattern for standups.
    pub sup_pattern_begin: String,
    /// The discussion pattern for standups.
    pub sup_pattern_discussion: String,
    /// The end pattern for standups.
    pub sup_pattern_end: String,
    /// What to do.
    pub command: StandupCmd,
}

/// The subcommands of the sup program.
#[derive(Debug, Clone)]
pub enum StandupCmd {
    /// Edit the standup notes for the given project.
    Edit { project_code: String },
    /// Print a project's standup notes and the next engineer's header.
    Show { project_code: String, next_engineer: String },
    /// Print the last standup from the project's IRC log.
    Format { irc_log_pattern: String },
}

} // verus!
