//! The command surface: plain option records that the dispatch layer fills
//! in and hands to the corpus functions.

use vstd::prelude::*;

verus! {

/// Options of the search command.
pub struct SearchCommand {
    /// Case-insensitive search for the query
    pub insensitive: bool,
    /// Add colors on the matching queries
    pub colors: bool,
    /// Only print the single value (first match)
    pub single: bool,
    /// A query to search in every single fortunes file
    pub query: String,
    /// Regex and pattern matching
    pub regex: bool,
}

impl SearchCommand {
    /// Highlighting and regex mode are mutually exclusive: asking for both
    /// is a configuration conflict, to be reported before any scan begins.
    pub fn conflicting(&self) -> (r: bool)
        ensures
            r == (self.regex && self.colors),
    {
        self.regex && self.colors
    }
}

/// Options of the one-shot fortune command.
pub struct FortuneCommand {
    /// Number of random fortunes
    pub howmany: i32,
}

/// Options of the fortune-of-a-day command.
pub struct DayCommand {
    /// Number of random fortunes
    pub howmany: i32,
}

/// Options of the repeat-forever display loop.
pub struct WaitCommand {
    /// Wait in days
    pub days: u64,
    /// Wait in hours
    pub hours: u64,
    /// Wait in minutes
    pub mins: u64,
    /// Wait in seconds
    pub secs: u64,
    /// Wait in milliseconds
    pub millis: u64,
    /// Wait in nanoseconds
    pub nanos: u64,
}

/// The subcommands.
pub enum Commands {
    /// Fortune anytime you want
    Fortune(FortuneCommand),
    /// Search for a keyword in cookie files
    Search(SearchCommand),
    /// Fortune of a day
    Day(DayCommand),
    /// Wait given amount of time between fortunes in an infinite loop
    Wait(WaitCommand),
}

/// The whole command line: an optional subcommand.
pub struct Cli {
    pub command: Option<Commands>,
}

} // verus!
