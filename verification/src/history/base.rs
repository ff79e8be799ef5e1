//! The items that a history holds and the queries that it answers.
use vstd::prelude::*;

verus! {

/// The id by which a history knows one of its items.
#[derive(Debug, Clone, Copy, PartialEq, Eq, Structural)]
pub struct HistoryItemId(pub i64);

impl HistoryItemId {
    /// The id with the given number.
    pub fn new(i: i64) -> (id: HistoryItemId)
        ensures
            id == HistoryItemId(i),
    {
        HistoryItemId(i)
    }
}

/// The id of one session of the line editor.
#[derive(Debug, Clone, Copy, PartialEq, Eq, Structural)]
pub struct HistorySessionId(pub i64);

/// Stands for further information on an item, of which there is none.
#[derive(Debug, Clone, Copy, PartialEq, Eq, Structural)]
pub struct IgnoreAllExtraInfo;

/// One run command with what is known of the run.
///
/// Points in time are milliseconds since the start of 1970 in UTC; a duration
/// is in milliseconds.
#[derive(Debug, Clone, PartialEq, Eq)]
pub struct HistoryItem {
    /// The id, if the item has been stored.
    pub id: Option<HistoryItemId>,
    /// When the command was started.
    pub start_timestamp: Option<i64>,
    /// The full command line.
    pub command_line: String,
    /// The session in which the command was run.
    pub session_id: Option<HistorySessionId>,
    /// The host on which it was run.
    pub hostname: Option<String>,
    /// The directory in which it was run.
    pub cwd: Option<String>,
    /// How long it ran.
    pub duration: Option<u64>,
    /// The exit code.
    pub exit_status: Option<i64>,
    /// Anything else.
    pub more_info: Option<IgnoreAllExtraInfo>,
}

impl HistoryItem {
    /// Whether the item holds the given id and command line and nothing else.
    pub open spec fn is_bare(self, id: Option<HistoryItemId>, command_line: Seq<char>) -> bool {
        &&& self.id == id
        &&& self.command_line@ == command_line
        &&& self.start_timestamp is None
        &&& self.session_id is None
        &&& self.hostname is None
        &&& self.cwd is None
        &&& self.duration is None
        &&& self.exit_status is None
        &&& self.more_info is None
    }
}

/// Whether a search runs from the newest item to the oldest or the other way.
#[derive(Debug, Clone, Copy, PartialEq, Eq, Structural)]
pub enum SearchDirection {
    /// From the newest item to the oldest.
    Backward,
    /// From the oldest item to the newest.
    Forward,
}

/// What a command line is held against.
#[derive(Debug, Clone, PartialEq, Eq)]
pub enum CommandLineSearch {
    /// The command line starts with this text.
    Prefix(String),
    /// The command line contains this text.
    Substring(String),
    /// The command line is this text.
    Exact(String),
}

/// The conditions that an item has to meet.
#[derive(Debug, Clone, PartialEq, Eq)]
pub struct SearchFilter {
    /// The command line matches.
    pub command_line: Option<CommandLineSearch>,
    /// The command line is not this one.
    pub not_command_line: Option<String>,
    /// It was run on this host.
    pub hostname: Option<String>,
    /// It was run in exactly this directory.
    pub cwd_exact: Option<String>,
    /// It was run in a directory whose path starts with this one.
    pub cwd_prefix: Option<String>,
    /// It did, or did not, exit successfully.
    pub exit_successful: Option<bool>,
    /// It was run in this session.
    pub session: Option<HistorySessionId>,
}

/// One question to a history.
#[derive(Debug, Clone, PartialEq, Eq)]
pub struct SearchQuery {
    /// The order of the results.
    pub direction: SearchDirection,
    /// Nothing before this point in time, in search direction.
    pub start_time: Option<i64>,
    /// Nothing after this point in time, in search direction.
    pub end_time: Option<i64>,
    /// The search starts behind this item, in search direction.
    pub start_id: Option<HistoryItemId>,
    /// The search ends before this item, in search direction.
    pub end_id: Option<HistoryItemId>,
    /// How many results at most.
    pub limit: Option<i64>,
    /// The conditions on each result.
    pub filter: SearchFilter,
}

} // verus!
