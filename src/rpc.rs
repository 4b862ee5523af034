use vstd::prelude::*;
use crate::log::{EntryView, LogEntry};

verus! {

/// Sent by a leader to replicate entries; with no entries it is a heartbeat.
#[derive(Debug, Clone)]
pub struct AppendEntriesRequest {
    /// The leader's term.
    pub term: u64,
    /// The leader's id.
    pub leader_id: String,
    /// Index of the entry just before the new ones.
    pub prev_log_index: u64,
    /// Term of the entry at `prev_log_index`.
    pub prev_log_term: u64,
    /// The entries to store, in order.
    pub entries: Vec<LogEntry>,
    /// The leader's commit index.
    pub leader_commit: u64,
}

/// Mathematical model of an `AppendEntriesRequest`.
pub struct AppendEntriesRequestView {
    pub term: u64,
    pub leader_id: Seq<char>,
    pub prev_log_index: u64,
    pub prev_log_term: u64,
    pub entries: Seq<EntryView>,
    pub leader_commit: u64,
}

impl View for AppendEntriesRequest {
    type V = AppendEntriesRequestView;

    open spec fn view(&self) -> AppendEntriesRequestView {
        AppendEntriesRequestView {
            term: self.term,
            leader_id: self.leader_id@,
            prev_log_index: self.prev_log_index,
            prev_log_term: self.prev_log_term,
            entries: self.entries@.map_values(|e: LogEntry| e@),
            leader_commit: self.leader_commit,
        }
    }
}

/// A follower's answer to `AppendEntriesRequest`.
#[derive(Debug, Clone, Copy, PartialEq, Eq, Structural)]
pub struct AppendEntriesResponse {
    /// The follower's current term.
    pub term: u64,
    /// Whether the follower's log matched and took the entries.
    pub success: bool,
}

/// Sent by a candidate to ask for a vote.
#[derive(Debug, Clone)]
pub struct RequestVoteRequest {
    pub term: u64,
    pub candidate_id: String,
    pub last_log_index: u64,
    pub last_log_term: u64,
}

/// Mathematical model of a `RequestVoteRequest`.
pub struct RequestVoteRequestView {
    pub term: u64,
    pub candidate_id: Seq<char>,
    pub last_log_index: u64,
    pub last_log_term: u64,
}

impl View for RequestVoteRequest {
    type V = RequestVoteRequestView;

    open spec fn view(&self) -> RequestVoteRequestView {
        RequestVoteRequestView {
            term: self.term,
            candidate_id: self.candidate_id@,
            last_log_index: self.last_log_index,
            last_log_term: self.last_log_term,
        }
    }
}

/// A peer's answer to `RequestVoteRequest`.
#[derive(Debug, Clone, Copy, PartialEq, Eq, Structural)]
pub struct RequestVoteResponse {
    pub term: u64,
    pub vote_granted: bool,
}

} // verus!
