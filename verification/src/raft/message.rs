use super::log::LogEntry;
use vstd::prelude::*;

verus! {

/// A leader's request to append entries to a follower's log.
pub struct AppendEntriesRequest {
    pub term: u64,
    pub leader_id: u64,
    pub prev_log_index: u64,
    pub prev_log_term: u64,
    pub entries: Vec<LogEntry>,
    pub leader_commit: u64,
}

/// The answer to an [`AppendEntriesRequest`].
pub struct AppendEntriesResponse {
    pub term: u64,
    pub success: bool,
}

/// A candidate's request for a vote.
pub struct RequestVoteRequest {
    pub term: u64,
    pub candidate_id: u64,
    pub last_log_index: u64,
    pub last_log_term: u64,
}

/// The answer to a [`RequestVoteRequest`].
pub struct RequestVoteResponse {
    pub term: u64,
    pub vote_granted: bool,
}

} // verus!
