use vstd::prelude::*;

verus! {

/// The role a Raft server currently plays.
#[derive(Debug, PartialEq, Eq, Structural, Clone, Copy)]
pub enum State {
    Follower,
    Candidate,
    Leader,
}

} // verus!
