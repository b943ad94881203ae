use vstd::prelude::*;

verus! {

/// One entry of a node's replicated log.
#[derive(Clone, Debug)]
pub struct LogEntry {
    pub term: u64,
    pub index: u64,
    pub command: String,
}

impl LogEntry {
    /// An entry written in `term` at position `index`, holding `command`.
    pub fn new(term: u64, index: u64, command: String) -> (entry: Self)
        ensures
            entry.term == term,
            entry.index == index,
            entry.command == command,
    {
        LogEntry { term, index, command }
    }

    /// A copy of this entry.
    pub fn duplicate(&self) -> (entry: Self)
        ensures
            entry == *self,
    {
        LogEntry { term: self.term, index: self.index, command: self.command.clone() }
    }
}

} // verus!
