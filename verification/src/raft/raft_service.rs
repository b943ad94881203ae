use super::log::LogEntry;
use super::rpc::LogEntry as WireLogEntry;
use vstd::prelude::*;

verus! {

/// The log entry that a received wire entry stands for.
pub fn convert_log_entry(wire_entry: &WireLogEntry) -> (entry: LogEntry)
    ensures
        entry.term == wire_entry.term,
        entry.index == wire_entry.index,
        entry.command == wire_entry.command,
{
    LogEntry {
        term: wire_entry.term,
        index: wire_entry.index,
        command: wire_entry.command.clone(),
    }
}

/// The wire form of a log entry.
pub fn convert_to_proto_log_entry(entry: &LogEntry) -> (wire_entry: WireLogEntry)
    ensures
        wire_entry.term == entry.term,
        wire_entry.index == entry.index,
        wire_entry.command == entry.command,
{
    WireLogEntry { term: entry.term, index: entry.index, command: entry.command.clone() }
}

} // verus!
