use super::clock;
use super::log::LogEntry;
use super::raft_service::{convert_log_entry, convert_to_proto_log_entry};
use super::rpc::{
    AppendEntriesRequest, AppendEntriesResponse, LogEntry as WireLogEntry, RequestVoteRequest,
    RequestVoteResponse,
};
use super::apply::{apply_entries, apply_entry_command};
use crate::kv::{keys_distinct, lemma_pairs_round_trip, pairs_map, KvStore};
use std::collections::HashMap;
use crate::text::{decimal, u64_to_decimal};
use std::path::PathBuf;
use std::time::SystemTime;
use vstd::pervasive::unreached;
use vstd::prelude::*;
use vstd::std_specs::hash::spec_keys_iter;
use vstd::std_specs::iter::IteratorSpec;

verus! {

broadcast use vstd::std_specs::hash::group_hash_axioms;

/// The role a node plays in its cluster.
#[derive(Debug, Clone, Copy, PartialEq, Eq, Structural)]
pub enum NodeState {
    Follower,
    Candidate,
    Leader,
}

/// Why a node refused a request.
#[derive(Debug, Clone, Copy, PartialEq, Eq, Structural)]
pub enum NodeError {
    /// A write reached a node that is not the leader.
    InvalidState,
    /// A delete reached a node that is not the leader.
    NotLeader,
    /// The log entry of a write did not reach a majority.
    ReplicationFailed,
    /// A read asked for a key that is not stored.
    KeyNotFound,
    /// A configuration change reached a node that is not the leader.
    ConfigChangeNotLeader,
}

/// The text that describes a node error.
pub open spec fn node_error_text(e: NodeError) -> Seq<char> {
    match e {
        NodeError::InvalidState => "Invalid state"@,
        NodeError::NotLeader => "Not a leader"@,
        NodeError::ReplicationFailed => "Failed to replicate log"@,
        NodeError::KeyNotFound => "Key not found"@,
        NodeError::ConfigChangeNotLeader => "Only leader can change configuration"@,
    }
}

impl NodeError {
    /// The text that describes this error.
    pub fn message(&self) -> (text: String)
        ensures
            text@ == node_error_text(*self),
    {
        match self {
            NodeError::InvalidState => "Invalid state".to_string(),
            NodeError::NotLeader => "Not a leader".to_string(),
            NodeError::ReplicationFailed => "Failed to replicate log".to_string(),
            NodeError::KeyNotFound => "Key not found".to_string(),
            NodeError::ConfigChangeNotLeader => "Only leader can change configuration".to_string(),
        }
    }
}

/// A member of the cluster: its id and the address of its Raft service.
#[derive(Debug, Clone)]
pub struct RemoteNode {
    pub node_uid: u64,
    pub addr: String,
}

/// A set of members, each with its address.
#[derive(Debug, Clone)]
pub struct Configuration {
    pub members: HashMap<u64, String>,
}

/// The configuration a node runs under: one, or the old and the new one together
/// while a change is under way.
#[derive(Debug, Clone)]
pub enum ConfigurationState {
    Stable(Configuration),
    Joint(Configuration, Configuration),
}

/// What a node keeps on disk.
pub struct PersistentState {
    pub current_term: u64,
    pub voted_for: Option<u64>,
    pub log: Vec<LogEntry>,
}

/// A compacted prefix of the log together with the encoded state machine.
pub struct Snapshot {
    pub last_included_index: u64,
    pub last_included_term: u64,
    pub data: Vec<u8>,
}

/// The configuration state, as members maps.
pub enum ConfigView {
    Stable(Map<u64, String>),
    Joint(Map<u64, String>, Map<u64, String>),
}

/// A node seen as a value: everything but the time of the last heartbeat.
pub struct NodeView {
    pub uid: u64,
    pub state: NodeState,
    pub term: u64,
    pub voted_for: Option<u64>,
    pub log: Seq<LogEntry>,
    pub commit_index: u64,
    pub last_applied: u64,
    pub next_index: Map<u64, u64>,
    pub match_index: Map<u64, u64>,
    pub members: Map<u64, String>,
    pub election_timeout: u64,
    pub heartbeat_interval: u64,
    pub kv: Map<Seq<char>, Seq<char>>,
    pub config: Option<ConfigView>,
}

/// A Raft node: its persistent and volatile state, its view of the cluster and
/// its key-value state machine.
pub struct LocalNode {
    pub node_uid: u64,
    pub state: NodeState,
    pub current_term: u64,
    pub voted_for: Option<u64>,
    pub log: Vec<LogEntry>,
    pub commit_index: u64,
    pub last_applied: u64,
    pub next_index: HashMap<u64, u64>,
    pub match_index: HashMap<u64, u64>,
    pub client_to_cluster: HashMap<u64, String>,
    pub last_heartbeat: SystemTime,
    pub election_timeout: u64,
    pub heartbeat_interval: u64,
    pub kv_store: KvStore,
    pub configuration_state: Option<ConfigurationState>,
}

pub open spec fn config_view(c: ConfigurationState) -> ConfigView {
    match c {
        ConfigurationState::Stable(a) => ConfigView::Stable(a.members@),
        ConfigurationState::Joint(a, b) => ConfigView::Joint(a.members@, b.members@),
    }
}

impl View for LocalNode {
    type V = NodeView;

    open spec fn view(&self) -> NodeView {
        NodeView {
            uid: self.node_uid,
            state: self.state,
            term: self.current_term,
            voted_for: self.voted_for,
            log: self.log@,
            commit_index: self.commit_index,
            last_applied: self.last_applied,
            next_index: self.next_index@,
            match_index: self.match_index@,
            members: self.client_to_cluster@,
            election_timeout: self.election_timeout,
            heartbeat_interval: self.heartbeat_interval,
            kv: self.kv_store@,
            config: match self.configuration_state {
                Some(c) => Some(config_view(c)),
                None => None,
            },
        }
    }
}

// ---------------------------------------------------------------------------
// The transitions of a node, as functions on values.
// ---------------------------------------------------------------------------
/// The state of a fresh node.
pub open spec fn initial_view(uid: u64, election_timeout: u64) -> NodeView {
    NodeView {
        uid,
        state: NodeState::Follower,
        term: 0,
        voted_for: None,
        log: Seq::empty(),
        commit_index: 0,
        last_applied: 0,
        next_index: Map::empty(),
        match_index: Map::empty(),
        members: Map::empty(),
        election_timeout,
        heartbeat_interval: 50,
        kv: Map::empty(),
        config: None,
    }
}

/// Number of members that make a majority of `n`.
pub open spec fn majority(n: nat) -> nat {
    n / 2 + 1
}

/// Term of the last log entry, 0 for an empty log.
pub open spec fn last_log_term(log: Seq<LogEntry>) -> u64 {
    if log.len() == 0 {
        0
    } else {
        log.last().term
    }
}

/// A node that has seen term `t`: a later term makes it a follower of that term
/// that has voted for nobody.
pub open spec fn observe_term(s: NodeView, t: u64) -> NodeView {
    if t > s.term {
        NodeView { term: t, state: NodeState::Follower, voted_for: None, ..s }
    } else {
        s
    }
}

/// Whether a log ending at `last_index` in `last_term` is at least as up to date
/// as the node's own log.
pub open spec fn log_up_to_date(s: NodeView, last_index: u64, last_term: u64) -> bool {
    let my_term = last_log_term(s.log);
    if last_term != my_term {
        last_term > my_term
    } else {
        last_index >= s.log.len()
    }
}

/// Whether the node may still give its vote of the current term to `candidate`.
pub open spec fn can_vote_for(s: NodeView, candidate: u64) -> bool {
    s.voted_for is None || s.voted_for == Some(candidate)
}

/// A node answering a vote request.
pub open spec fn vote_step(s: NodeView, req: RequestVoteRequest) -> (NodeView, RequestVoteResponse) {
    if req.term < s.term {
        (s, RequestVoteResponse { term: s.term, vote_granted: false })
    } else {
        let s1 = observe_term(s, req.term);
        if can_vote_for(s1, req.candidate_id) && log_up_to_date(
            s1,
            req.last_log_index,
            req.last_log_term,
        ) {
            (
                (NodeView { voted_for: Some(req.candidate_id), ..s1 }),
                RequestVoteResponse { term: s1.term, vote_granted: true },
            )
        } else {
            (s1, RequestVoteResponse { term: s1.term, vote_granted: false })
        }
    }
}

/// Whether the log holds the entry a request says comes just before the ones
/// it carries: position `prev_index` (counted from 1; 0 for none) holds an
/// entry of term `prev_term`.
pub open spec fn prev_matches(s: NodeView, prev_index: u64, prev_term: u64) -> bool {
    prev_index == 0 || (prev_index <= s.log.len() && s.log[prev_index - 1].term == prev_term)
}

/// The log entries that wire entries stand for.
pub open spec fn entries_of(wire: Seq<WireLogEntry>) -> Seq<LogEntry> {
    Seq::new(
        wire.len(),
        |i: int| LogEntry { term: wire[i].term, index: wire[i].index, command: wire[i].command },
    )
}

/// The node after it applies the log entries from position `last_applied` up to
/// (not including) position `upto` to its store; nothing changes where that
/// range is empty or runs past the log.
pub open spec fn apply_to(s: NodeView, upto: int) -> NodeView {
    if s.last_applied < upto && upto <= s.log.len() {
        NodeView {
            kv: apply_entries(s.kv, s.log.subrange(s.last_applied as int, upto)),
            last_applied: upto as u64,
            ..s
        }
    } else {
        s
    }
}

/// The first carried entry, counted from `i`, that the log does not already
/// hold: the log has no entry at its position, or one of another term there.
/// The carried entries start just after position `prev` (counted from 0).
pub open spec fn first_new_entry(log: Seq<LogEntry>, prev: int, entries: Seq<LogEntry>, i: int) -> int
    decreases entries.len() - i,
{
    if i < 0 || i >= entries.len() {
        entries.len() as int
    } else if prev + i < log.len() && log[prev + i].term == entries[i].term {
        first_new_entry(log, prev, entries, i + 1)
    } else {
        i
    }
}

/// The log after the carried `entries`, which follow position `prev`, are
/// taken in: entries it already holds (same position, same term) are kept; from
/// the first one it does not hold, its entries are dropped and the rest of the
/// carried ones appended. A log that holds them all is kept whole.
pub open spec fn merge_entries(log: Seq<LogEntry>, prev: int, entries: Seq<LogEntry>) -> Seq<LogEntry> {
    let k = first_new_entry(log, prev, entries, 0);
    if k >= entries.len() {
        log
    } else {
        log.subrange(0, prev + k) + entries.subrange(k, entries.len() as int)
    }
}

/// A node answering an append request. A request of an earlier term is refused.
/// Otherwise the node takes the request's term; where its log lacks the entry
/// the request says comes before the carried ones, it refuses; else it takes in
/// the carried entries (`merge_entries`), raises its commit index to the
/// leader's (at most to the end of its log), and applies the newly committed
/// entries to its store.
pub open spec fn append_step(s: NodeView, req: AppendEntriesRequest) -> (
    NodeView,
    AppendEntriesResponse,
) {
    if req.term < s.term {
        (s, AppendEntriesResponse { term: s.term, success: false })
    } else {
        let s1 = observe_term(s, req.term);
        if !prev_matches(s1, req.prev_log_index, req.prev_log_term) {
            (s1, AppendEntriesResponse { term: s1.term, success: false })
        } else {
            let s2 = NodeView {
                log: merge_entries(s1.log, req.prev_log_index as int, entries_of(req.entries@)),
                ..s1
            };
            let s3 = if req.leader_commit > s2.commit_index {
                NodeView {
                    commit_index: if req.leader_commit <= s2.log.len() {
                        req.leader_commit
                    } else {
                        s2.log.len() as u64
                    },
                    ..s2
                }
            } else {
                s2
            };
            let s4 = apply_to(s3, s3.commit_index as int);
            (s4, AppendEntriesResponse { term: s4.term, success: true })
        }
    }
}

/// A node that starts an election: a candidate of the next term that votes for itself.
pub open spec fn candidate_step(s: NodeView) -> NodeView {
    NodeView {
        state: NodeState::Candidate,
        term: (s.term + 1) as u64,
        voted_for: Some(s.uid),
        ..s
    }
}

/// `m` with every member of `members` but `uid` mapped to `v`.
pub open spec fn set_for_peers(m: Map<u64, u64>, members: Map<u64, String>, uid: u64, v: u64) -> Map<
    u64,
    u64,
> {
    Map::new(
        |k: u64| m.contains_key(k) || (members.contains_key(k) && k != uid),
        |k: u64|
            if members.contains_key(k) && k != uid {
                v
            } else {
                m[k]
            },
    )
}

/// A candidate that counted `votes` votes: a leader with fresh replication
/// indexes if they are a majority of the members, else a follower.
pub open spec fn election_result(s: NodeView, votes: nat) -> NodeView {
    if votes >= majority(s.members.len()) {
        NodeView {
            state: NodeState::Leader,
            next_index: set_for_peers(s.next_index, s.members, s.uid, (s.log.len() + 1) as u64),
            match_index: set_for_peers(s.match_index, s.members, s.uid, 0),
            ..s
        }
    } else {
        NodeView { state: NodeState::Follower, ..s }
    }
}

/// Whether the node is the only member of its cluster.
pub open spec fn sole_member(s: NodeView) -> bool {
    s.members.dom() == set![s.uid]
}

/// What a node must do when its heartbeat timer fires.
#[derive(Debug, Clone, Copy, PartialEq, Eq, Structural)]
pub enum TimeoutAction {
    /// The node leads: it sends heartbeats to its peers.
    SendHeartbeats,
    /// The node is alone in its cluster and has made itself leader.
    BecameLeader,
    /// The election timeout has passed: the node starts an election.
    StartElection,
    /// Nothing to do yet.
    Wait,
}

/// A node whose heartbeat timer fires; `timed_out` says whether its election
/// timeout has passed.
pub open spec fn timeout_step(s: NodeView, timed_out: bool) -> (NodeView, TimeoutAction) {
    if s.state == NodeState::Leader {
        (s, TimeoutAction::SendHeartbeats)
    } else if sole_member(s) {
        (
            (NodeView {
                state: NodeState::Leader,
                term: (s.term + 1) as u64,
                voted_for: Some(s.uid),
                ..s
            }),
            TimeoutAction::BecameLeader,
        )
    } else if timed_out {
        (s, TimeoutAction::StartElection)
    } else {
        (s, TimeoutAction::Wait)
    }
}

/// Whether `wire` carries the same entries as `entries`.
pub open spec fn wire_matches(wire: Seq<WireLogEntry>, entries: Seq<LogEntry>) -> bool {
    &&& wire.len() == entries.len()
    &&& forall|i: int|
        0 <= i < wire.len() ==> (#[trigger] wire[i]).term == entries[i].term && wire[i].index
            == entries[i].index && wire[i].command == entries[i].command
}

/// Whether the node has a replication index of 0 for `peer`.
pub open spec fn zero_next_index(s: NodeView, peer: u64) -> bool {
    s.next_index.contains_key(peer) && s.next_index[peer] == 0
}

/// The index a leader next sends to `peer`: its recorded one, or 1.
pub open spec fn next_index_of(s: NodeView, peer: u64) -> u64 {
    if s.next_index.contains_key(peer) {
        s.next_index[peer]
    } else {
        1
    }
}

/// Term of the entry at 1-based position `i`, 0 for position 0.
pub open spec fn term_at(log: Seq<LogEntry>, i: u64) -> u64 {
    if i == 0 {
        0
    } else {
        log[i - 1].term
    }
}

/// The heartbeat a leader sends to `peer`: previous index and term and the
/// entries, or `None` where its index for the peer is beyond its log.
pub open spec fn heartbeat_plan(s: NodeView, peer: u64) -> Option<(u64, u64, Seq<LogEntry>)> {
    let prev = if next_index_of(s, peer) == 0 {
        0
    } else {
        (next_index_of(s, peer) - 1) as u64
    };
    if prev > s.log.len() {
        None
    } else {
        let entries = if s.next_index.contains_key(peer) && s.next_index[peer] <= s.log.len() {
            s.log.subrange(s.next_index[peer] - 1, s.log.len() as int)
        } else {
            Seq::empty()
        };
        Some((prev, term_at(s.log, prev), entries))
    }
}

/// Whether `req` is the append request of node `s` with the given previous
/// index and term and entries.
pub open spec fn request_of(
    s: NodeView,
    req: AppendEntriesRequest,
    prev_index: u64,
    prev_term: u64,
    entries: Seq<LogEntry>,
) -> bool {
    &&& req.term == s.term
    &&& req.leader_id == s.uid
    &&& req.prev_log_index == prev_index
    &&& req.prev_log_term == prev_term
    &&& req.leader_commit == s.commit_index
    &&& wire_matches(req.entries@, entries)
}


/// `m` with every listed id other than `skip` mapped to `v`.
pub open spec fn set_listed(m: Map<u64, u64>, ids: Seq<u64>, skip: Option<u64>, v: u64) -> Map<
    u64,
    u64,
> {
    Map::new(
        |k: u64| m.contains_key(k) || (ids.contains(k) && skip != Some(k)),
        |k: u64|
            if ids.contains(k) && skip != Some(k) {
                v
            } else {
                m[k]
            },
    )
}

/// Every member mapped to `v`.
pub open spec fn all_members_to(members: Map<u64, String>, v: u64) -> Map<u64, u64> {
    Map::new(|k: u64| members.contains_key(k), |k: u64| v)
}

/// What a leader sends to `peer` to replicate its log: the next index, previous
/// index and term, and the entries; `None` where the peer is up to date.
pub open spec fn replication_plan(s: NodeView, peer: u64) -> Option<(u64, u64, u64, Seq<LogEntry>)> {
    let n = next_index_of(s, peer);
    if n <= s.log.len() {
        Some((n, (n - 1) as u64, term_at(s.log, (n - 1) as u64), s.log.subrange(n - 1, s.log.len() as int)))
    } else {
        None
    }
}

/// A leader that sent `entries_len` entries from index `next` to `peer`, and
/// heard back `outcome` (`None`: no answer).
pub open spec fn replication_result(
    s: NodeView,
    peer: u64,
    next: u64,
    entries_len: u64,
    outcome: Option<bool>,
) -> NodeView {
    match outcome {
        Some(true) => NodeView {
            next_index: s.next_index.insert(peer, (next + entries_len) as u64),
            match_index: s.match_index.insert(peer, (next + entries_len - 1) as u64),
            ..s
        },
        Some(false) => NodeView {
            next_index: s.next_index.insert(peer, if next == 0 { 0 } else { (next - 1) as u64 }),
            ..s
        },
        None => s,
    }
}

/// A leader whose newest entry has reached a majority: its whole log is
/// committed; the entries before the newest that it had not applied yet are
/// applied to its store, and `change` is made to the store for the newest one.
pub open spec fn commit_all(
    s: NodeView,
    change: spec_fn(Map<Seq<char>, Seq<char>>) -> Map<Seq<char>, Seq<char>>,
) -> NodeView {
    let n = s.log.len();
    let s1 = if n >= 1 {
        apply_to(s, n - 1)
    } else {
        s
    };
    NodeView {
        kv: change(s1.kv),
        last_applied: if s1.last_applied < n {
            n as u64
        } else {
            s1.last_applied
        },
        commit_index: if s1.commit_index < n {
            n as u64
        } else {
            s1.commit_index
        },
        ..s1
    }
}

/// The leader after its write of `value` under `key` is replicated.
pub open spec fn write_committed(s: NodeView, key: Seq<char>, value: Seq<char>) -> NodeView {
    commit_all(s, |kv: Map<Seq<char>, Seq<char>>| kv.insert(key, value))
}

/// The leader after its delete of `key` is replicated.
pub open spec fn delete_committed(s: NodeView, key: Seq<char>) -> NodeView {
    commit_all(s, |kv: Map<Seq<char>, Seq<char>>| kv.remove(key))
}

/// What a read of `key` gives back.
pub open spec fn read_result(s: NodeView, key: Seq<char>) -> Result<Seq<char>, NodeError> {
    if s.kv.contains_key(key) {
        Ok(s.kv[key])
    } else {
        Err(NodeError::KeyNotFound)
    }
}

/// The command text of a write of `value` under `key`.
pub open spec fn set_command_text(key: Seq<char>, value: Seq<char>) -> Seq<char> {
    "SET "@ + key + " "@ + value
}

/// The command text of a delete of `key`.
pub open spec fn del_command_text(key: Seq<char>) -> Seq<char> {
    "DEL "@ + key
}

/// Whether `t` is `s` with one entry of `s`'s term, at position `index`, holding
/// `command`, appended to the log.
pub open spec fn appended(s: NodeView, t: NodeView, index: u64, command: Seq<char>) -> bool {
    &&& t.log.len() == s.log.len() + 1
    &&& t.log.drop_last() == s.log
    &&& t.log.last().term == s.term
    &&& t.log.last().index == index
    &&& t.log.last().command@ == command
    &&& t == (NodeView { log: t.log, ..s })
}

/// The members after adding `nodes` one after another (a later address wins).
pub open spec fn with_members(m: Map<u64, String>, nodes: Seq<RemoteNode>) -> Map<u64, String>
    decreases nodes.len(),
{
    if nodes.len() == 0 {
        m
    } else {
        with_members(m, nodes.drop_last()).insert(nodes.last().node_uid, nodes.last().addr)
    }
}

/// The point a snapshot would cover: the commit index and the term of the entry
/// at that position of the log; `None` for an empty log or nothing committed.
pub open spec fn snapshot_point(s: NodeView) -> Option<(u64, u64)> {
    if s.log.len() == 0 || s.commit_index == 0 {
        None
    } else {
        Some((s.commit_index, s.log[s.commit_index as int].term))
    }
}

/// Whether a snapshot point exists that lies beyond the log.
pub open spec fn snapshot_point_out_of_log(s: NodeView) -> bool {
    s.log.len() != 0 && s.commit_index != 0 && s.commit_index >= s.log.len()
}

proof fn lemma_sole_member(members: Map<u64, String>, uid: u64)
    requires
        members.dom().finite(),
    ensures
        (members.dom().len() == 1 && members.contains_key(uid)) <==> members.dom() == set![uid],
{
    if members.dom().len() == 1 && members.contains_key(uid) {
        assert forall|k: u64| members.dom().contains(k) implies k == uid by {
            if k != uid {
                vstd::set_lib::lemma_len_subset(set![uid, k], members.dom());
                assert(set![uid, k].len() == 2) by {
                    assert(set![uid, k] == set![uid].insert(k));
                }
            }
        }
        assert(members.dom() =~= set![uid]);
    }
    if members.dom() == set![uid] {
        assert(members.dom().len() == 1);
        assert(members.dom().contains(uid));
    }
}

/// Counts the members that answered a round in favour; the node counts itself.
pub struct Tally {
    pub successes: usize,
    pub cluster_size: usize,
}

impl Tally {
    /// A round in a cluster of `cluster_size` members, with this node's own success counted.
    pub fn new(cluster_size: usize) -> (t: Self)
        ensures
            t.successes == 1,
            t.cluster_size == cluster_size,
    {
        Tally { successes: 1, cluster_size }
    }

    /// Counts one more answer.
    pub fn record(&mut self, success: bool)
        requires
            old(self).successes < usize::MAX,
        ensures
            final(self).successes == old(self).successes + if success { 1int } else { 0int },
            final(self).cluster_size == old(self).cluster_size,
    {
        if success {
            self.successes = self.successes + 1;
        }
    }

    /// Whether the successes are a majority of the cluster.
    pub fn reached(&self) -> (b: bool)
        ensures
            b == (self.successes >= majority(self.cluster_size as nat)),
    {
        self.successes >= self.cluster_size / 2 + 1
    }
}

/// What a leader does for one peer when it replicates its log.
pub enum ReplicationPlan {
    /// The peer holds the whole log already.
    UpToDate,
    /// Send `request`, which carries `entries_len` entries starting at `next_index`.
    Send { request: AppendEntriesRequest, next_index: u64, entries_len: u64 },
}

impl LocalNode {
    /// A fresh follower with id `node_uid`, an empty log and a random election
    /// timeout between 150 and 299 milliseconds.
    pub fn new(node_uid: u64) -> (node: Self)
        ensures
            node@ == initial_view(node_uid, node.election_timeout),
            150 <= node.election_timeout < 300,
    {
        let election_timeout = election_timeout_from(random_u64());
        let node = LocalNode {
            node_uid,
            state: NodeState::Follower,
            current_term: 0,
            voted_for: None,
            log: Vec::new(),
            commit_index: 0,
            last_applied: 0,
            next_index: HashMap::new(),
            match_index: HashMap::new(),
            client_to_cluster: HashMap::new(),
            last_heartbeat: clock::now(),
            election_timeout,
            heartbeat_interval: 50,
            kv_store: KvStore::new(),
            configuration_state: None,
        };
        assert(node.log@ =~= Seq::<LogEntry>::empty());
        node
    }

    /// Whether the node leads.
    pub fn is_leader(&self) -> (b: bool)
        ensures
            b == (self.state == NodeState::Leader),
    {
        self.state == NodeState::Leader
    }

    /// The count a leader starts a heartbeat or replication round with, its
    /// own success counted; `None` for a node that does not lead, which sends
    /// nothing.
    pub fn round_tally(&self) -> (t: Option<Tally>)
        ensures
            match t {
                None => self@.state != NodeState::Leader,
                Some(t) => self@.state == NodeState::Leader && t.successes == 1 && t.cluster_size
                    == self@.members.len(),
            },
    {
        if self.state != NodeState::Leader {
            return None;
        }
        Some(Tally::new(self.client_to_cluster.len()))
    }

    /// Whether the node is a candidate.
    pub fn is_candidate(&self) -> (b: bool)
        ensures
            b == (self.state == NodeState::Candidate),
    {
        self.state == NodeState::Candidate
    }

    /// The value stored under `key`.
    pub fn get(&self, key: String) -> (r: Result<String, NodeError>)
        ensures
            match r {
                Ok(v) => read_result(self@, key@) == Ok::<Seq<char>, NodeError>(v@),
                Err(e) => read_result(self@, key@) == Err::<Seq<char>, NodeError>(e),
            },
    {
        match self.kv_store.get(&key) {
            Some(value) => Ok(value),
            None => Err(NodeError::KeyNotFound),
        }
    }

    /// Answers a vote request; granting the vote restarts the election timer
    /// at `now`.
    pub fn handle_request_vote(&mut self, req: RequestVoteRequest, now: SystemTime) -> (resp:
        RequestVoteResponse)
        ensures
            (final(self)@, resp) == vote_step(old(self)@, req),
            final(self).last_heartbeat == if resp.vote_granted {
                now
            } else {
                old(self).last_heartbeat
            },
    {
        if req.term < self.current_term {
            return RequestVoteResponse { term: self.current_term, vote_granted: false };
        }
        if req.term > self.current_term {
            self.current_term = req.term;
            self.state = NodeState::Follower;
            self.voted_for = None;
        }
        let can_vote = match self.voted_for {
            None => true,
            Some(c) => c == req.candidate_id,
        };
        let my_last_log_term = self.last_log_term();
        let my_last_log_index = self.log.len() as u64;
        let log_is_current = if req.last_log_term != my_last_log_term {
            req.last_log_term > my_last_log_term
        } else {
            req.last_log_index >= my_last_log_index
        };
        if can_vote && log_is_current {
            self.voted_for = Some(req.candidate_id);
            self.last_heartbeat = now;
            return RequestVoteResponse { term: self.current_term, vote_granted: true };
        }
        RequestVoteResponse { term: self.current_term, vote_granted: false }
    }

    /// Applies the log entries from position `last_applied` up to (not
    /// including) position `upto` to the store.
    pub fn apply_through(&mut self, upto: u64)
        ensures
            final(self)@ == apply_to(old(self)@, upto as int),
            final(self).last_heartbeat == old(self).last_heartbeat,
    {
        if !(self.last_applied < upto && upto <= self.log.len() as u64) {
            return;
        }
        let ghost s0 = self@;
        let start = self.last_applied as usize;
        let end = upto as usize;
        let mut i: usize = start;
        while i < end
            invariant
                start <= i <= end,
                end <= self.log@.len(),
                start == s0.last_applied,
                self@ == (NodeView {
                    kv: apply_entries(s0.kv, s0.log.subrange(start as int, i as int)),
                    ..s0
                }),
                self.last_heartbeat == old(self).last_heartbeat,
            decreases end - i,
        {
            apply_entry_command(&mut self.kv_store, &self.log[i].command);
            proof {
                let r = s0.log.subrange(start as int, i + 1);
                assert(r.drop_last() =~= s0.log.subrange(start as int, i as int));
                assert(r.last() == s0.log[i as int]);
            }
            i = i + 1;
        }
        self.last_applied = upto;
    }

    /// Answers an append request: refuses one of an earlier term or one whose
    /// previous entry the log lacks; otherwise keeps the carried entries it
    /// already holds, drops its entries from the first carried one it does not
    /// hold and stores the rest, takes up the leader's commit index and applies
    /// what is newly committed. The election timer restarts at `now` either way.
    pub fn handle_append_entries(&mut self, req: AppendEntriesRequest, now: SystemTime) -> (resp:
        AppendEntriesResponse)
        ensures
            (final(self)@, resp) == append_step(old(self)@, req),
            final(self).last_heartbeat == now,
    {
        self.last_heartbeat = now;
        if req.term < self.current_term {
            return AppendEntriesResponse { term: self.current_term, success: false };
        }
        if req.term > self.current_term {
            self.current_term = req.term;
            self.state = NodeState::Follower;
            self.voted_for = None;
        }
        let len = self.log.len() as u64;
        let prev = req.prev_log_index;
        if prev > 0 {
            if prev > len {
                return AppendEntriesResponse { term: self.current_term, success: false };
            }
            if self.log[(prev - 1) as usize].term != req.prev_log_term {
                return AppendEntriesResponse { term: self.current_term, success: false };
            }
        }
        let ghost s0 = self@;
        let ghost carried = entries_of(req.entries@);
        let p = prev as usize;
        let n = req.entries.len();
        let mut k: usize = 0;
        while k < n && k < self.log.len() - p && self.log[p + k].term == req.entries[k].term
            invariant
                k <= n,
                n == req.entries@.len(),
                p <= self.log@.len(),
                k <= self.log@.len() - p,
                p == req.prev_log_index,
                self@ == s0,
                self.last_heartbeat == now,
                carried == entries_of(req.entries@),
                first_new_entry(s0.log, p as int, carried, 0) == first_new_entry(
                    s0.log,
                    p as int,
                    carried,
                    k as int,
                ),
            decreases n - k,
        {
            k = k + 1;
        }
        if k < n {
            self.log.truncate(p + k);
            let ghost s1 = self@;
            let mut i: usize = k;
            while i < n
                invariant
                    k <= i <= n,
                    n == req.entries@.len(),
                    carried == entries_of(req.entries@),
                    s1 == (NodeView { log: s0.log.subrange(0, p + k), ..s0 }),
                    self@ == (NodeView { log: s1.log + carried.subrange(k as int, i as int), ..s1 }),
                    self.last_heartbeat == now,
                decreases n - i,
            {
                let e = convert_log_entry(&req.entries[i]);
                self.log.push(e);
                proof {
                    assert(s1.log + carried.subrange(k as int, i + 1) =~= (s1.log + carried.subrange(
                        k as int,
                        i as int,
                    )).push(carried[i as int]));
                }
                i = i + 1;
            }
        } else {
            assert(first_new_entry(s0.log, p as int, carried, k as int) == carried.len());
        }
        if req.leader_commit > self.commit_index {
            let new_len = self.log.len() as u64;
            self.commit_index = if req.leader_commit <= new_len {
                req.leader_commit
            } else {
                new_len
            };
        }
        let upto = self.commit_index;
        self.apply_through(upto);
        AppendEntriesResponse { term: self.current_term, success: true }
    }

    /// Takes in the answer to an append request this node sent: a later term
    /// makes it a follower and the answer a failure.
    pub fn on_append_entries_response(&mut self, resp: AppendEntriesResponse) -> (success: bool)
        ensures
            final(self)@ == observe_term(old(self)@, resp.term),
            success == (resp.term <= old(self)@.term && resp.success),
            final(self).last_heartbeat == old(self).last_heartbeat,
    {
        if resp.term > self.current_term {
            self.current_term = resp.term;
            self.state = NodeState::Follower;
            self.voted_for = None;
            return false;
        }
        resp.success
    }

    /// Takes in the answer to a vote request this node sent: a later term
    /// makes it a follower and the answer a refusal.
    pub fn on_request_vote_response(&mut self, resp: RequestVoteResponse) -> (granted: bool)
        ensures
            final(self)@ == observe_term(old(self)@, resp.term),
            granted == (resp.term <= old(self)@.term && resp.vote_granted),
            final(self).last_heartbeat == old(self).last_heartbeat,
    {
        if resp.term > self.current_term {
            self.current_term = resp.term;
            self.state = NodeState::Follower;
            self.voted_for = None;
            return false;
        }
        resp.vote_granted
    }

    /// Term of the last log entry, 0 for an empty log.
    pub fn last_log_term(&self) -> (t: u64)
        ensures
            t == last_log_term(self@.log),
    {
        if self.log.len() == 0 {
            0
        } else {
            self.log[self.log.len() - 1].term
        }
    }

    /// The vote request this node sends in its current term.
    pub fn request_vote_request(&self) -> (req: RequestVoteRequest)
        ensures
            req.term == self@.term,
            req.candidate_id == self@.uid,
            req.last_log_index == self@.log.len(),
            req.last_log_term == last_log_term(self@.log),
    {
        RequestVoteRequest {
            term: self.current_term,
            candidate_id: self.node_uid,
            last_log_index: self.log.len() as u64,
            last_log_term: self.last_log_term(),
        }
    }

    /// Starts an election at `now`: the node becomes a candidate of the next
    /// term, votes for itself and restarts its election timer.
    pub fn begin_election(&mut self, now: SystemTime)
        requires
            old(self)@.term < u64::MAX,
        ensures
            final(self)@ == candidate_step(old(self)@),
            final(self).last_heartbeat == now,
    {
        self.state = NodeState::Candidate;
        self.current_term = self.current_term + 1;
        self.voted_for = Some(self.node_uid);
        self.last_heartbeat = now;
    }

    /// The ids of the members of the cluster, each once.
    pub fn member_ids(&self) -> (ids: Vec<u64>)
        ensures
            ids@.to_set() == self@.members.dom(),
            ids@.no_duplicates(),
    {
        let mut ids: Vec<u64> = Vec::new();
        for k in it: self.client_to_cluster.keys()
            invariant
                ids@.len() == it.index(),
                ids@ == spec_keys_iter(&self.client_to_cluster).remaining().unref().take(
                    it.index(),
                ),
        {
            ids.push(*k);
            proof {
                assert(ids@ =~= spec_keys_iter(&self.client_to_cluster).remaining().unref().take(
                    it.index() + 1,
                ));
            }
        }
        proof {
            let r = spec_keys_iter(&self.client_to_cluster).remaining();
            assert(ids@ =~= r.unref());
            assert(r.unref().to_set() == self@.members.dom());
            assert(r.no_duplicates());
            assert forall|i: int, j: int|
                0 <= i < ids@.len() && 0 <= j < ids@.len() && i != j implies ids@[i]
                != ids@[j] by {
                assert(r[i] != r[j]);
            }
        }
        ids
    }

    /// The wire form of the log entries from position `start` (0-based) on.
    fn wire_entries_from(&self, start: usize) -> (entries: Vec<WireLogEntry>)
        requires
            start <= self@.log.len(),
        ensures
            wire_matches(entries@, self@.log.subrange(start as int, self@.log.len() as int)),
    {
        let mut entries: Vec<WireLogEntry> = Vec::new();
        let mut i: usize = start;
        while i < self.log.len()
            invariant
                start <= i <= self@.log.len(),
                wire_matches(entries@, self@.log.subrange(start as int, i as int)),
            decreases self@.log.len() - i,
        {
            let e = convert_to_proto_log_entry(&self.log[i]);
            entries.push(e);
            i = i + 1;
            proof {
                let sub = self@.log.subrange(start as int, i as int);
                assert forall|j: int| 0 <= j < entries@.len() implies (#[trigger] entries@[j]).term
                    == sub[j].term && entries@[j].index == sub[j].index && entries@[j].command
                    == sub[j].command by {
                    if j < entries@.len() - 1 {
                        assert(self@.log.subrange(start as int, i - 1)[j] == sub[j]);
                    }
                }
            }
        }
        entries
    }

    /// Counts a finished election in which `votes` members (this node included)
    /// voted for it: with a majority it leads, with fresh replication indexes
    /// for its peers; otherwise it turns follower.
    pub fn conclude_election(&mut self, votes: usize) -> (won: bool)
        requires
            old(self)@.log.len() < u64::MAX,
        ensures
            won == (votes >= majority(old(self)@.members.len())),
            final(self)@ == election_result(old(self)@, votes as nat),
            final(self).last_heartbeat == old(self).last_heartbeat,
    {
        let majority = self.client_to_cluster.len() / 2 + 1;
        let won = votes >= majority;
        if won {
            self.state = NodeState::Leader;
            let ids = self.member_ids();
            let next = self.log.len() as u64 + 1;
            let ghost old_next = self.next_index@;
            let ghost old_match = self.match_index@;
            assign_listed(&mut self.next_index, &ids, Some(self.node_uid), next);
            assign_listed(&mut self.match_index, &ids, Some(self.node_uid), 0);
            proof {
                assert(self.next_index@ =~= set_for_peers(old_next, self@.members, self@.uid, next));
                assert(self.match_index@ =~= set_for_peers(old_match, self@.members, self@.uid, 0));
            }
        } else {
            self.state = NodeState::Follower;
        }
        won
    }

    /// The heartbeat this leader sends to `peer`; `None` where its index for
    /// the peer lies beyond its log.
    pub fn heartbeat_request(&self, peer: u64) -> (req: Option<AppendEntriesRequest>)
        requires
            !zero_next_index(self@, peer),
        ensures
            match heartbeat_plan(self@, peer) {
                None => req is None,
                Some(p) => req matches Some(r) && request_of(self@, r, p.0, p.1, p.2),
            },
    {
        let next = match self.next_index.get(&peer) {
            Some(n) => *n,
            None => 1,
        };
        let prev = next.saturating_sub(1);
        let len = self.log.len() as u64;
        let prev_term = if prev == 0 {
            0
        } else if prev <= len {
            self.log[(prev - 1) as usize].term
        } else {
            return None;
        };
        let entries = match self.next_index.get(&peer) {
            Some(n) => {
                if *n <= len {
                    self.wire_entries_from((*n - 1) as usize)
                } else {
                    Vec::new()
                }
            },
            None => Vec::new(),
        };
        Some(
            AppendEntriesRequest {
                term: self.current_term,
                leader_id: self.node_uid,
                prev_log_index: prev,
                prev_log_term: prev_term,
                entries,
                leader_commit: self.commit_index,
            },
        )
    }

    /// What this leader sends to `peer` to bring its log up to date.
    pub fn replication_plan(&self, peer: u64) -> (plan: ReplicationPlan)
        requires
            !zero_next_index(self@, peer),
        ensures
            match replication_plan(self@, peer) {
                None => plan is UpToDate,
                Some(p) => plan matches ReplicationPlan::Send { request, next_index, entries_len }
                    && next_index == p.0 && entries_len == p.3.len() && request_of(
                    self@,
                    request,
                    p.1,
                    p.2,
                    p.3,
                ),
            },
    {
        let next = match self.next_index.get(&peer) {
            Some(n) => *n,
            None => 1,
        };
        let len = self.log.len() as u64;
        if next <= len {
            let entries = self.wire_entries_from((next - 1) as usize);
            let entries_len = entries.len() as u64;
            let prev = next - 1;
            let prev_term = if prev == 0 {
                0
            } else {
                self.log[(prev - 1) as usize].term
            };
            ReplicationPlan::Send {
                request: AppendEntriesRequest {
                    term: self.current_term,
                    leader_id: self.node_uid,
                    prev_log_index: prev,
                    prev_log_term: prev_term,
                    entries,
                    leader_commit: self.commit_index,
                },
                next_index: next,
                entries_len,
            }
        } else {
            ReplicationPlan::UpToDate
        }
    }

    /// Records how `peer` answered entries sent from index `next`; gives back
    /// whether the answer counts as a success.
    pub fn record_replication(
        &mut self,
        peer: u64,
        next: u64,
        entries_len: u64,
        outcome: Option<bool>,
    ) -> (success: bool)
        requires
            1 <= next,
            next + entries_len <= u64::MAX,
        ensures
            final(self)@ == replication_result(old(self)@, peer, next, entries_len, outcome),
            success == (outcome == Some(true)),
            final(self).last_heartbeat == old(self).last_heartbeat,
    {
        match outcome {
            Some(true) => {
                let new_next = next + entries_len;
                self.next_index.insert(peer, new_next);
                self.match_index.insert(peer, new_next - 1);
                true
            },
            Some(false) => {
                self.next_index.insert(peer, next.saturating_sub(1));
                false
            },
            None => false,
        }
    }

    /// Records one peer's part of a replication round planned as `plan`, and
    /// gives back whether it counts toward the majority: a peer whose log is
    /// up to date counts, nothing having been sent; for a request that was
    /// sent, `outcome` is recorded as `record_replication` does.
    pub fn record_round(&mut self, peer: u64, plan: &ReplicationPlan, outcome: Option<bool>) -> (success:
        bool)
        requires
            *plan matches ReplicationPlan::Send { next_index, entries_len, .. } ==> 1 <= next_index
                && next_index + entries_len <= u64::MAX,
        ensures
            *plan is UpToDate ==> success && final(self)@ == old(self)@,
            *plan matches ReplicationPlan::Send { next_index, entries_len, .. } ==> final(self)@
                == replication_result(old(self)@, peer, next_index, entries_len, outcome) && success
                == (outcome == Some(true)),
            final(self).last_heartbeat == old(self).last_heartbeat,
    {
        match plan {
            ReplicationPlan::UpToDate => true,
            ReplicationPlan::Send { next_index, entries_len, .. } => {
                self.record_replication(peer, *next_index, *entries_len, outcome)
            },
        }
    }

    /// Whether the election timeout has passed since the last heartbeat; never
    /// for a leader.
    pub fn is_election_timeout(&self) -> (b: bool)
        ensures
            self@.state == NodeState::Leader ==> !b,
    {
        if self.state == NodeState::Leader {
            return false;
        }
        let elapsed_millis = match clock::elapsed(&self.last_heartbeat) {
            Some(d) => Some(clock::as_millis(&d)),
            None => None,
        };
        election_timed_out(elapsed_millis, self.election_timeout)
    }

    /// Whether the node is the only member of its cluster.
    pub fn is_sole_member(&self) -> (b: bool)
        ensures
            b == sole_member(self@),
    {
        proof {
            lemma_sole_member(self@.members, self@.uid);
        }
        self.client_to_cluster.len() == 1 && self.client_to_cluster.contains_key(&self.node_uid)
    }

    /// What the node does when its heartbeat timer fires at `now`, given
    /// whether its election timeout has passed; a node that makes itself leader
    /// restarts its election timer.
    pub fn heartbeat_timeout_step(&mut self, election_timed_out: bool, now: SystemTime) -> (action:
        TimeoutAction)
        requires
            old(self)@.state != NodeState::Leader && sole_member(old(self)@) ==> old(self)@.term
                < u64::MAX,
        ensures
            (final(self)@, action) == timeout_step(old(self)@, election_timed_out),
            final(self).last_heartbeat == if action == TimeoutAction::BecameLeader {
                now
            } else {
                old(self).last_heartbeat
            },
    {
        if self.state == NodeState::Leader {
            TimeoutAction::SendHeartbeats
        } else if self.is_sole_member() {
            self.state = NodeState::Leader;
            self.current_term = self.current_term + 1;
            self.voted_for = Some(self.node_uid);
            self.last_heartbeat = now;
            TimeoutAction::BecameLeader
        } else if election_timed_out {
            TimeoutAction::StartElection
        } else {
            TimeoutAction::Wait
        }
    }

    /// What the node does when its heartbeat timer fires; whether the election
    /// timeout has passed is read from the clock.
    pub fn handle_heartbeat_timeout(&mut self) -> (action: TimeoutAction)
        requires
            old(self)@.state != NodeState::Leader && sole_member(old(self)@) ==> old(self)@.term
                < u64::MAX,
        ensures
            (final(self)@, action) == timeout_step(
                old(self)@,
                action == TimeoutAction::StartElection,
            ),
            action != TimeoutAction::BecameLeader ==> final(self).last_heartbeat == old(
                self,
            ).last_heartbeat,
    {
        let timed_out = self.is_election_timeout();
        self.heartbeat_timeout_step(timed_out, clock::now())
    }

    /// A leader's first step of a write: appends `SET key value` to the log.
    pub fn begin_set(&mut self, key: &String, value: &String) -> (r: Result<(), NodeError>)
        requires
            old(self)@.log.len() < u64::MAX,
        ensures
            old(self)@.state != NodeState::Leader ==> r == Err::<(), NodeError>(
                NodeError::InvalidState,
            ) && final(self)@ == old(self)@,
            old(self)@.state == NodeState::Leader ==> r is Ok && appended(
                old(self)@,
                final(self)@,
                (old(self)@.log.len() + 1) as u64,
                set_command_text(key@, value@),
            ),
            final(self).last_heartbeat == old(self).last_heartbeat,
    {
        if self.state != NodeState::Leader {
            return Err(NodeError::InvalidState);
        }
        let mut command = "SET ".to_string();
        command.append(key.as_str());
        command.append(" ");
        command.append(value.as_str());
        let entry = LogEntry::new(self.current_term, self.log.len() as u64 + 1, command);
        self.log.push(entry);
        proof {
            assert(self@.log.drop_last() =~= old(self)@.log);
        }
        Ok(())
    }

    /// Commits the whole log once its newest entry has reached a majority, and
    /// applies the entries before the newest that were not applied yet.
    fn commit_log(&mut self)
        ensures
            ({
                let n = old(self)@.log.len();
                let s1 = if n >= 1 {
                    apply_to(old(self)@, n - 1)
                } else {
                    old(self)@
                };
                final(self)@ == (NodeView {
                    last_applied: if s1.last_applied < n {
                        n as u64
                    } else {
                        s1.last_applied
                    },
                    commit_index: if s1.commit_index < n {
                        n as u64
                    } else {
                        s1.commit_index
                    },
                    ..s1
                })
            }),
            final(self).last_heartbeat == old(self).last_heartbeat,
    {
        let n = self.log.len() as u64;
        if n >= 1 {
            self.apply_through(n - 1);
        }
        if self.last_applied < n {
            self.last_applied = n;
        }
        if self.commit_index < n {
            self.commit_index = n;
        }
    }

    /// A leader's last step of a write: once the entry has reached a majority,
    /// commits the log, applies what was pending before it and stores the value;
    /// else fails.
    pub fn finish_set(&mut self, key: String, value: String, replicated: bool) -> (r: Result<
        (),
        NodeError,
    >)
        ensures
            replicated ==> r is Ok && final(self)@ == write_committed(old(self)@, key@, value@),
            !replicated ==> r == Err::<(), NodeError>(NodeError::ReplicationFailed) && final(self)@ == old(self)@,
            final(self).last_heartbeat == old(self).last_heartbeat,
    {
        if replicated {
            self.commit_log();
            self.kv_store.insert(key, value);
            Ok(())
        } else {
            Err(NodeError::ReplicationFailed)
        }
    }

    /// A leader's first step of a delete: appends `DEL key` to the log.
    pub fn begin_delete(&mut self, key: &String) -> (r: Result<(), NodeError>)
        requires
            old(self)@.log.len() < u64::MAX,
        ensures
            old(self)@.state != NodeState::Leader ==> r == Err::<(), NodeError>(
                NodeError::NotLeader,
            ) && final(self)@ == old(self)@,
            old(self)@.state == NodeState::Leader ==> r is Ok && appended(
                old(self)@,
                final(self)@,
                (old(self)@.log.len() + 1) as u64,
                del_command_text(key@),
            ),
            final(self).last_heartbeat == old(self).last_heartbeat,
    {
        if self.state != NodeState::Leader {
            return Err(NodeError::NotLeader);
        }
        let mut command = "DEL ".to_string();
        command.append(key.as_str());
        let entry = LogEntry::new(self.current_term, self.log.len() as u64 + 1, command);
        self.log.push(entry);
        proof {
            assert(self@.log.drop_last() =~= old(self)@.log);
        }
        Ok(())
    }

    /// A leader's last step of a delete: once the entry has reached a majority,
    /// commits the log, applies what was pending before it and removes the key;
    /// else fails.
    pub fn finish_delete(&mut self, key: String, replicated: bool) -> (r: Result<(), NodeError>)
        ensures
            replicated ==> r is Ok && final(self)@ == delete_committed(old(self)@, key@),
            !replicated ==> r == Err::<(), NodeError>(NodeError::ReplicationFailed) && final(self)@ == old(self)@,
            final(self).last_heartbeat == old(self).last_heartbeat,
    {
        if replicated {
            self.commit_log();
            self.kv_store.remove(&key);
            Ok(())
        } else {
            Err(NodeError::ReplicationFailed)
        }
    }

    /// Adds `nodes` to the members, one after another.
    pub fn connect_to_cluster(&mut self, nodes: Vec<RemoteNode>)
        ensures
            final(self)@ == (NodeView { members: with_members(old(self)@.members, nodes@), ..old(self)@ }),
            final(self).last_heartbeat == old(self).last_heartbeat,
    {
        let mut i: usize = 0;
        while i < nodes.len()
            invariant
                i <= nodes@.len(),
                self@ == (NodeView {
                    members: with_members(old(self)@.members, nodes@.take(i as int)),
                    ..old(self)@
                }),
                self.last_heartbeat == old(self).last_heartbeat,
            decreases nodes@.len() - i,
        {
            let node = &nodes[i];
            self.client_to_cluster.insert(node.node_uid, node.addr.clone());
            proof {
                assert(nodes@.take(i + 1).drop_last() =~= nodes@.take(i as int));
            }
            i = i + 1;
        }
        proof {
            assert(nodes@.take(nodes@.len() as int) =~= nodes@);
        }
    }

    /// The state this node keeps on disk.
    pub fn persistent_state(&self) -> (st: PersistentState)
        ensures
            st.current_term == self@.term,
            st.voted_for == self@.voted_for,
            st.log@ == self@.log,
    {
        let mut log: Vec<LogEntry> = Vec::new();
        let mut i: usize = 0;
        while i < self.log.len()
            invariant
                i <= self@.log.len(),
                log@ == self@.log.take(i as int),
            decreases self@.log.len() - i,
        {
            log.push(self.log[i].duplicate());
            proof {
                assert(log@ =~= self@.log.take(i + 1));
            }
            i = i + 1;
        }
        proof {
            assert(self@.log.take(self@.log.len() as int) =~= self@.log);
        }
        PersistentState { current_term: self.current_term, voted_for: self.voted_for, log }
    }

    /// Takes back the state kept on disk.
    pub fn restore_state(&mut self, st: PersistentState)
        ensures
            final(self)@ == (NodeView {
                term: st.current_term,
                voted_for: st.voted_for,
                log: st.log@,
                ..old(self)@
            }),
            final(self).last_heartbeat == old(self).last_heartbeat,
    {
        self.current_term = st.current_term;
        self.voted_for = st.voted_for;
        self.log = st.log;
    }

    /// Moves to a later term, as a follower that has voted for nobody; gives
    /// back whether the term changed (and the state must be saved).
    pub fn update_term(&mut self, new_term: u64) -> (changed: bool)
        ensures
            changed == (new_term > old(self)@.term),
            final(self)@ == observe_term(old(self)@, new_term),
            final(self).last_heartbeat == old(self).last_heartbeat,
    {
        if new_term > self.current_term {
            self.current_term = new_term;
            self.voted_for = None;
            self.state = NodeState::Follower;
            true
        } else {
            false
        }
    }

    /// The index and term a snapshot taken now would cover.
    pub fn snapshot_point(&self) -> (point: Option<(u64, u64)>)
        requires
            !snapshot_point_out_of_log(self@),
        ensures
            point == snapshot_point(self@),
    {
        if self.log.len() == 0 || self.commit_index == 0 {
            None
        } else {
            Some((self.commit_index, self.log[self.commit_index as usize].term))
        }
    }

    /// Drops the log entries up to position `last_index` (0-based, included),
    /// which a snapshot now holds.
    pub fn compact_log(&mut self, last_index: u64)
        requires
            last_index < old(self)@.log.len(),
        ensures
            final(self)@ == (NodeView {
                log: old(self)@.log.subrange(last_index + 1, old(self)@.log.len() as int),
                last_applied: last_index,
                commit_index: last_index,
                ..old(self)@
            }),
            final(self).last_heartbeat == old(self).last_heartbeat,
    {
        let mut rest: Vec<LogEntry> = Vec::new();
        let n = self.log.len();
        assert(last_index < n);
        let mut i: usize = last_index as usize;
        i = i + 1;
        while i < self.log.len()
            invariant
                last_index + 1 <= i <= self@.log.len(),
                rest@ == self@.log.subrange(last_index + 1, i as int),
            decreases self@.log.len() - i,
        {
            rest.push(self.log[i].duplicate());
            proof {
                assert(rest@ =~= self@.log.subrange(last_index + 1, i + 1));
            }
            i = i + 1;
        }
        self.log = rest;
        self.last_applied = last_index;
        self.commit_index = last_index;
    }

    /// Whether the log has grown past the point where a snapshot is taken.
    pub fn snapshot_needed(&self) -> (b: bool)
        ensures
            b == (self@.log.len() > 1000),
    {
        self.log.len() > 1000
    }

    /// Whether a snapshot up to `last_included_index` is newer than what is committed.
    pub fn accepts_snapshot(&self, last_included_index: u64) -> (b: bool)
        ensures
            b == (last_included_index > self@.commit_index),
    {
        last_included_index > self.commit_index
    }

    /// Installs a snapshot whose state machine is `store`; a snapshot that is
    /// not newer than the commit index leaves the node as it is.
    pub fn install_snapshot_store(&mut self, snapshot: &Snapshot, store: KvStore) -> (installed:
        bool)
        ensures
            installed == (snapshot.last_included_index > old(self)@.commit_index),
            !installed ==> final(self)@ == old(self)@,
            installed ==> snapshot_installed(old(self)@, final(self)@, snapshot, store@),
            final(self).last_heartbeat == old(self).last_heartbeat,
    {
        if snapshot.last_included_index <= self.commit_index {
            return false;
        }
        self.kv_store = store;
        let mut log: Vec<LogEntry> = Vec::new();
        log.push(
            LogEntry::new(
                snapshot.last_included_term,
                snapshot.last_included_index,
                String::new(),
            ),
        );
        self.log = log;
        self.last_applied = snapshot.last_included_index;
        self.commit_index = snapshot.last_included_index;
        proof {
            assert(self@.log =~= seq![self@.log[0]]);
        }
        true
    }

    /// Installs a snapshot: one not newer than the commit index leaves the
    /// node as it is (`Ok(false)`); one whose data does not decode as a JSON
    /// map of strings is refused and leaves the node as it is; otherwise the
    /// decoded map becomes the store and the log is the snapshot's last entry
    /// alone (`Ok(true)`).
    pub fn install_snapshot(&mut self, snapshot: &Snapshot) -> (r: Result<bool, SnapshotError>)
        ensures
            snapshot.last_included_index <= old(self)@.commit_index ==> r == Ok::<
                bool,
                SnapshotError,
            >(false) && final(self)@ == old(self)@,
            snapshot.last_included_index > old(self)@.commit_index && json_string_map(
                snapshot.data@,
            ) is None ==> r == Err::<bool, SnapshotError>(SnapshotError::InvalidData)
                && final(self)@ == old(self)@,
            snapshot.last_included_index > old(self)@.commit_index && json_string_map(
                snapshot.data@,
            ) is Some ==> r == Ok::<bool, SnapshotError>(true) && snapshot_installed(
                old(self)@,
                final(self)@,
                snapshot,
                json_string_map(snapshot.data@)->0,
            ),
            final(self).last_heartbeat == old(self).last_heartbeat,
    {
        if snapshot.last_included_index <= self.commit_index {
            return Ok(false);
        }
        match decode_string_map(&snapshot.data) {
            Some(pairs) => {
                let store = KvStore::from_pairs(&pairs);
                proof {
                    lemma_pairs_round_trip(pairs@);
                }
                let installed = self.install_snapshot_store(snapshot, store);
                Ok(installed)
            },
            None => Err(SnapshotError::InvalidData),
        }
    }

    /// The data of a snapshot of this node's store: its pairs encoded as a
    /// JSON object of strings, which reads back as the store.
    pub fn snapshot_data(&self) -> (data: Vec<u8>)
        ensures
            json_string_map(data@) == Some(self@.kv),
    {
        let pairs = self.kv_store.to_pairs();
        match encode_string_map(&pairs) {
            Some(data) => data,
            None => unreached(),
        }
    }

    /// The current members as a configuration.
    pub fn current_configuration(&self) -> (c: Configuration)
        ensures
            c.members@ == self@.members,
    {
        Configuration { members: self.client_to_cluster.clone() }
    }

    /// A leader's first step of a membership change: enters the joint
    /// configuration and appends `encoded_command` to the log; gives back the
    /// position of that entry, which must be committed before the change ends.
    pub fn begin_configuration_change(
        &mut self,
        new_members: &HashMap<u64, String>,
        encoded_command: String,
    ) -> (r: Result<u64, NodeError>)
        requires
            old(self)@.log.len() < u64::MAX,
        ensures
            old(self)@.state != NodeState::Leader ==> r == Err::<u64, NodeError>(
                NodeError::ConfigChangeNotLeader,
            ) && final(self)@ == old(self)@,
            old(self)@.state == NodeState::Leader ==> r == Ok::<u64, NodeError>(
                old(self)@.log.len() as u64,
            ) && appended(
                (NodeView {
                    config: Some(ConfigView::Joint(old(self)@.members, new_members@)),
                    ..old(self)@
                }),
                final(self)@,
                old(self)@.log.len() as u64,
                encoded_command@,
            ),
            final(self).last_heartbeat == old(self).last_heartbeat,
    {
        if self.state != NodeState::Leader {
            return Err(NodeError::ConfigChangeNotLeader);
        }
        let old_config = Configuration { members: self.client_to_cluster.clone() };
        let new_config = Configuration { members: new_members.clone() };
        self.configuration_state = Some(ConfigurationState::Joint(old_config, new_config));
        let index = self.log.len() as u64;
        let entry = LogEntry::new(self.current_term, index, encoded_command);
        self.log.push(entry);
        proof {
            assert(self@.log.drop_last() =~= old(self)@.log);
        }
        Ok(index)
    }

    /// Whether the entry at `log_index` is committed.
    pub fn configuration_committed(&self, log_index: u64) -> (b: bool)
        ensures
            b == (self@.commit_index >= log_index),
    {
        self.commit_index >= log_index
    }

    /// A leader's last step of a membership change: switches to the new
    /// members and restarts replication to each of them from the end of the log.
    pub fn finish_configuration_change(&mut self, new_members: HashMap<u64, String>)
        requires
            old(self)@.log.len() <= u64::MAX,
        ensures
            final(self)@ == (NodeView {
                members: new_members@,
                config: Some(ConfigView::Stable(new_members@)),
                next_index: all_members_to(new_members@, old(self)@.log.len() as u64),
                match_index: all_members_to(new_members@, 0),
                ..old(self)@
            }),
            final(self).last_heartbeat == old(self).last_heartbeat,
    {
        let new_config = Configuration { members: new_members.clone() };
        self.client_to_cluster = new_members;
        self.configuration_state = Some(ConfigurationState::Stable(new_config));
        self.next_index.clear();
        self.match_index.clear();
        let ids = self.member_ids();
        let len = self.log.len() as u64;
        assign_listed(&mut self.next_index, &ids, None, len);
        assign_listed(&mut self.match_index, &ids, None, 0);
        proof {
            assert(self.next_index@ =~= all_members_to(self@.members, len));
            assert(self.match_index@ =~= all_members_to(self@.members, 0));
        }
    }

    /// Applies a configuration change read from the log: the new members
    /// become the cluster.
    pub fn apply_config_change(&mut self, old_config: Configuration, new_config: Configuration)
        ensures
            final(self)@ == (NodeView {
                members: new_config.members@,
                config: Some(ConfigView::Stable(new_config.members@)),
                ..old(self)@
            }),
            final(self).last_heartbeat == old(self).last_heartbeat,
    {
        let members = new_config.members.clone();
        self.configuration_state = Some(ConfigurationState::Joint(old_config, new_config));
        let stable = match self.configuration_state.take() {
            Some(ConfigurationState::Joint(_, n)) => n,
            _ => Configuration { members: members.clone() },
        };
        self.client_to_cluster = members;
        self.configuration_state = Some(ConfigurationState::Stable(stable));
    }

    /// The name of the file this node keeps its state in.
    pub fn storage_file_name(&self) -> (name: String)
        ensures
            name@ == "raft_state_"@ + decimal(self@.uid as nat) + ".json"@,
    {
        let mut name = "raft_state_".to_string();
        let id = u64_to_decimal(self.node_uid);
        name.append(id.as_str());
        name.append(".json");
        name
    }

    /// The name of the file this node writes its snapshots to.
    pub fn snapshot_file_name(&self) -> (name: String)
        ensures
            name@ == "snapshot_"@ + decimal(self@.uid as nat) + ".json"@,
    {
        let mut name = "snapshot_".to_string();
        let id = u64_to_decimal(self.node_uid);
        name.append(id.as_str());
        name.append(".json");
        name
    }

    /// The path of the file this node keeps its state in, named by
    /// [`LocalNode::storage_file_name`].
    pub fn get_storage_path(&self) -> (path: PathBuf)
        ensures
            path == path_buf_of("raft_state_"@ + decimal(self@.uid as nat) + ".json"@),
    {
        path_from(self.storage_file_name())
    }

    /// The members of the cluster other than this node, with their addresses.
    pub fn peers(&self) -> (peers: Vec<RemoteNode>)
        ensures
            forall|i: int|
                0 <= i < peers@.len() ==> (#[trigger] peers@[i]).node_uid != self@.uid
                    && self@.members.contains_key(peers@[i].node_uid) && peers@[i].addr
                    == self@.members[peers@[i].node_uid],
            forall|k: u64|
                self@.members.contains_key(k) && k != self@.uid ==> exists|i: int|
                    0 <= i < peers@.len() && (#[trigger] peers@[i]).node_uid == k,
            forall|i: int, j: int|
                0 <= i < peers@.len() && 0 <= j < peers@.len() && i != j ==> (#[trigger] peers@[
                    i
                ]).node_uid != (#[trigger] peers@[j]).node_uid,
    {
        let ids = self.member_ids();
        let mut peers: Vec<RemoteNode> = Vec::new();
        let mut i: usize = 0;
        while i < ids.len()
            invariant
                i <= ids@.len(),
                ids@.to_set() == self@.members.dom(),
                ids@.no_duplicates(),
                forall|a: int|
                    0 <= a < peers@.len() ==> (#[trigger] peers@[a]).node_uid != self@.uid
                        && self@.members.contains_key(peers@[a].node_uid) && peers@[a].addr
                        == self@.members[peers@[a].node_uid],
                forall|j: int|
                    0 <= j < i && #[trigger] ids@[j] != self@.uid ==> exists|a: int|
                        0 <= a < peers@.len() && (#[trigger] peers@[a]).node_uid == ids@[j],
                forall|a: int|
                    0 <= a < peers@.len() ==> exists|j: int|
                        0 <= j < i && ids@[j] == (#[trigger] peers@[a]).node_uid,
                forall|a: int, b: int|
                    0 <= a < peers@.len() && 0 <= b < peers@.len() && a != b ==> (#[trigger] peers@[
                        a
                    ]).node_uid != (#[trigger] peers@[b]).node_uid,
            decreases ids@.len() - i,
        {
            let id = ids[i];
            let ghost prev = peers@;
            assert(ids@.to_set().contains(id));
            if id != self.node_uid {
                let addr = self.client_to_cluster.get(&id).unwrap().clone();
                proof {
                    assert forall|a: int| 0 <= a < peers@.len() implies (#[trigger] peers@[
                        a
                    ]).node_uid != id by {
                        let j = choose|j: int| 0 <= j < i && ids@[j] == peers@[a].node_uid;
                        assert(ids@[j] != ids@[i as int]);
                    }
                }
                peers.push(RemoteNode { node_uid: id, addr });
                proof {
                    assert(peers@[peers@.len() - 1].node_uid == ids@[i as int]);
                }
            }
            proof {
                assert forall|j: int|
                    0 <= j < i + 1 && #[trigger] ids@[j] != self@.uid implies exists|a: int|
                        0 <= a < peers@.len() && (#[trigger] peers@[a]).node_uid == ids@[j] by {
                    if j < i {
                        let a = choose|a: int|
                            0 <= a < prev.len() && (#[trigger] prev[a]).node_uid == ids@[j];
                        assert(peers@[a] == prev[a]);
                    } else {
                        assert(peers@[peers@.len() - 1].node_uid == ids@[j]);
                    }
                }
            }
            i = i + 1;
        }
        proof {
            assert forall|k: u64| self@.members.contains_key(k) && k != self@.uid implies exists|
                a: int,
            | 0 <= a < peers@.len() && (#[trigger] peers@[a]).node_uid == k by {
                assert(ids@.to_set().contains(k));
                let j = choose|j: int| 0 <= j < ids@.len() && ids@[j] == k;
                assert(ids@[j] != self@.uid);
            }
        }
        peers
    }
}

/// Maps every listed id other than `skip` to `v` in `m`.
fn assign_listed(m: &mut HashMap<u64, u64>, ids: &Vec<u64>, skip: Option<u64>, v: u64)
    ensures
        final(m)@ == set_listed(old(m)@, ids@, skip, v),
{
    let mut i: usize = 0;
    while i < ids.len()
        invariant
            i <= ids@.len(),
            m@ == set_listed(old(m)@, ids@.take(i as int), skip, v),
        decreases ids@.len() - i,
    {
        let id = ids[i];
        let ghost before = m@;
        let listed = match skip {
            Some(k) => k != id,
            None => true,
        };
        if listed {
            m.insert(id, v);
        }
        proof {
            let t0 = ids@.take(i as int);
            let t1 = ids@.take(i + 1);
            assert(t1 =~= t0.push(id));
            assert forall|k: u64| #[trigger] t1.contains(k) <==> (t0.contains(k) || k == id) by {
                if t1.contains(k) {
                    let j = choose|j: int| 0 <= j < t1.len() && t1[j] == k;
                    if j < t0.len() {
                        assert(t0[j] == k);
                    }
                }
                if t0.contains(k) {
                    let j = choose|j: int| 0 <= j < t0.len() && t0[j] == k;
                    assert(t1[j] == k);
                }
                if k == id {
                    assert(t1[i as int] == k);
                }
            }
            assert(m@ =~= set_listed(old(m)@, t1, skip, v));
        }
        i = i + 1;
    }
    proof {
        assert(ids@.take(ids@.len() as int) =~= ids@);
    }
}

/// Whether `elapsed_millis`, cut to 64 bits, exceeds `election_timeout`.
pub fn timeout_exceeded(elapsed_millis: u128, election_timeout: u64) -> (b: bool)
    ensures
        b == ((elapsed_millis as u64) > election_timeout),
{
    (elapsed_millis as u64) > election_timeout
}

/// Whether `elapsed_millis` (cut to 64 bits) exceeds `election_timeout`;
/// never where nothing has elapsed (`None`).
pub open spec fn elapsed_exceeds(elapsed_millis: Option<u128>, election_timeout: u64) -> bool {
    match elapsed_millis {
        Some(m) => (m as u64) > election_timeout,
        None => false,
    }
}

/// Whether the election timeout has passed, given the milliseconds elapsed since
/// the last heartbeat (`None` where the clock reads earlier than it).
pub fn election_timed_out(elapsed_millis: Option<u128>, election_timeout: u64) -> (b: bool)
    ensures
        b == elapsed_exceeds(elapsed_millis, election_timeout),
{
    match elapsed_millis {
        Some(m) => timeout_exceeded(m, election_timeout),
        None => false,
    }
}

/// The map of strings that `serde_json::from_slice` reads from `data`, where it
/// reads one.
pub uninterp spec fn json_string_map(data: Seq<u8>) -> Option<Map<Seq<char>, Seq<char>>>;

/// Calls `serde_json::from_slice` to read `data` as a JSON object of strings
/// into a `HashMap<String, String>`, and hands its pairs out. The result is
/// named by `json_string_map`; the pairs, coming from a hash map, hold each key
/// once. Which texts decode, and to what, is left to that name.
#[verifier::external_body]
fn decode_string_map(data: &Vec<u8>) -> (r: Option<Vec<(String, String)>>)
    ensures
        r is Some <==> json_string_map(data@) is Some,
        r matches Some(p) ==> keys_distinct(p@) && json_string_map(data@) == Some(pairs_map(p@)),
{
    match serde_json::from_slice::<HashMap<String, String>>(data) {
        Ok(m) => Some(m.into_iter().collect()),
        Err(_) => None,
    }
}

/// Calls `serde_json::to_vec` on the pairs gathered into a
/// `HashMap<String, String>`. Its documentation says serialization fails only
/// where a `Serialize` impl decides to or a map has keys that are not strings,
/// so a result always comes back. The bytes are a JSON object of the pairs,
/// which `serde_json::from_slice` reads back as the same map; for pairs with
/// distinct keys that map is the one they stand for. The bytes themselves are
/// not named: the order of the pairs in them follows the hash map's walk,
/// which is seeded per process.
#[verifier::external_body]
fn encode_string_map(pairs: &Vec<(String, String)>) -> (r: Option<Vec<u8>>)
    ensures
        r is Some,
        r matches Some(b) ==> (keys_distinct(pairs@) ==> json_string_map(b@) == Some(
            pairs_map(pairs@),
        )),
{
    let m: HashMap<String, String> = pairs.iter().cloned().collect();
    match serde_json::to_vec(&m) {
        Ok(bytes) => Some(bytes),
        Err(_) => None,
    }
}

/// Why a snapshot could not be installed.
#[derive(Debug, Clone, Copy, PartialEq, Eq, Structural)]
pub enum SnapshotError {
    /// The snapshot's data is not a JSON object of strings.
    InvalidData,
}

/// Whether `t` is `s` after a snapshot with store `kv` was installed: the store
/// is `kv`, the log is one entry of the snapshot's last index and term with an
/// empty command, and everything up to that index is committed and applied.
pub open spec fn snapshot_installed(
    s: NodeView,
    t: NodeView,
    snapshot: &Snapshot,
    kv: Map<Seq<char>, Seq<char>>,
) -> bool {
    &&& t == (NodeView {
        kv,
        log: seq![t.log[0]],
        last_applied: snapshot.last_included_index,
        commit_index: snapshot.last_included_index,
        ..s
    })
    &&& t.log[0].term == snapshot.last_included_term
    &&& t.log[0].index == snapshot.last_included_index
    &&& t.log[0].command@.len() == 0
}

/// File system paths, used for where a node keeps its state.
#[verifier::external_type_specification]
#[verifier::external_body]
pub struct ExPathBuf(PathBuf);

/// The path that `PathBuf::from` makes of the text `name`.
pub uninterp spec fn path_buf_of(name: Seq<char>) -> PathBuf;

/// Calls `PathBuf::from` on a `String`, which turns the text into a path as it
/// is; its result is named by `path_buf_of`. What the path holds is left
/// unsaid: a `PathBuf` is opaque here.
#[verifier::external_body]
fn path_from(name: String) -> (path: PathBuf)
    ensures
        path == path_buf_of(name@),
{
    PathBuf::from(name)
}

/// Calls `rand::random::<u64>()`. Nothing is claimed of the number it draws.
#[verifier::external_body]
fn random_u64() -> u64 {
    rand::random::<u64>()
}

/// The election timeout, in milliseconds, drawn from the random number `random`.
pub fn election_timeout_from(random: u64) -> (timeout: u64)
    ensures
        timeout == random % 150 + 150,
{
    random % 150 + 150
}

} // verus!
