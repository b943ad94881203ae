use std::time::SystemTime;
use etcd::kv::KvStore;
use etcd::raft::log::LogEntry;
use etcd::raft::node::{
    election_timed_out, election_timeout_from, timeout_exceeded, LocalNode, NodeError, NodeState, RemoteNode,
    ReplicationPlan, Snapshot, SnapshotError, Tally, TimeoutAction,
};
use etcd::raft::rpc::{AppendEntriesRequest, AppendEntriesResponse, RequestVoteRequest, RequestVoteResponse};
use std::collections::HashMap;

fn cluster_of(ids: &[u64]) -> Vec<RemoteNode> {
    ids.iter()
        .map(|id| RemoteNode { node_uid: *id, addr: format!("127.0.0.1:{}", 10000 + id) })
        .collect()
}

fn node_in(id: u64, ids: &[u64]) -> LocalNode {
    let mut n = LocalNode::new(id);
    n.connect_to_cluster(cluster_of(ids));
    n
}

fn vote_req(term: u64, candidate: u64, last_index: u64, last_term: u64) -> RequestVoteRequest {
    RequestVoteRequest { term, candidate_id: candidate, last_log_index: last_index, last_log_term: last_term }
}

fn heartbeat(term: u64, leader: u64, commit: u64) -> AppendEntriesRequest {
    AppendEntriesRequest {
        term,
        leader_id: leader,
        prev_log_index: 0,
        prev_log_term: 0,
        entries: Vec::new(),
        leader_commit: commit,
    }
}

fn make_leader(n: &mut LocalNode) {
    n.begin_election(SystemTime::now());
    let votes = n.client_to_cluster.len();
    assert!(n.conclude_election(votes));
}

#[test]
fn new_node_is_fresh_follower() {
    let n = LocalNode::new(7);
    assert_eq!(n.node_uid, 7);
    assert_eq!(n.state, NodeState::Follower);
    assert_eq!(n.current_term, 0);
    assert_eq!(n.voted_for, None);
    assert!(n.log.is_empty());
    assert_eq!(n.commit_index, 0);
    assert_eq!(n.heartbeat_interval, 50);
    assert!(n.election_timeout >= 150 && n.election_timeout < 300);
    assert_eq!(n.kv_store.len(), 0);
}

#[test]
fn election_timeout_formula() {
    assert_eq!(election_timeout_from(0), 150);
    assert_eq!(election_timeout_from(149), 299);
    assert_eq!(election_timeout_from(150), 150);
    assert_eq!(election_timeout_from(1000), 1000 % 150 + 150);
}

#[test]
fn timeout_exceeded_cuts_to_64_bits() {
    assert!(timeout_exceeded(300, 299));
    assert!(!timeout_exceeded(299, 299));
    assert!(!timeout_exceeded(1u128 << 64, 10));
    assert!(timeout_exceeded((1u128 << 64) + 11, 10));
}

#[test]
fn vote_granted_once_per_term() {
    let mut n = node_in(1, &[1, 2, 3]);
    let r = n.handle_request_vote(vote_req(1, 2, 0, 0), SystemTime::now());
    assert_eq!(r, RequestVoteResponse { term: 1, vote_granted: true });
    assert_eq!(n.voted_for, Some(2));
    let r2 = n.handle_request_vote(vote_req(1, 3, 0, 0), SystemTime::now());
    assert_eq!(r2, RequestVoteResponse { term: 1, vote_granted: false });
    assert_eq!(n.voted_for, Some(2));
    let again = n.handle_request_vote(vote_req(1, 2, 0, 0), SystemTime::now());
    assert!(again.vote_granted);
}

#[test]
fn stale_vote_request_refused() {
    let mut n = node_in(1, &[1, 2, 3]);
    n.update_term(5);
    let r = n.handle_request_vote(vote_req(4, 2, 10, 10), SystemTime::now());
    assert_eq!(r, RequestVoteResponse { term: 5, vote_granted: false });
    assert_eq!(n.voted_for, None);
}

#[test]
fn vote_refused_to_outdated_log() {
    let mut n = node_in(1, &[1, 2, 3]);
    n.log.push(LogEntry::new(3, 1, "SET a b".to_string()));
    let r = n.handle_request_vote(vote_req(4, 2, 5, 2), SystemTime::now());
    assert_eq!(r, RequestVoteResponse { term: 4, vote_granted: false });
    assert_eq!(n.current_term, 4);
    assert_eq!(n.state, NodeState::Follower);
    let r2 = n.handle_request_vote(vote_req(4, 2, 1, 3), SystemTime::now());
    assert!(r2.vote_granted);
    let mut m = node_in(1, &[1, 2, 3]);
    m.log.push(LogEntry::new(3, 1, "SET a b".to_string()));
    m.log.push(LogEntry::new(3, 2, "SET c d".to_string()));
    assert!(!m.handle_request_vote(vote_req(4, 2, 1, 3), SystemTime::now()).vote_granted);
}

#[test]
fn later_term_vote_request_makes_follower() {
    let mut n = node_in(1, &[1, 2, 3]);
    make_leader(&mut n);
    assert_eq!(n.state, NodeState::Leader);
    let r = n.handle_request_vote(vote_req(9, 3, 0, 0), SystemTime::now());
    assert_eq!(r, RequestVoteResponse { term: 9, vote_granted: true });
    assert_eq!(n.state, NodeState::Follower);
    assert_eq!(n.voted_for, Some(3));
}

fn append(term: u64, prev: u64, prev_term: u64, entries: &[(u64, &str)], commit: u64) -> AppendEntriesRequest {
    AppendEntriesRequest {
        term,
        leader_id: 1,
        prev_log_index: prev,
        prev_log_term: prev_term,
        entries: entries
            .iter()
            .enumerate()
            .map(|(i, (t, c))| etcd::raft::rpc::LogEntry { term: *t, index: prev + 1 + i as u64, command: c.to_string() })
            .collect(),
        leader_commit: commit,
    }
}

#[test]
fn append_entries_rules() {
    let mut n = node_in(2, &[1, 2, 3]);
    n.update_term(3);
    let stale = n.handle_append_entries(heartbeat(2, 1, 0), SystemTime::now());
    assert_eq!(stale, AppendEntriesResponse { term: 3, success: false });
    let ok = n.handle_append_entries(heartbeat(4, 1, 0), SystemTime::now());
    assert_eq!(ok, AppendEntriesResponse { term: 4, success: true });
    assert_eq!(n.current_term, 4);
    assert_eq!(n.voted_for, None);
    n.log.push(LogEntry::new(4, 1, "SET a 1".to_string()));
    n.log.push(LogEntry::new(4, 2, "SET b 2".to_string()));
    n.handle_append_entries(append(4, 2, 4, &[], 7), SystemTime::now());
    assert_eq!(n.commit_index, 2);
    assert_eq!(n.last_applied, 2);
    assert_eq!(n.get("a".to_string()), Ok("1".to_string()));
    assert_eq!(n.get("b".to_string()), Ok("2".to_string()));
    n.handle_append_entries(append(4, 2, 4, &[], 1), SystemTime::now());
    assert_eq!(n.commit_index, 2);
}

#[test]
fn append_entries_stores_and_applies_carried_entries() {
    let mut n = node_in(2, &[1, 2]);
    let r = n.handle_append_entries(append(1, 0, 0, &[(1, "SET x y"), (1, "SET z w")], 0), SystemTime::now());
    assert!(r.success);
    assert_eq!(n.log.len(), 2);
    assert_eq!(n.log[1].command, "SET z w");
    assert_eq!(n.log[1].index, 2);
    assert_eq!(n.get("x".to_string()), Err(NodeError::KeyNotFound));
    let r2 = n.handle_append_entries(append(1, 2, 1, &[(1, "DEL x"), (1, "SET v a b")], 3), SystemTime::now());
    assert!(r2.success);
    assert_eq!(n.log.len(), 4);
    assert_eq!(n.commit_index, 3);
    assert_eq!(n.last_applied, 3);
    assert_eq!(n.get("x".to_string()), Err(NodeError::KeyNotFound));
    assert_eq!(n.get("z".to_string()), Ok("w".to_string()));
    assert_eq!(n.get("v".to_string()), Err(NodeError::KeyNotFound));
    n.handle_append_entries(append(1, 4, 1, &[], 4), SystemTime::now());
    assert_eq!(n.get("v".to_string()), Ok("a b".to_string()));
}

#[test]
fn append_entries_refuses_missing_previous_entry() {
    let mut n = node_in(2, &[1, 2]);
    n.handle_append_entries(append(1, 0, 0, &[(1, "SET x y")], 0), SystemTime::now());
    let gap = n.handle_append_entries(append(1, 3, 1, &[(1, "SET q r")], 4), SystemTime::now());
    assert_eq!(gap, AppendEntriesResponse { term: 1, success: false });
    let wrong_term = n.handle_append_entries(append(2, 1, 5, &[(2, "SET q r")], 2), SystemTime::now());
    assert_eq!(wrong_term, AppendEntriesResponse { term: 2, success: false });
    assert_eq!(n.current_term, 2);
    assert_eq!(n.log.len(), 1);
    assert_eq!(n.commit_index, 0);
    assert_eq!(n.kv_store.len(), 0);
}

#[test]
fn append_entries_replaces_conflicting_entries() {
    let mut n = node_in(2, &[1, 2]);
    n.handle_append_entries(append(1, 0, 0, &[(1, "SET a 1"), (1, "SET b 2"), (1, "SET c 3")], 0), SystemTime::now());
    let r = n.handle_append_entries(append(2, 1, 1, &[(2, "SET b 9")], 2), SystemTime::now());
    assert!(r.success);
    assert_eq!(n.log.len(), 2);
    assert_eq!(n.log[1].term, 2);
    assert_eq!(n.get("a".to_string()), Ok("1".to_string()));
    assert_eq!(n.get("b".to_string()), Ok("9".to_string()));
    assert_eq!(n.get("c".to_string()), Err(NodeError::KeyNotFound));
}

#[test]
fn election_timer_restarts() {
    let past = SystemTime::UNIX_EPOCH;
    let later = SystemTime::UNIX_EPOCH + std::time::Duration::from_secs(5);
    let mut n = node_in(2, &[1, 2, 3]);
    n.last_heartbeat = past;
    n.handle_append_entries(heartbeat(0, 1, 0), later);
    assert_eq!(n.last_heartbeat, later);
    n.last_heartbeat = past;
    n.update_term(3);
    n.handle_append_entries(heartbeat(1, 1, 0), later);
    assert_eq!(n.last_heartbeat, later);
    n.last_heartbeat = past;
    assert!(!n.handle_request_vote(vote_req(2, 3, 0, 0), later).vote_granted);
    assert_eq!(n.last_heartbeat, past);
    assert!(n.handle_request_vote(vote_req(3, 3, 0, 0), later).vote_granted);
    assert_eq!(n.last_heartbeat, later);
    n.last_heartbeat = past;
    n.begin_election(later);
    assert_eq!(n.last_heartbeat, later);
    n.last_heartbeat = past;
    assert_eq!(n.heartbeat_timeout_step(true, later), TimeoutAction::StartElection);
    assert_eq!(n.last_heartbeat, past);
    let mut solo = node_in(4, &[4]);
    solo.heartbeat_timeout_step(false, later);
    assert_eq!(solo.last_heartbeat, later);
}

#[test]
fn election_timeout_decision() {
    assert!(!election_timed_out(None, 10));
    assert!(!election_timed_out(Some(10), 10));
    assert!(election_timed_out(Some(11), 10));
    assert!(!election_timed_out(Some(1u128 << 64), 10));
    let mut n = node_in(2, &[1, 2, 3]);
    n.last_heartbeat = SystemTime::now() + std::time::Duration::from_secs(3600);
    assert!(!n.is_election_timeout());
    n.last_heartbeat = SystemTime::UNIX_EPOCH;
    assert!(n.is_election_timeout());
}

#[test]
fn responses_with_later_term_step_down() {
    let mut n = node_in(1, &[1, 2, 3]);
    make_leader(&mut n);
    assert!(n.on_append_entries_response(AppendEntriesResponse { term: 1, success: true }));
    assert!(!n.on_append_entries_response(AppendEntriesResponse { term: 1, success: false }));
    assert!(!n.on_append_entries_response(AppendEntriesResponse { term: 6, success: true }));
    assert_eq!(n.state, NodeState::Follower);
    assert_eq!(n.current_term, 6);
    assert_eq!(n.voted_for, None);
    assert!(!n.on_request_vote_response(RequestVoteResponse { term: 8, vote_granted: true }));
    assert_eq!(n.current_term, 8);
    assert!(n.on_request_vote_response(RequestVoteResponse { term: 8, vote_granted: true }));
}

#[test]
fn election_majority() {
    let mut n = node_in(1, &[1, 2, 3, 4, 5]);
    n.begin_election(SystemTime::now());
    assert_eq!(n.state, NodeState::Candidate);
    assert_eq!(n.current_term, 1);
    assert_eq!(n.voted_for, Some(1));
    let req = n.request_vote_request();
    assert_eq!(req, RequestVoteRequest { term: 1, candidate_id: 1, last_log_index: 0, last_log_term: 0 });
    assert!(!n.conclude_election(2));
    assert_eq!(n.state, NodeState::Follower);
    n.begin_election(SystemTime::now());
    assert!(n.conclude_election(3));
    assert_eq!(n.state, NodeState::Leader);
    for id in [2u64, 3, 4, 5] {
        assert_eq!(n.next_index.get(&id), Some(&1));
        assert_eq!(n.match_index.get(&id), Some(&0));
    }
    assert_eq!(n.next_index.get(&1), None);
}

#[test]
fn tally_counts_self() {
    let mut t = Tally::new(5);
    assert_eq!(t.successes, 1);
    assert!(!t.reached());
    t.record(true);
    t.record(false);
    assert!(!t.reached());
    t.record(true);
    assert!(t.reached());
    assert!(Tally::new(1).reached());
    assert!(!Tally::new(2).reached());
}

#[test]
fn heartbeat_timeout_actions() {
    let mut solo = node_in(4, &[4]);
    assert_eq!(solo.heartbeat_timeout_step(false, SystemTime::now()), TimeoutAction::BecameLeader);
    assert_eq!(solo.state, NodeState::Leader);
    assert_eq!(solo.current_term, 1);
    assert_eq!(solo.voted_for, Some(4));
    assert_eq!(solo.heartbeat_timeout_step(true, SystemTime::now()), TimeoutAction::SendHeartbeats);
    let mut n = node_in(1, &[1, 2]);
    assert_eq!(n.heartbeat_timeout_step(false, SystemTime::now()), TimeoutAction::Wait);
    assert_eq!(n.heartbeat_timeout_step(true, SystemTime::now()), TimeoutAction::StartElection);
    assert_eq!(n.state, NodeState::Follower);
}

#[test]
fn leader_never_times_out() {
    let mut n = node_in(1, &[1]);
    n.heartbeat_timeout_step(false, SystemTime::now());
    assert!(!n.is_election_timeout());
    assert_eq!(n.handle_heartbeat_timeout(), TimeoutAction::SendHeartbeats);
}

#[test]
fn writes_need_leader() {
    let mut n = node_in(1, &[1, 2, 3]);
    let k = "k".to_string();
    let v = "v".to_string();
    assert_eq!(n.begin_set(&k, &v), Err(NodeError::InvalidState));
    assert_eq!(n.begin_delete(&k), Err(NodeError::NotLeader));
    assert!(n.log.is_empty());
    assert_eq!(NodeError::InvalidState.message(), "Invalid state");
    assert_eq!(NodeError::NotLeader.message(), "Not a leader");
    assert_eq!(NodeError::ReplicationFailed.message(), "Failed to replicate log");
    assert_eq!(NodeError::KeyNotFound.message(), "Key not found");
    assert_eq!(NodeError::ConfigChangeNotLeader.message(), "Only leader can change configuration");
}

#[test]
fn set_get_delete_on_leader() {
    let mut n = node_in(1, &[1, 2, 3]);
    make_leader(&mut n);
    let k = "name".to_string();
    let v = "raft".to_string();
    assert_eq!(n.begin_set(&k, &v), Ok(()));
    assert_eq!(n.log.len(), 1);
    assert_eq!(n.log[0].term, 1);
    assert_eq!(n.log[0].index, 1);
    assert_eq!(n.log[0].command, "SET name raft");
    assert_eq!(n.get(k.clone()), Err(NodeError::KeyNotFound));
    assert_eq!(n.finish_set(k.clone(), v.clone(), true), Ok(()));
    assert_eq!(n.get(k.clone()), Ok("raft".to_string()));
    assert_eq!(n.begin_set(&k, &"other".to_string()), Ok(()));
    assert_eq!(n.finish_set(k.clone(), "other".to_string(), false), Err(NodeError::ReplicationFailed));
    assert_eq!(n.get(k.clone()), Ok("raft".to_string()));
    assert_eq!(n.begin_delete(&k), Ok(()));
    assert_eq!(n.log[2].command, "DEL name");
    assert_eq!(n.log[2].index, 3);
    assert_eq!(n.finish_delete(k.clone(), true), Ok(()));
    assert_eq!(n.get(k), Err(NodeError::KeyNotFound));
    assert_eq!(n.commit_index, 3);
    assert_eq!(n.last_applied, 3);
}

#[test]
fn heartbeat_and_replication_plans() {
    let mut n = node_in(1, &[1, 2, 3]);
    make_leader(&mut n);
    for i in 0..3u64 {
        let key = format!("k{}", i);
        n.begin_set(&key, &"v".to_string()).unwrap();
    }
    let hb = n.heartbeat_request(2).unwrap();
    assert_eq!(hb.term, 1);
    assert_eq!(hb.leader_id, 1);
    assert_eq!(hb.prev_log_index, 0);
    assert_eq!(hb.prev_log_term, 0);
    assert_eq!(hb.entries.len(), 3);
    assert_eq!(hb.entries[2].command, "SET k2 v");
    match n.replication_plan(2) {
        ReplicationPlan::Send { request, next_index, entries_len } => {
            assert_eq!(next_index, 1);
            assert_eq!(entries_len, 3);
            assert_eq!(request.prev_log_index, 0);
            assert_eq!(request.entries[0].index, 1);
        }
        ReplicationPlan::UpToDate => panic!("expected entries to send"),
    }
    assert!(n.record_replication(2, 1, 3, Some(true)));
    assert_eq!(n.next_index.get(&2), Some(&4));
    assert_eq!(n.match_index.get(&2), Some(&3));
    assert!(matches!(n.replication_plan(2), ReplicationPlan::UpToDate));
    let hb2 = n.heartbeat_request(2).unwrap();
    assert_eq!(hb2.prev_log_index, 3);
    assert_eq!(hb2.prev_log_term, 1);
    assert!(hb2.entries.is_empty());
    assert!(!n.record_replication(3, 1, 3, Some(false)));
    assert_eq!(n.next_index.get(&3), Some(&0));
    assert!(!n.record_replication(3, 5, 3, None));
    assert_eq!(n.next_index.get(&3), Some(&0));
    n.next_index.insert(3, 9);
    assert!(n.heartbeat_request(3).is_none());
    match n.replication_plan(99) {
        ReplicationPlan::Send { next_index, entries_len, .. } => {
            assert_eq!(next_index, 1);
            assert_eq!(entries_len, 3);
        }
        ReplicationPlan::UpToDate => panic!("unknown peers start at index 1"),
    }
    let unknown = n.heartbeat_request(99).unwrap();
    assert!(unknown.entries.is_empty());
}

#[test]
fn peers_and_members() {
    let n = node_in(2, &[1, 2, 3]);
    let mut ids: Vec<u64> = n.peers().iter().map(|p| p.node_uid).collect();
    ids.sort();
    assert_eq!(ids, vec![1, 3]);
    let mut all = n.member_ids();
    all.sort();
    assert_eq!(all, vec![1, 2, 3]);
    assert_eq!(n.client_to_cluster.get(&3).unwrap(), "127.0.0.1:10003");
    let mut m = LocalNode::new(1);
    m.connect_to_cluster(vec![
        RemoteNode { node_uid: 1, addr: "a".to_string() },
        RemoteNode { node_uid: 1, addr: "b".to_string() },
    ]);
    assert_eq!(m.client_to_cluster.len(), 1);
    assert_eq!(m.client_to_cluster.get(&1).unwrap(), "b");
    assert!(m.is_sole_member());
}

#[test]
fn persistence_round_trip() {
    let mut n = node_in(1, &[1, 2, 3]);
    make_leader(&mut n);
    n.begin_set(&"a".to_string(), &"b".to_string()).unwrap();
    let st = n.persistent_state();
    assert_eq!(st.current_term, 1);
    assert_eq!(st.voted_for, Some(1));
    assert_eq!(st.log.len(), 1);
    let mut m = LocalNode::new(1);
    m.restore_state(st);
    assert_eq!(m.current_term, 1);
    assert_eq!(m.voted_for, Some(1));
    assert_eq!(m.log[0].command, "SET a b");
    assert!(!m.update_term(1));
    assert!(m.update_term(2));
    assert_eq!(m.voted_for, None);
    assert_eq!(m.current_term, 2);
}

#[test]
fn storage_file_name_uses_id() {
    let n = LocalNode::new(42);
    assert_eq!(n.storage_file_name(), "raft_state_42.json");
    assert_eq!(n.get_storage_path(), std::path::PathBuf::from("raft_state_42.json"));
    assert_eq!(LocalNode::new(0).storage_file_name(), "raft_state_0.json");
}

#[test]
fn snapshots() {
    let mut n = node_in(1, &[1]);
    assert_eq!(n.snapshot_point(), None);
    for i in 0..4u64 {
        n.log.push(LogEntry::new(i + 1, i + 1, format!("SET k{} v", i)));
    }
    assert_eq!(n.snapshot_point(), None);
    n.commit_index = 2;
    assert_eq!(n.snapshot_point(), Some((2, 3)));
    n.compact_log(2);
    assert_eq!(n.log.len(), 1);
    assert_eq!(n.log[0].index, 4);
    assert_eq!(n.commit_index, 2);
    assert_eq!(n.last_applied, 2);
    assert!(!n.snapshot_needed());
    let mut store = KvStore::new();
    store.insert("x".to_string(), "1".to_string());
    let snap = Snapshot { last_included_index: 2, last_included_term: 3, data: Vec::new() };
    assert!(!n.accepts_snapshot(2));
    assert!(!n.install_snapshot_store(&snap, KvStore::new()));
    let newer = Snapshot { last_included_index: 10, last_included_term: 5, data: Vec::new() };
    assert!(n.accepts_snapshot(10));
    assert!(n.install_snapshot_store(&newer, store));
    assert_eq!(n.log.len(), 1);
    assert_eq!(n.log[0].term, 5);
    assert_eq!(n.log[0].index, 10);
    assert_eq!(n.log[0].command, "");
    assert_eq!(n.commit_index, 10);
    assert_eq!(n.last_applied, 10);
    assert_eq!(n.get("x".to_string()), Ok("1".to_string()));
    assert!(!n.install_snapshot_store(&newer, KvStore::new()));
}

#[test]
fn install_snapshot_decodes_data() {
    let mut n = node_in(1, &[1]);
    let data = br#"{"a":"1","b":"two words"}"#.to_vec();
    let stale = Snapshot { last_included_index: 0, last_included_term: 1, data: b"not json".to_vec() };
    assert_eq!(n.install_snapshot(&stale), Ok(false));
    let bad = Snapshot { last_included_index: 4, last_included_term: 2, data: b"[1, 2]".to_vec() };
    assert_eq!(n.install_snapshot(&bad), Err(SnapshotError::InvalidData));
    assert_eq!(n.commit_index, 0);
    assert!(n.log.is_empty());
    let good = Snapshot { last_included_index: 4, last_included_term: 2, data };
    assert_eq!(n.install_snapshot(&good), Ok(true));
    assert_eq!(n.get("a".to_string()), Ok("1".to_string()));
    assert_eq!(n.get("b".to_string()), Ok("two words".to_string()));
    assert_eq!(n.kv_store.len(), 2);
    assert_eq!(n.commit_index, 4);
    assert_eq!(n.log.len(), 1);
    assert_eq!(n.log[0].term, 2);
}

#[test]
fn snapshot_data_round_trip() {
    let mut leader = node_in(1, &[1]);
    leader.kv_store.insert("k1".to_string(), "v1".to_string());
    leader.kv_store.insert("k2".to_string(), "v 2".to_string());
    let data = leader.snapshot_data();
    assert!(!data.is_empty());
    let mut other = node_in(2, &[2]);
    let snap = Snapshot { last_included_index: 1, last_included_term: 1, data };
    assert_eq!(other.install_snapshot(&snap), Ok(true));
    assert_eq!(other.get("k1".to_string()), Ok("v1".to_string()));
    assert_eq!(other.get("k2".to_string()), Ok("v 2".to_string()));
    assert_eq!(other.kv_store.len(), 2);
}

#[test]
fn append_keeps_matching_entries_beyond_previous() {
    let mut n = node_in(2, &[1, 2]);
    n.handle_append_entries(append(1, 0, 0, &[(1, "SET a 1"), (1, "SET b 2"), (1, "SET c 3")], 3), SystemTime::now());
    assert_eq!(n.commit_index, 3);
    let r = n.handle_append_entries(append(1, 1, 1, &[], 3), SystemTime::now());
    assert!(r.success);
    assert_eq!(n.log.len(), 3);
    assert_eq!(n.commit_index, 3);
    let r2 = n.handle_append_entries(append(1, 0, 0, &[(1, "SET a 1"), (1, "SET b 2")], 3), SystemTime::now());
    assert!(r2.success);
    assert_eq!(n.log.len(), 3);
    assert_eq!(n.log[2].command, "SET c 3");
    assert_eq!(n.get("c".to_string()), Ok("3".to_string()));
}

#[test]
fn round_tally_only_for_leader() {
    let mut n = node_in(1, &[1, 2, 3]);
    assert!(n.round_tally().is_none());
    make_leader(&mut n);
    let t = n.round_tally().unwrap();
    assert_eq!(t.successes, 1);
    assert_eq!(t.cluster_size, 3);
}

#[test]
fn snapshot_needed_past_threshold() {
    let mut n = LocalNode::new(1);
    for i in 0..1001u64 {
        n.log.push(LogEntry::new(1, i + 1, String::new()));
    }
    assert!(n.snapshot_needed());
    n.log.pop();
    assert!(!n.snapshot_needed());
}

#[test]
fn configuration_change() {
    let mut n = node_in(1, &[1, 2, 3]);
    let mut new_members: HashMap<u64, String> = HashMap::new();
    new_members.insert(1, "a".to_string());
    new_members.insert(4, "d".to_string());
    assert_eq!(
        n.begin_configuration_change(&new_members, "{}".to_string()),
        Err(NodeError::ConfigChangeNotLeader)
    );
    make_leader(&mut n);
    n.begin_set(&"a".to_string(), &"b".to_string()).unwrap();
    assert_eq!(n.current_configuration().members.len(), 3);
    let idx = n.begin_configuration_change(&new_members, "encoded".to_string()).unwrap();
    assert_eq!(idx, 1);
    assert_eq!(n.log[1].index, 1);
    assert_eq!(n.log[1].command, "encoded");
    assert!(!n.configuration_committed(idx));
    n.commit_index = 1;
    assert!(n.configuration_committed(idx));
    n.finish_configuration_change(new_members.clone());
    assert_eq!(n.client_to_cluster, new_members);
    assert_eq!(n.next_index.get(&1), Some(&2));
    assert_eq!(n.next_index.get(&4), Some(&2));
    assert_eq!(n.next_index.get(&2), None);
    assert_eq!(n.match_index.get(&4), Some(&0));
    let mut other: HashMap<u64, String> = HashMap::new();
    other.insert(9, "z".to_string());
    let old = n.current_configuration();
    n.apply_config_change(old, etcd::raft::node::Configuration { members: other.clone() });
    assert_eq!(n.client_to_cluster, other);
}

#[test]
fn snapshot_file_name_uses_id() {
    assert_eq!(LocalNode::new(3).snapshot_file_name(), "snapshot_3.json");
}

#[test]
fn round_outcome_counts_up_to_date_peers() {
    let mut n = node_in(1, &[1, 2, 3]);
    make_leader(&mut n);
    let plan = n.replication_plan(2);
    assert!(matches!(plan, ReplicationPlan::UpToDate));
    assert!(n.record_round(2, &plan, None));
    let k = "k".to_string();
    n.begin_set(&k, &"v".to_string()).unwrap();
    let plan = n.replication_plan(2);
    assert!(!n.record_round(2, &plan, None));
    assert!(!n.record_round(2, &plan, Some(false)));
    assert_eq!(n.next_index.get(&2), Some(&0));
    let plan3 = n.replication_plan(3);
    assert!(n.record_round(3, &plan3, Some(true)));
    assert_eq!(n.next_index.get(&3), Some(&2));
    assert_eq!(n.match_index.get(&3), Some(&1));
}

#[test]
fn follower_with_longer_log_reads_committed_write() {
    let mut n = node_in(2, &[1, 2]);
    n.handle_append_entries(append(1, 0, 0, &[(1, "SET a 1"), (1, "SET b 2"), (1, "SET c 3")], 0), SystemTime::now());
    let r = n.handle_append_entries(append(1, 0, 0, &[(1, "SET a 1")], 1), SystemTime::now());
    assert!(r.success);
    assert_eq!(n.log.len(), 3);
    assert_eq!(n.get("a".to_string()), Ok("1".to_string()));
    assert_eq!(n.get("b".to_string()), Err(NodeError::KeyNotFound));
}
