use std::time::SystemTime;
use etcd::raft::node::{LocalNode, NodeState, RemoteNode, ReplicationPlan, Tally};
use etcd::raft::testing::{first_leader, single_leader, values_consistent};

/// A cluster whose messages are delivered at once, in memory.
struct Cluster {
    nodes: Vec<LocalNode>,
    failed: Vec<bool>,
}

impl Cluster {
    fn new(count: usize) -> Cluster {
        let members: Vec<RemoteNode> = (0..count)
            .map(|i| RemoteNode { node_uid: (i + 1) as u64, addr: format!("127.0.0.1:{}", 10000 + i) })
            .collect();
        let nodes = (0..count)
            .map(|i| {
                let mut n = LocalNode::new((i + 1) as u64);
                n.connect_to_cluster(members.clone());
                n
            })
            .collect();
        Cluster { nodes, failed: vec![false; count] }
    }

    fn index_of(&self, uid: u64) -> usize {
        (uid - 1) as usize
    }

    fn states(&self) -> Vec<NodeState> {
        self.nodes.iter().map(|n| n.state).collect()
    }

    fn leader(&self) -> Option<usize> {
        first_leader(&self.states(), &self.failed)
    }

    fn elect(&mut self, idx: usize) -> bool {
        self.nodes[idx].begin_election(SystemTime::now());
        let req = self.nodes[idx].request_vote_request();
        let mut tally = Tally::new(self.nodes[idx].client_to_cluster.len());
        for peer in self.nodes[idx].peers() {
            let p = self.index_of(peer.node_uid);
            if self.failed[p] {
                continue;
            }
            let resp = self.nodes[p].handle_request_vote(req, SystemTime::now());
            let granted = self.nodes[idx].on_request_vote_response(resp);
            tally.record(granted);
            if !self.nodes[idx].is_candidate() {
                return false;
            }
        }
        self.nodes[idx].conclude_election(tally.successes)
    }

    fn heartbeats(&mut self, idx: usize) -> bool {
        if !self.nodes[idx].is_leader() {
            return false;
        }
        let mut tally = Tally::new(self.nodes[idx].client_to_cluster.len());
        for peer in self.nodes[idx].peers() {
            let p = self.index_of(peer.node_uid);
            let req = match self.nodes[idx].heartbeat_request(peer.node_uid) {
                Some(r) => r,
                None => continue,
            };
            if self.failed[p] {
                continue;
            }
            let resp = self.nodes[p].handle_append_entries(req, SystemTime::now());
            let ok = self.nodes[idx].on_append_entries_response(resp);
            tally.record(ok);
        }
        tally.reached()
    }

    fn replicate(&mut self, idx: usize) -> bool {
        if !self.nodes[idx].is_leader() {
            return false;
        }
        let mut tally = Tally::new(self.nodes[idx].client_to_cluster.len());
        for peer in self.nodes[idx].peers() {
            let p = self.index_of(peer.node_uid);
            match self.nodes[idx].replication_plan(peer.node_uid) {
                ReplicationPlan::UpToDate => tally.record(true),
                ReplicationPlan::Send { request, next_index, entries_len } => {
                    let outcome = if self.failed[p] {
                        None
                    } else {
                        let resp = self.nodes[p].handle_append_entries(request, SystemTime::now());
                        Some(self.nodes[idx].on_append_entries_response(resp))
                    };
                    let ok = self.nodes[idx].record_replication(peer.node_uid, next_index, entries_len, outcome);
                    tally.record(ok);
                }
            }
        }
        tally.reached()
    }

    fn set(&mut self, key: &str, value: &str) -> bool {
        let idx = match self.leader() {
            Some(i) => i,
            None => return false,
        };
        let (k, v) = (key.to_string(), value.to_string());
        if self.nodes[idx].begin_set(&k, &v).is_err() {
            return false;
        }
        let replicated = self.replicate(idx);
        self.nodes[idx].finish_set(k, v, replicated).is_ok()
    }

    fn consistent(&self, key: &str) -> bool {
        let values: Vec<String> = (0..self.nodes.len())
            .filter(|i| !self.failed[*i])
            .filter_map(|i| self.nodes[i].get(key.to_string()).ok())
            .collect();
        values_consistent(&values)
    }

    fn single_leader(&self) -> bool {
        single_leader(&self.states(), &self.failed)
    }
}

#[test]
fn test_basic_election() {
    let mut c = Cluster::new(3);
    assert!(c.elect(0));
    assert_eq!(c.leader(), Some(0));
    assert!(c.heartbeats(0));
    assert!(c.single_leader());
}

#[test]
fn test_basic_leader_election() {
    let mut c = Cluster::new(3);
    assert!(c.elect(1));
    assert_eq!(c.leader(), Some(1));
    assert_eq!(c.nodes[0].voted_for, Some(2));
    assert_eq!(c.nodes[2].current_term, 1);
}

#[test]
fn test_leader_failure_recovery() {
    let mut c = Cluster::new(3);
    assert!(c.elect(0));
    c.failed[0] = true;
    assert!(c.elect(1));
    assert_eq!(c.leader(), Some(1));
    assert_eq!(c.nodes[1].current_term, 2);
    c.failed[0] = false;
    assert!(!c.single_leader());
    assert!(c.heartbeats(1));
    assert_eq!(c.nodes[0].state, NodeState::Follower);
    assert_eq!(c.nodes[0].current_term, 2);
    assert!(c.single_leader());
}

#[test]
fn test_network_partition_scenario() {
    let mut c = Cluster::new(5);
    assert!(c.elect(0));
    assert!(c.set("test_key", "test_value"));
    c.failed = vec![false, false, false, true, true];
    assert!(c.set("partition_key", "partition_value"));
    c.failed = vec![true, true, true, false, false];
    assert!(!c.elect(3));
    c.failed = vec![false; 5];
    assert!(c.consistent("test_key"));
    assert!(c.consistent("partition_key"));
}

#[test]
fn test_log_replication_consistency() {
    let mut c = Cluster::new(3);
    assert!(c.elect(0));
    for i in 1..=5 {
        assert!(c.set(&format!("key{}", i), &format!("value{}", i)));
    }
    assert_eq!(c.nodes[0].log.len(), 5);
    for uid in [2u64, 3] {
        assert_eq!(c.nodes[0].next_index.get(&uid), Some(&6));
        assert_eq!(c.nodes[0].match_index.get(&uid), Some(&5));
    }
    for i in 1..=5 {
        assert!(c.consistent(&format!("key{}", i)));
    }
    assert_eq!(c.nodes[0].get("key3".to_string()), Ok("value3".to_string()));
}

#[test]
fn test_safety_scenario() {
    let mut c = Cluster::new(5);
    c.nodes[1].begin_election(SystemTime::now());
    assert!(c.elect(0));
    let req = c.nodes[1].request_vote_request();
    assert_eq!(req.term, 1);
    let refused = c.nodes[2].handle_request_vote(req, SystemTime::now());
    assert!(!refused.vote_granted);
    assert!(c.single_leader());
}

#[test]
fn test_multiple_elections_scenario() {
    let mut c = Cluster::new(5);
    for round in 0..3usize {
        assert!(c.elect(round));
        assert_eq!(c.leader(), Some(round));
        assert_eq!(c.nodes[round].current_term, (round + 1) as u64);
        let key = format!("round{}_key", round + 1);
        assert!(c.set(&key, &format!("round{}_value", round + 1)));
        assert!(c.consistent(&key));
        c.failed[round] = true;
    }
    c.failed = vec![false; 5];
    assert!(c.heartbeats(2));
    assert!(c.single_leader());
}

#[test]
fn test_high_load_scenario() {
    let mut c = Cluster::new(5);
    assert!(c.elect(2));
    for i in 0..20 {
        assert!(c.set(&format!("load_key_{}", i), &format!("load_value_{}", i)));
    }
    assert_eq!(c.nodes[2].log.len(), 20);
    assert!(c.consistent("load_key_7"));
}

#[test]
fn test_membership_change_scenario() {
    let mut c = Cluster::new(3);
    assert!(c.elect(0));
    assert!(c.set("membership_key", "initial_value"));
    assert!(c.set("membership_key", "after_change_value"));
    assert!(c.heartbeats(0));
    assert!(c.consistent("membership_key"));
    assert_eq!(c.nodes[0].get("membership_key".to_string()), Ok("after_change_value".to_string()));
}

#[test]
fn test_log_conflict_resolution_scenario() {
    let mut c = Cluster::new(5);
    assert!(c.elect(0));
    assert!(c.set("conflict_key", "original_value"));
    c.failed = vec![false, false, true, true, true];
    let partition2_has_leader = [2usize, 3, 4].iter().any(|&i| c.nodes[i].is_leader());
    assert!(!partition2_has_leader);
    c.failed = vec![false; 5];
    assert!(c.single_leader());
    assert!(c.set("conflict_key", "final_value"));
    assert!(c.heartbeats(0));
    assert!(c.consistent("conflict_key"));
    assert_eq!(c.nodes[0].get("conflict_key".to_string()), Ok("final_value".to_string()));
}

#[test]
fn test_follower_crash_recovery_scenario() {
    let mut c = Cluster::new(5);
    assert!(c.elect(0));
    assert!(c.set("follower_test", "initial_value"));
    c.failed[1] = true;
    let keys = ["f_key1", "f_key2", "f_key3"];
    let values = ["f_value1", "f_value2", "f_value3"];
    for i in 0..keys.len() {
        assert!(c.set(keys[i], values[i]));
    }
    c.failed[2] = true;
    assert!(c.set("f_key4", "f_value4"));
    c.failed[1] = false;
    assert!(c.heartbeats(0));
    for key in keys.iter().chain(&["f_key4"]) {
        assert_eq!(c.nodes[1].get(key.to_string()), c.nodes[0].get(key.to_string()));
    }
    assert_eq!(c.nodes[1].get("f_key4".to_string()), Ok("f_value4".to_string()));
    c.failed[2] = false;
    assert!(c.set("final_key", "final_value"));
    assert!(c.heartbeats(0));
    for i in 0..5 {
        assert_eq!(c.nodes[i].get("final_key".to_string()), Ok("final_value".to_string()));
    }
    assert!(c.consistent("final_key"));
}

#[test]
fn reads_agree_across_nodes() {
    let mut c = Cluster::new(3);
    assert!(c.elect(0));
    assert!(c.set("key1", "value1"));
    assert!(c.heartbeats(0));
    assert_eq!(c.nodes[1].get("key1".to_string()), Ok("value1".to_string()));
    assert!(c.set("key3", "initial_value"));
    assert!(c.set("key3", "new_value"));
    assert!(c.heartbeats(0));
    for i in 0..3 {
        assert_eq!(c.nodes[i].get("key3".to_string()), Ok("new_value".to_string()));
        assert_eq!(c.nodes[i].commit_index, 3);
    }
}

#[test]
fn keys_with_spaces_split_on_followers() {
    let mut c = Cluster::new(3);
    assert!(c.elect(0));
    assert!(c.set("a b", "c"));
    assert!(c.heartbeats(0));
    assert_eq!(c.nodes[0].get("a b".to_string()), Ok("c".to_string()));
    assert_eq!(c.nodes[1].get("a".to_string()), Ok("b c".to_string()));
    assert!(c.nodes[1].get("a b".to_string()).is_err());
}
