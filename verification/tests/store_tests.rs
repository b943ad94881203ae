use etcd::kv::KvStore;
use etcd::raft::command::{Command, CommandError, CommandType};
use etcd::raft::log::LogEntry;
use etcd::raft::raft_service::{convert_log_entry, convert_to_proto_log_entry};
use etcd::raft::rpc::LogEntry as WireLogEntry;
use etcd::raft::testing::{keep_waiting_for_leader, MAX_LEADER_WAIT_ATTEMPTS, first_leader, leader_count, partition_failures, single_leader, values_consistent, TestScenario};
use etcd::raft::node::NodeState;
use etcd::rpc::{EtcdRpcImpl, RpcError};

#[test]
fn kv_store_basics() {
    let mut s = KvStore::new();
    assert_eq!(s.insert("a".to_string(), "1".to_string()), None);
    assert_eq!(s.insert("b".to_string(), "2".to_string()), None);
    assert_eq!(s.insert("a".to_string(), "3".to_string()), Some("1".to_string()));
    assert_eq!(s.len(), 2);
    assert_eq!(s.get(&"a".to_string()), Some("3".to_string()));
    assert!(s.contains_key(&"b".to_string()));
    assert_eq!(s.remove(&"b".to_string()), Some("2".to_string()));
    assert_eq!(s.remove(&"b".to_string()), None);
    assert_eq!(s.get(&"b".to_string()), None);
    assert_eq!(s.len(), 1);
}

#[test]
fn kv_store_pairs() {
    let pairs = vec![
        ("x".to_string(), "1".to_string()),
        ("y".to_string(), "2".to_string()),
        ("x".to_string(), "3".to_string()),
    ];
    let s = KvStore::from_pairs(&pairs);
    assert_eq!(s.len(), 2);
    assert_eq!(s.get(&"x".to_string()), Some("3".to_string()));
    let back = s.to_pairs();
    assert_eq!(back, vec![("x".to_string(), "3".to_string()), ("y".to_string(), "2".to_string())]);
}

#[test]
fn kv_store_pairs_round_trip() {
    let mut s = KvStore::new();
    s.insert("b".to_string(), "2".to_string());
    s.insert("a".to_string(), "1".to_string());
    s.insert("b".to_string(), "20".to_string());
    s.remove(&"a".to_string());
    s.insert("c".to_string(), "3".to_string());
    let rebuilt = KvStore::from_pairs(&s.to_pairs());
    assert_eq!(rebuilt.len(), s.len());
    for key in ["a", "b", "c", "d"] {
        assert_eq!(rebuilt.get(&key.to_string()), s.get(&key.to_string()));
    }
    assert_eq!(rebuilt.get(&"b".to_string()), Some("20".to_string()));
    assert_eq!(rebuilt.get(&"a".to_string()), None);
}

#[test]
fn rpc_store() {
    let mut svc = EtcdRpcImpl::new();
    let kv = svc.set("k".to_string(), "v".to_string()).unwrap();
    assert_eq!((kv.key.as_str(), kv.value.as_str()), ("k", "v"));
    let got = svc.get("k".to_string()).unwrap();
    assert_eq!(got.value, "v");
    assert_eq!(svc.get("missing".to_string()).err(), Some(RpcError::KeyNotFound));
    assert_eq!(RpcError::KeyNotFound.message(), "Key not found");
    let gone = svc.del("k".to_string()).unwrap();
    assert_eq!(gone.value, "v");
    assert_eq!(svc.del("k".to_string()).err(), Some(RpcError::KeyNotFound));
    assert_eq!(svc.get("k".to_string()).err(), Some(RpcError::KeyNotFound));
}

#[test]
fn commands() {
    let c = Command::new_set("k".to_string(), "v".to_string());
    assert_eq!(c.command_type, CommandType::SetValue);
    assert_eq!(c.value.as_deref(), Some("v"));
    let g = Command::new_get("k".to_string());
    assert_eq!(g.command_type, CommandType::Get);
    assert!(g.value.is_none());
    let d = Command::new_del("k".to_string());
    assert_eq!(d.command_type, CommandType::Del);
    let cc = Command::new_config_change("[]".to_string());
    assert_eq!(cc.command_type, CommandType::ConfigChange);
    assert_eq!(cc.key, "config");
    assert_eq!(cc.value.as_deref(), Some("[]"));
    let n = Command::new(CommandType::Get, "z".to_string(), Some("w".to_string()));
    assert_eq!(n.key, "z");
    assert_eq!(CommandError::InvalidCommand.message(), "Invalid command");
    assert_eq!(CommandError::MissingKey.message(), "Missing key");
    assert_eq!(CommandError::MissingValue.message(), "Missing value");
}

#[test]
fn log_entry_conversions() {
    let e = LogEntry::new(3, 9, "SET a b".to_string());
    let w = convert_to_proto_log_entry(&e);
    assert_eq!((w.term, w.index, w.command.as_str()), (3, 9, "SET a b"));
    let back = convert_log_entry(&WireLogEntry { term: 4, index: 2, command: "DEL x".to_string() });
    assert_eq!((back.term, back.index, back.command.as_str()), (4, 2, "DEL x"));
    let d = e.duplicate();
    assert_eq!(d.command, e.command);
}

#[test]
fn cluster_checks() {
    assert!(values_consistent(&vec![]));
    assert!(values_consistent(&vec!["a".to_string(), "a".to_string()]));
    assert!(!values_consistent(&vec!["a".to_string(), "b".to_string()]));
    let states = vec![NodeState::Leader, NodeState::Follower, NodeState::Leader];
    assert_eq!(leader_count(&states, &vec![false, false, false]), 2);
    assert!(!single_leader(&states, &vec![false, false, false]));
    assert!(single_leader(&states, &vec![true, false, false]));
    assert_eq!(first_leader(&states, &vec![true, false, false]), Some(2));
    assert_eq!(first_leader(&states, &vec![true, false, true]), None);
    assert_eq!(partition_failures(5, &vec![3, 4, 9]), vec![false, false, false, true, true]);
}

#[test]
fn scenario_names() {
    assert_eq!(TestScenario::from_name("election"), Some(TestScenario::BasicElection));
    assert_eq!(TestScenario::from_name("log_conflict"), Some(TestScenario::LogConflictResolution));
    assert_eq!(TestScenario::from_name("random_failures"), Some(TestScenario::RandomFailureTest));
    assert_eq!(TestScenario::from_name("all"), None);
    assert_eq!(TestScenario::from_name("nope"), None);
}

#[test]
fn leader_wait_rule() {
    assert_eq!(MAX_LEADER_WAIT_ATTEMPTS, 100);
    assert!(keep_waiting_for_leader(1, Some(10), 5000));
    assert!(keep_waiting_for_leader(99, Some(5000), 5000));
    assert!(!keep_waiting_for_leader(100, Some(10), 5000));
    assert!(!keep_waiting_for_leader(1, Some(5001), 5000));
    assert!(!keep_waiting_for_leader(1, None, 5000));
}
