use super::node::NodeState;
use vstd::prelude::*;

verus! {

/// The cluster scenarios the test driver runs.
#[derive(Debug, Clone, Copy, PartialEq, Eq, Structural)]
pub enum TestScenario {
    BasicElection,
    LeaderFailure,
    NetworkPartition,
    LogReplication,
    MembershipChange,
    LogConflictResolution,
    FollowerCrashRecovery,
    MultipleElections,
    SafetyTest,
    HighLoadTest,
    RandomFailureTest,
}

/// The scenario a command-line name selects.
pub open spec fn scenario_named(name: Seq<char>) -> Option<TestScenario> {
    if name == "election"@ {
        Some(TestScenario::BasicElection)
    } else if name == "leader_failure"@ {
        Some(TestScenario::LeaderFailure)
    } else if name == "network_partition"@ {
        Some(TestScenario::NetworkPartition)
    } else if name == "log_replication"@ {
        Some(TestScenario::LogReplication)
    } else if name == "membership_change"@ {
        Some(TestScenario::MembershipChange)
    } else if name == "log_conflict"@ {
        Some(TestScenario::LogConflictResolution)
    } else if name == "follower_crash"@ {
        Some(TestScenario::FollowerCrashRecovery)
    } else if name == "multiple_elections"@ {
        Some(TestScenario::MultipleElections)
    } else if name == "safety"@ {
        Some(TestScenario::SafetyTest)
    } else if name == "high_load"@ {
        Some(TestScenario::HighLoadTest)
    } else if name == "random_failures"@ {
        Some(TestScenario::RandomFailureTest)
    } else {
        None
    }
}

fn same_text(a: &str, b: &str) -> (eq: bool)
    ensures
        eq == (a@ == b@),
{
    a.to_string() == b.to_string()
}

impl TestScenario {
    /// The scenario a command-line name selects, if any.
    pub fn from_name(name: &str) -> (s: Option<TestScenario>)
        ensures
            s == scenario_named(name@),
    {
        if same_text(name, "election") {
            Some(TestScenario::BasicElection)
        } else if same_text(name, "leader_failure") {
            Some(TestScenario::LeaderFailure)
        } else if same_text(name, "network_partition") {
            Some(TestScenario::NetworkPartition)
        } else if same_text(name, "log_replication") {
            Some(TestScenario::LogReplication)
        } else if same_text(name, "membership_change") {
            Some(TestScenario::MembershipChange)
        } else if same_text(name, "log_conflict") {
            Some(TestScenario::LogConflictResolution)
        } else if same_text(name, "follower_crash") {
            Some(TestScenario::FollowerCrashRecovery)
        } else if same_text(name, "multiple_elections") {
            Some(TestScenario::MultipleElections)
        } else if same_text(name, "safety") {
            Some(TestScenario::SafetyTest)
        } else if same_text(name, "high_load") {
            Some(TestScenario::HighLoadTest)
        } else if same_text(name, "random_failures") {
            Some(TestScenario::RandomFailureTest)
        } else {
            None
        }
    }
}

/// Whether all values read from the nodes agree.
pub fn values_consistent(values: &Vec<String>) -> (ok: bool)
    ensures
        ok == forall|i: int| 0 <= i < values@.len() ==> (#[trigger] values@[i])@ == values@[0]@,
{
    if values.len() == 0 {
        return true;
    }
    let mut i: usize = 0;
    while i < values.len()
        invariant
            i <= values@.len(),
            values@.len() > 0,
            forall|j: int| 0 <= j < i ==> (#[trigger] values@[j])@ == values@[0]@,
        decreases values@.len() - i,
    {
        if values[i] != values[0] {
            return false;
        }
        i = i + 1;
    }
    true
}

/// The number of live leaders among the first `n` nodes.
pub open spec fn count_live_leaders(states: Seq<NodeState>, failed: Seq<bool>, n: int) -> nat
    decreases n,
{
    if n <= 0 {
        0
    } else {
        count_live_leaders(states, failed, n - 1) + if !failed[n - 1] && states[n - 1]
            == NodeState::Leader {
            1nat
        } else {
            0nat
        }
    }
}

/// The first node that is up and leads, if any.
pub fn first_leader(states: &Vec<NodeState>, failed: &Vec<bool>) -> (leader: Option<usize>)
    requires
        states@.len() == failed@.len(),
    ensures
        match leader {
            Some(i) => i < states@.len() && !failed@[i as int] && states@[i as int]
                == NodeState::Leader && forall|j: int|
                0 <= j < i ==> !(!failed@[j] && #[trigger] states@[j] == NodeState::Leader),
            None => forall|j: int|
                0 <= j < states@.len() ==> !(!failed@[j] && #[trigger] states@[j]
                    == NodeState::Leader),
        },
{
    let mut i: usize = 0;
    while i < states.len()
        invariant
            i <= states@.len(),
            states@.len() == failed@.len(),
            forall|j: int|
                0 <= j < i ==> !(!failed@[j] && #[trigger] states@[j] == NodeState::Leader),
        decreases states@.len() - i,
    {
        if !failed[i] && states[i] == NodeState::Leader {
            return Some(i);
        }
        i = i + 1;
    }
    None
}

/// The number of nodes that are up and lead.
pub fn leader_count(states: &Vec<NodeState>, failed: &Vec<bool>) -> (n: usize)
    requires
        states@.len() == failed@.len(),
    ensures
        n == count_live_leaders(states@, failed@, states@.len() as int),
{
    let mut n: usize = 0;
    let mut i: usize = 0;
    while i < states.len()
        invariant
            i <= states@.len(),
            states@.len() == failed@.len(),
            n == count_live_leaders(states@, failed@, i as int),
            n <= i,
        decreases states@.len() - i,
    {
        if !failed[i] && states[i] == NodeState::Leader {
            n = n + 1;
        }
        i = i + 1;
    }
    n
}

/// Whether at most one node that is up leads.
pub fn single_leader(states: &Vec<NodeState>, failed: &Vec<bool>) -> (ok: bool)
    requires
        states@.len() == failed@.len(),
    ensures
        ok == (count_live_leaders(states@, failed@, states@.len() as int) <= 1),
{
    leader_count(states, failed) <= 1
}

/// The failure marks of a partition: the nodes of `group2` are cut off, all
/// others are up.
pub fn partition_failures(node_count: usize, group2: &Vec<usize>) -> (failed: Vec<bool>)
    ensures
        failed@.len() == node_count,
        forall|i: int| 0 <= i < node_count ==> #[trigger] failed@[i] == group2@.contains(i as usize),
{
    let mut failed: Vec<bool> = Vec::new();
    let mut i: usize = 0;
    while i < node_count
        invariant
            i <= node_count,
            failed@.len() == i,
            forall|j: int| 0 <= j < i ==> !#[trigger] failed@[j],
        decreases node_count - i,
    {
        failed.push(false);
        i = i + 1;
    }
    let mut k: usize = 0;
    while k < group2.len()
        invariant
            k <= group2@.len(),
            failed@.len() == node_count,
            forall|j: int|
                0 <= j < node_count ==> #[trigger] failed@[j] == group2@.subrange(
                    0,
                    k as int,
                ).contains(j as usize),
        decreases group2@.len() - k,
    {
        let idx = group2[k];
        if idx < node_count {
            failed.set(idx, true);
        }
        proof {
            let s0 = group2@.subrange(0, k as int);
            let s1 = group2@.subrange(0, k + 1);
            assert(s1 =~= s0.push(idx));
            assert forall|j: int| 0 <= j < node_count implies #[trigger] failed@[j] == s1.contains(
                j as usize,
            ) by {
                if s1.contains(j as usize) && j as usize != idx {
                    let t = choose|t: int| 0 <= t < s1.len() && s1[t] == j as usize;
                    assert(s0[t] == j as usize);
                }
                if s0.contains(j as usize) {
                    let t = choose|t: int| 0 <= t < s0.len() && s0[t] == j as usize;
                    assert(s1[t] == j as usize);
                }
                if j as usize == idx {
                    assert(s1[k as int] == idx);
                }
            }
        }
        k = k + 1;
    }
    proof {
        assert(group2@.subrange(0, group2@.len() as int) =~= group2@);
    }
    failed
}

/// Most looks a wait for a leader makes.
pub const MAX_LEADER_WAIT_ATTEMPTS: u64 = 100;

/// Whether a wait for a leader goes on after `attempts` looks found none,
/// `elapsed_millis` after it began (`None` where the clock reads earlier than
/// the start): only while fewer than [`MAX_LEADER_WAIT_ATTEMPTS`] looks were
/// made and the time, cut to 64 bits, is within `timeout_ms`.
pub fn keep_waiting_for_leader(attempts: u64, elapsed_millis: Option<u128>, timeout_ms: u64) -> (b:
    bool)
    ensures
        b == (attempts < MAX_LEADER_WAIT_ATTEMPTS && match elapsed_millis {
            Some(m) => (m as u64) <= timeout_ms,
            None => false,
        }),
{
    if attempts >= MAX_LEADER_WAIT_ATTEMPTS {
        return false;
    }
    match elapsed_millis {
        Some(m) => (m as u64) <= timeout_ms,
        None => false,
    }
}

} // verus!
