use super::laws::{lemma_one_leader_per_term, voters_for};
use super::node::{
    append_step, candidate_step, election_result, majority, observe_term, timeout_step, vote_step,
    NodeState, NodeView, TimeoutAction,
};
use super::rpc::{AppendEntriesRequest, RequestVoteRequest};
use vstd::prelude::*;
use vstd::set_lib::lemma_len_subset;

verus! {

/// A cluster of nodes with fixed membership, seen as a value, together with
/// what it has done so far: the votes given in each term and the node that
/// became leader in each term.
pub struct ClusterView {
    /// The ids of the members.
    pub members: Set<u64>,
    /// Each member's node.
    pub nodes: Map<u64, NodeView>,
    /// For each term and voter that gave its vote in that term, the candidate
    /// that got it.
    pub votes: Map<(u64, u64), u64>,
    /// For each term in which a node became leader, that node.
    pub leaders: Map<u64, u64>,
}

/// One thing that one member of a cluster does.
pub enum ClusterStep {
    /// The node answers a vote request.
    Vote(u64, RequestVoteRequest),
    /// The node answers an append request.
    Append(u64, AppendEntriesRequest),
    /// The node takes in an answer or a request that carries a term.
    Observe(u64, u64),
    /// The node starts an election.
    StartElection(u64),
    /// The node, a candidate, counts the votes of the given voters, each of
    /// which gave it its vote of the node's term.
    Conclude(u64, Set<u64>),
    /// The node's heartbeat timer fires; whether its election timeout has passed.
    Timeout(u64, bool),
    /// The node changes only its log, store, indexes or configuration record:
    /// not its term, role, vote or members.
    Local(u64, NodeView),
}

/// Whether the cluster is made of its members, each knowing all of them.
pub open spec fn well_formed(c: ClusterView) -> bool {
    &&& c.members.finite()
    &&& c.nodes.dom() == c.members
    &&& forall|n: u64|
        #[trigger] c.members.contains(n) ==> c.nodes[n].uid == n && c.nodes[n].members.dom()
            == c.members
}

/// The votes given in term `t`: each voter mapped to its candidate.
pub open spec fn votes_in(votes: Map<(u64, u64), u64>, t: u64) -> Map<u64, u64> {
    Map::new(|v: u64| votes.contains_key((t, v)), |v: u64| votes[(t, v)])
}

/// A cluster where nothing has happened yet: no votes, no leaders, no node leads.
pub open spec fn initial(c: ClusterView) -> bool {
    &&& well_formed(c)
    &&& c.votes == Map::<(u64, u64), u64>::empty()
    &&& c.leaders == Map::<u64, u64>::empty()
    &&& forall|n: u64| #[trigger] c.members.contains(n) ==> c.nodes[n].state != NodeState::Leader
}

/// The cluster after one step, or `None` where the step cannot be taken.
pub open spec fn next(c: ClusterView, step: ClusterStep) -> Option<ClusterView> {
    match step {
        ClusterStep::Vote(n, req) => {
            if !c.members.contains(n) {
                None
            } else {
                let (s, resp) = vote_step(c.nodes[n], req);
                Some(
                    ClusterView {
                        nodes: c.nodes.insert(n, s),
                        votes: if resp.vote_granted {
                            c.votes.insert((req.term, n), req.candidate_id)
                        } else {
                            c.votes
                        },
                        ..c
                    },
                )
            }
        },
        ClusterStep::Append(n, req) => {
            if !c.members.contains(n) {
                None
            } else {
                Some(ClusterView { nodes: c.nodes.insert(n, append_step(c.nodes[n], req).0), ..c })
            }
        },
        ClusterStep::Observe(n, t) => {
            if !c.members.contains(n) {
                None
            } else {
                Some(ClusterView { nodes: c.nodes.insert(n, observe_term(c.nodes[n], t)), ..c })
            }
        },
        ClusterStep::StartElection(n) => {
            if !c.members.contains(n) || c.nodes[n].term == u64::MAX {
                None
            } else {
                let s = candidate_step(c.nodes[n]);
                Some(
                    ClusterView {
                        nodes: c.nodes.insert(n, s),
                        votes: c.votes.insert((s.term, n), n),
                        ..c
                    },
                )
            }
        },
        ClusterStep::Conclude(n, voters) => {
            if !c.members.contains(n) || c.nodes[n].state != NodeState::Candidate
                || !voters.subset_of(c.members) || !(forall|v: u64|
                #[trigger] voters.contains(v) ==> c.votes.contains_key((c.nodes[n].term, v))
                    && c.votes[(c.nodes[n].term, v)] == n) {
                None
            } else {
                let s = election_result(c.nodes[n], voters.len());
                Some(
                    ClusterView {
                        nodes: c.nodes.insert(n, s),
                        leaders: if s.state == NodeState::Leader {
                            c.leaders.insert(s.term, n)
                        } else {
                            c.leaders
                        },
                        ..c
                    },
                )
            }
        },
        ClusterStep::Timeout(n, timed_out) => {
            if !c.members.contains(n) {
                None
            } else {
                let (s, action) = timeout_step(c.nodes[n], timed_out);
                if action == TimeoutAction::BecameLeader {
                    if c.nodes[n].term == u64::MAX {
                        None
                    } else {
                        Some(
                            ClusterView {
                                nodes: c.nodes.insert(n, s),
                                votes: c.votes.insert((s.term, n), n),
                                leaders: c.leaders.insert(s.term, n),
                                ..c
                            },
                        )
                    }
                } else {
                    Some(ClusterView { nodes: c.nodes.insert(n, s), ..c })
                }
            }
        },
        ClusterStep::Local(n, s) => {
            if !c.members.contains(n) || s.uid != c.nodes[n].uid || s.term != c.nodes[n].term
                || s.state != c.nodes[n].state || s.voted_for != c.nodes[n].voted_for
                || s.members != c.nodes[n].members {
                None
            } else {
                Some(ClusterView { nodes: c.nodes.insert(n, s), ..c })
            }
        },
    }
}

/// The cluster after the steps, one after another, or `None` where one of
/// them cannot be taken.
pub open spec fn run(c: ClusterView, steps: Seq<ClusterStep>) -> Option<ClusterView>
    decreases steps.len(),
{
    if steps.len() == 0 {
        Some(c)
    } else {
        match run(c, steps.drop_last()) {
            Some(c1) => next(c1, steps.last()),
            None => None,
        }
    }
}

/// What every cluster reached from an initial one satisfies:
/// - a recorded vote of term `t` by `v` lies in `v`'s past or present term,
///   and in its present term it is the vote `v` holds;
/// - the node recorded as leader of a term holds the votes of a majority of
///   the members in that term;
/// - every node that leads is the one recorded as leader of its term.
pub open spec fn inv(c: ClusterView) -> bool {
    &&& well_formed(c)
    &&& forall|k: (u64, u64)|
        #[trigger] c.votes.contains_key(k) ==> c.members.contains(k.1) && c.nodes[k.1].term >= k.0
            && (c.nodes[k.1].term == k.0 ==> c.nodes[k.1].voted_for == Some(c.votes[k]))
    &&& forall|t: u64|
        #[trigger] c.leaders.contains_key(t) ==> voters_for(votes_in(c.votes, t), c.leaders[t]).len()
            >= majority(c.members.len())
    &&& forall|n: u64|
        #[trigger] c.members.contains(n) && c.nodes[n].state == NodeState::Leader
            ==> c.leaders.contains_key(c.nodes[n].term) && c.leaders[c.nodes[n].term] == n
}

/// Replacing one member's node by one with the same id and members keeps the
/// cluster well formed.
proof fn lemma_wf_insert(c: ClusterView, c2: ClusterView, n: u64)
    requires
        well_formed(c),
        c.members.contains(n),
        c2.members == c.members,
        c2.nodes == c.nodes.insert(n, c2.nodes[n]),
        c2.nodes[n].uid == n,
        c2.nodes[n].members == c.nodes[n].members,
    ensures
        well_formed(c2),
{
    assert(c2.nodes.dom() =~= c.members);
}

/// The voters of a term are members.
proof fn lemma_voters_are_members(c: ClusterView, t: u64, cand: u64)
    requires
        inv(c),
    ensures
        votes_in(c.votes, t).dom().subset_of(c.members),
        voters_for(votes_in(c.votes, t), cand).subset_of(c.members),
        voters_for(votes_in(c.votes, t), cand).finite(),
{
    assert forall|v: u64| #[trigger] votes_in(c.votes, t).dom().contains(v) implies c.members.contains(
        v,
    ) by {
        assert(c.votes.contains_key((t, v)));
    }
    lemma_len_subset(voters_for(votes_in(c.votes, t), cand), c.members);
}

/// Adding votes, and changing none, never makes a candidate's voters fewer.
proof fn lemma_more_votes(c: ClusterView, votes2: Map<(u64, u64), u64>, t: u64, cand: u64)
    requires
        inv(c),
        forall|k: (u64, u64)| #[trigger] c.votes.contains_key(k) ==> votes2.contains_key(k)
            && votes2[k] == c.votes[k],
        forall|k: (u64, u64)| #[trigger] votes2.contains_key(k) ==> c.members.contains(k.1),
    ensures
        voters_for(votes_in(votes2, t), cand).len() >= voters_for(votes_in(c.votes, t), cand).len(),
{
    let a = voters_for(votes_in(c.votes, t), cand);
    let b = voters_for(votes_in(votes2, t), cand);
    assert forall|v: u64| #[trigger] b.contains(v) implies c.members.contains(v) by {
        assert(votes2.contains_key((t, v)));
    }
    assert(b.subset_of(c.members));
    lemma_len_subset(b, c.members);
    assert forall|v: u64| #[trigger] a.contains(v) implies b.contains(v) by {
        assert(c.votes.contains_key((t, v)));
    }
    lemma_len_subset(a, b);
}

/// Where a node already leads in term `t` by the votes of a majority, a node
/// that gathers a majority of votes in `t` is that node.
proof fn lemma_same_leader(c: ClusterView, t: u64, n: u64)
    requires
        inv(c),
        c.leaders.contains_key(t),
        voters_for(votes_in(c.votes, t), n).len() >= majority(c.members.len()),
    ensures
        c.leaders[t] == n,
{
    lemma_voters_are_members(c, t, n);
    lemma_one_leader_per_term(c.members, votes_in(c.votes, t), c.leaders[t], n);
}

proof fn lemma_vote_keeps_inv(c: ClusterView, n: u64, req: RequestVoteRequest)
    requires
        inv(c),
        c.members.contains(n),
    ensures
        inv(next(c, ClusterStep::Vote(n, req)).unwrap()),
{
    let c2 = next(c, ClusterStep::Vote(n, req)).unwrap();
    let s = c.nodes[n];
    let (s2, resp) = vote_step(s, req);
    if resp.vote_granted {
        let k = (req.term, n);
        if c.votes.contains_key(k) {
            assert(c.votes[k] == req.candidate_id);
            assert(c2.votes == c.votes);
        }
        assert forall|kk: (u64, u64)| #[trigger] c2.votes.contains_key(kk) implies c.members.contains(
            kk.1,
        ) by {
            if kk != k {
                assert(c.votes.contains_key(kk));
            }
        }
        assert forall|t: u64| #[trigger] c2.leaders.contains_key(t) implies voters_for(
            votes_in(c2.votes, t),
            c2.leaders[t],
        ).len() >= majority(c2.members.len()) by {
            lemma_more_votes(c, c2.votes, t, c.leaders[t]);
        }
    }
    lemma_wf_insert(c, c2, n);
}

proof fn lemma_observe_keeps_inv(c: ClusterView, n: u64, s2: NodeView)
    requires
        inv(c),
        c.members.contains(n),
        s2.uid == c.nodes[n].uid,
        s2.members == c.nodes[n].members,
        s2.term >= c.nodes[n].term,
        s2.term == c.nodes[n].term ==> s2.voted_for == c.nodes[n].voted_for && s2.state
            == c.nodes[n].state,
        s2.term > c.nodes[n].term ==> s2.state == NodeState::Follower,
    ensures
        inv(ClusterView { nodes: c.nodes.insert(n, s2), ..c }),
{
    let c2 = ClusterView { nodes: c.nodes.insert(n, s2), ..c };
    lemma_wf_insert(c, c2, n);
}

proof fn lemma_start_keeps_inv(c: ClusterView, n: u64)
    requires
        inv(c),
        c.members.contains(n),
        c.nodes[n].term < u64::MAX,
    ensures
        inv(next(c, ClusterStep::StartElection(n)).unwrap()),
{
    let c2 = next(c, ClusterStep::StartElection(n)).unwrap();
    let s2 = candidate_step(c.nodes[n]);
    let k = (s2.term, n);
    assert(!c.votes.contains_key(k));
    assert forall|kk: (u64, u64)| #[trigger] c2.votes.contains_key(kk) implies c.members.contains(
        kk.1,
    ) by {
        if kk != k {
            assert(c.votes.contains_key(kk));
        }
    }
    assert forall|t: u64| #[trigger] c2.leaders.contains_key(t) implies voters_for(
        votes_in(c2.votes, t),
        c2.leaders[t],
    ).len() >= majority(c2.members.len()) by {
        lemma_more_votes(c, c2.votes, t, c.leaders[t]);
    }
    lemma_wf_insert(c, c2, n);
}

proof fn lemma_conclude_keeps_inv(c: ClusterView, n: u64, voters: Set<u64>)
    requires
        inv(c),
        next(c, ClusterStep::Conclude(n, voters)) is Some,
    ensures
        inv(next(c, ClusterStep::Conclude(n, voters)).unwrap()),
{
    let c2 = next(c, ClusterStep::Conclude(n, voters)).unwrap();
    let s = c.nodes[n];
    let t = s.term;
    let s2 = election_result(s, voters.len());
    assert(s.members.len() == c.members.len());
    if s2.state == NodeState::Leader {
        let w = voters_for(votes_in(c.votes, t), n);
        assert forall|v: u64| #[trigger] voters.contains(v) implies w.contains(v) by {}
        lemma_voters_are_members(c, t, n);
        lemma_len_subset(voters, w);
        if c.leaders.contains_key(t) {
            lemma_same_leader(c, t, n);
        }
        assert forall|m: u64|
            #[trigger] c2.members.contains(m) && c2.nodes[m].state == NodeState::Leader implies c2.leaders.contains_key(
            c2.nodes[m].term,
        ) && c2.leaders[c2.nodes[m].term] == m by {
            if m != n && c2.nodes[m].term == t {
                assert(c.nodes[m].state == NodeState::Leader);
            }
        }
    }
    lemma_wf_insert(c, c2, n);
}

proof fn lemma_timeout_keeps_inv(c: ClusterView, n: u64, timed_out: bool)
    requires
        inv(c),
        next(c, ClusterStep::Timeout(n, timed_out)) is Some,
    ensures
        inv(next(c, ClusterStep::Timeout(n, timed_out)).unwrap()),
{
    let c2 = next(c, ClusterStep::Timeout(n, timed_out)).unwrap();
    let s = c.nodes[n];
    let (s2, action) = timeout_step(s, timed_out);
    if action == TimeoutAction::BecameLeader {
        let t = s2.term;
        let k = (t, n);
        assert(!c.votes.contains_key(k));
        assert(c.members =~= set![n]) by {
            assert(s.members.dom() == set![n]);
        }
        assert forall|kk: (u64, u64)| #[trigger] c2.votes.contains_key(kk) implies c.members.contains(
            kk.1,
        ) by {
            if kk != k {
                assert(c.votes.contains_key(kk));
            }
        }
        // Nobody voted in the new term before: no leader of it was recorded.
        if c.leaders.contains_key(t) {
            let w = voters_for(votes_in(c.votes, t), c.leaders[t]);
            lemma_voters_are_members(c, t, c.leaders[t]);
            assert forall|v: u64| !w.contains(v) by {
                if w.contains(v) {
                    assert(c.votes.contains_key((t, v)));
                }
            }
            assert(w =~= Set::<u64>::empty());
            assert(c.members.len() == 1);
        }
        assert forall|tt: u64| #[trigger] c2.leaders.contains_key(tt) implies voters_for(
            votes_in(c2.votes, tt),
            c2.leaders[tt],
        ).len() >= majority(c2.members.len()) by {
            lemma_more_votes(c, c2.votes, tt, c2.leaders[tt]);
            if tt == t {
                let w2 = voters_for(votes_in(c2.votes, t), n);
                assert(w2.contains(n));
                assert forall|v: u64| #[trigger] w2.contains(v) implies c.members.contains(v) by {
                    assert(c2.votes.contains_key((t, v)));
                }
                lemma_len_subset(w2, c.members);
                assert(set![n].subset_of(w2));
                lemma_len_subset(set![n], w2);
                assert(set![n].len() == 1);
                assert(c.members.len() == 1);
            }
        }
    }
    lemma_wf_insert(c, c2, n);
}

/// Every step keeps the invariant.
pub proof fn lemma_step_keeps_inv(c: ClusterView, step: ClusterStep)
    requires
        inv(c),
        next(c, step) is Some,
    ensures
        inv(next(c, step).unwrap()),
        forall|t: u64| #[trigger] c.leaders.contains_key(t) ==> next(c, step).unwrap().leaders.contains_key(t)
            && next(c, step).unwrap().leaders[t] == c.leaders[t],
{
    match step {
        ClusterStep::Vote(n, req) => {
            lemma_vote_keeps_inv(c, n, req);
        },
        ClusterStep::Append(n, req) => {
            lemma_observe_keeps_inv(c, n, append_step(c.nodes[n], req).0);
        },
        ClusterStep::Observe(n, t) => {
            lemma_observe_keeps_inv(c, n, observe_term(c.nodes[n], t));
        },
        ClusterStep::StartElection(n) => {
            lemma_start_keeps_inv(c, n);
        },
        ClusterStep::Conclude(n, voters) => {
            lemma_conclude_keeps_inv(c, n, voters);
            let s2 = election_result(c.nodes[n], voters.len());
            if s2.state == NodeState::Leader && c.leaders.contains_key(s2.term) {
                let w = voters_for(votes_in(c.votes, s2.term), n);
                assert forall|v: u64| #[trigger] voters.contains(v) implies w.contains(v) by {}
                lemma_voters_are_members(c, s2.term, n);
                lemma_len_subset(voters, w);
                assert(c.nodes[n].members.len() == c.members.len());
                lemma_same_leader(c, s2.term, n);
            }
        },
        ClusterStep::Timeout(n, timed_out) => {
            lemma_timeout_keeps_inv(c, n, timed_out);
            let (s2, action) = timeout_step(c.nodes[n], timed_out);
            if action == TimeoutAction::BecameLeader && c.leaders.contains_key(s2.term) {
                let t = s2.term;
                let w = voters_for(votes_in(c.votes, t), c.leaders[t]);
                lemma_voters_are_members(c, t, c.leaders[t]);
                assert(c.members =~= set![n]) by {
                    assert(c.nodes[n].members.dom() == set![n]);
                }
                assert forall|v: u64| !w.contains(v) by {
                    if w.contains(v) {
                        assert(c.votes.contains_key((t, v)));
                    }
                }
                assert(w =~= Set::<u64>::empty());
                assert(c.members.len() == 1);
            }
        },
        ClusterStep::Local(n, s) => {
            lemma_observe_keeps_inv(c, n, s);
        },
    }
}

/// An initial cluster satisfies the invariant.
pub proof fn lemma_initial_inv(c: ClusterView)
    requires
        initial(c),
    ensures
        inv(c),
{
}

/// Every cluster reached from an initial one satisfies the invariant, and
/// keeps each leader recorded along the way.
pub proof fn lemma_run_keeps_inv(c0: ClusterView, steps: Seq<ClusterStep>)
    requires
        initial(c0),
        run(c0, steps) is Some,
    ensures
        inv(run(c0, steps).unwrap()),
    decreases steps.len(),
{
    if steps.len() == 0 {
        lemma_initial_inv(c0);
    } else {
        lemma_run_keeps_inv(c0, steps.drop_last());
        lemma_step_keeps_inv(run(c0, steps.drop_last()).unwrap(), steps.last());
    }
}

/// At most one leader per term, within one state: in any cluster reached from
/// an initial one, two members that both lead in the same term are the same.
pub proof fn lemma_one_leader_per_term_in_runs(
    c0: ClusterView,
    steps: Seq<ClusterStep>,
    n: u64,
    m: u64,
)
    requires
        initial(c0),
        run(c0, steps) is Some,
        run(c0, steps).unwrap().members.contains(n),
        run(c0, steps).unwrap().members.contains(m),
        run(c0, steps).unwrap().nodes[n].state == NodeState::Leader,
        run(c0, steps).unwrap().nodes[m].state == NodeState::Leader,
        run(c0, steps).unwrap().nodes[n].term == run(c0, steps).unwrap().nodes[m].term,
    ensures
        n == m,
{
    lemma_run_keeps_inv(c0, steps);
}

/// The leader recorded for a term never changes as a run goes on.
pub proof fn lemma_leader_of_term_kept(c0: ClusterView, steps: Seq<ClusterStep>, k: int, t: u64)
    requires
        initial(c0),
        run(c0, steps) is Some,
        0 <= k <= steps.len(),
        run(c0, steps.take(k)) is Some,
        run(c0, steps.take(k)).unwrap().leaders.contains_key(t),
    ensures
        run(c0, steps).unwrap().leaders.contains_key(t),
        run(c0, steps).unwrap().leaders[t] == run(c0, steps.take(k)).unwrap().leaders[t],
    decreases steps.len() - k,
{
    if k == steps.len() {
        assert(steps.take(k) =~= steps);
    } else {
        let p = steps.take(k + 1);
        assert(p.drop_last() =~= steps.take(k));
        lemma_run_prefix(c0, steps, k + 1);
        lemma_run_keeps_inv(c0, steps.take(k));
        lemma_step_keeps_inv(run(c0, steps.take(k)).unwrap(), p.last());
        lemma_leader_of_term_kept(c0, steps, k + 1, t);
    }
}

/// A run that can be taken can be taken up to any point.
pub proof fn lemma_run_prefix(c0: ClusterView, steps: Seq<ClusterStep>, k: int)
    requires
        run(c0, steps) is Some,
        0 <= k <= steps.len(),
    ensures
        run(c0, steps.take(k)) is Some,
    decreases steps.len(),
{
    if k < steps.len() {
        assert(steps.drop_last().take(k) =~= steps.take(k));
        lemma_run_prefix(c0, steps.drop_last(), k);
    } else {
        assert(steps.take(k) =~= steps);
    }
}

/// At most one leader per term over a whole run: a member that leads in term
/// `t` at one point of a run and a member that leads in term `t` at a later
/// point are the same node.
pub proof fn lemma_election_safety(
    c0: ClusterView,
    steps: Seq<ClusterStep>,
    i: int,
    j: int,
    n: u64,
    m: u64,
)
    requires
        initial(c0),
        run(c0, steps) is Some,
        0 <= i <= j <= steps.len(),
        run(c0, steps.take(i)).unwrap().members.contains(n),
        run(c0, steps.take(j)).unwrap().members.contains(m),
        run(c0, steps.take(i)).unwrap().nodes[n].state == NodeState::Leader,
        run(c0, steps.take(j)).unwrap().nodes[m].state == NodeState::Leader,
        run(c0, steps.take(i)).unwrap().nodes[n].term == run(c0, steps.take(j)).unwrap().nodes[m].term,
    ensures
        n == m,
{
    lemma_run_prefix(c0, steps, i);
    lemma_run_prefix(c0, steps, j);
    let sj = steps.take(j);
    lemma_run_keeps_inv(c0, steps.take(i));
    lemma_run_keeps_inv(c0, sj);
    let t = run(c0, steps.take(i)).unwrap().nodes[n].term;
    assert(sj.take(i) =~= steps.take(i));
    lemma_leader_of_term_kept(c0, sj, i, t);
}

} // verus!
