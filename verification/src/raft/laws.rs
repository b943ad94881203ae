use super::apply::{
    apply_entries, lemma_command_texts, lemma_last_write_wins, lemma_untouched_key, no_space,
    touches,
};
use super::log::LogEntry;
use super::node::{
    append_step, apply_to, delete_committed, first_new_entry, merge_entries, election_result, elapsed_exceeds, entries_of,
    heartbeat_plan, log_up_to_date, majority, observe_term, prev_matches, read_result,
    replication_result, snapshot_point, TimeoutAction,
    set_command_text, sole_member, timeout_step, vote_step, write_committed, NodeError, NodeState,
    NodeView,
};
use super::rpc::{AppendEntriesRequest, RequestVoteRequest};
use crate::text::{decimal, lemma_parse_decimal};
use vstd::prelude::*;
use vstd::set_lib::{lemma_len_subset, lemma_set_disjoint_lens};

verus! {

/// A node's term never goes down when it answers a vote request, and the
/// answer carries the term the node ends with, which is the larger of the two.
pub proof fn lemma_vote_term_monotone(s: NodeView, req: RequestVoteRequest)
    ensures
        vote_step(s, req).0.term >= s.term,
        vote_step(s, req).1.term == vote_step(s, req).0.term,
        vote_step(s, req).0.term == if req.term > s.term {
            req.term
        } else {
            s.term
        },
{
}

/// A node's term never goes down when it answers an append request, and the
/// answer carries the term the node ends with, which is the larger of the two.
pub proof fn lemma_append_term_monotone(s: NodeView, req: AppendEntriesRequest)
    ensures
        append_step(s, req).0.term >= s.term,
        append_step(s, req).1.term == append_step(s, req).0.term,
        append_step(s, req).0.term == if req.term > s.term {
            req.term
        } else {
            s.term
        },
{
}

/// A request from an earlier term is refused and changes nothing.
pub proof fn lemma_stale_requests_refused(
    s: NodeView,
    req: RequestVoteRequest,
    areq: AppendEntriesRequest,
)
    ensures
        req.term < s.term ==> vote_step(s, req).0 == s && !vote_step(s, req).1.vote_granted,
        areq.term < s.term ==> append_step(s, areq).0 == s && !append_step(s, areq).1.success,
{
}

/// A request from a later term makes the node a follower of that term.
pub proof fn lemma_later_term_makes_follower(
    s: NodeView,
    req: RequestVoteRequest,
    areq: AppendEntriesRequest,
)
    ensures
        req.term > s.term ==> vote_step(s, req).0.state == NodeState::Follower && vote_step(
            s,
            req,
        ).0.term == req.term,
        areq.term > s.term ==> append_step(s, areq).0.state == NodeState::Follower
            && append_step(s, areq).0.term == areq.term,
{
}

/// A granted vote is recorded: the node ends in the candidate's term, having
/// voted for it, and the candidate's log is at least as up to date as its own.
pub proof fn lemma_granted_vote_recorded(s: NodeView, req: RequestVoteRequest)
    requires
        vote_step(s, req).1.vote_granted,
    ensures
        vote_step(s, req).0.voted_for == Some(req.candidate_id),
        vote_step(s, req).0.term == req.term,
        log_up_to_date(s, req.last_log_index, req.last_log_term),
{
}

/// Within one term a node's vote does not move: once it has voted for `c`,
/// requests of that term or earlier leave the vote with `c` and are granted to
/// `c` alone.
pub proof fn lemma_vote_kept_within_term(
    s: NodeView,
    c: u64,
    req: RequestVoteRequest,
    areq: AppendEntriesRequest,
)
    requires
        s.voted_for == Some(c),
    ensures
        req.term <= s.term ==> vote_step(s, req).0.voted_for == Some(c),
        req.term <= s.term && vote_step(s, req).1.vote_granted ==> req.candidate_id == c,
        areq.term <= s.term ==> append_step(s, areq).0.voted_for == Some(c),
{
}

/// A node gives its vote of a term to one candidate at most: after granting a
/// vote, a request of the same term from another candidate is refused.
pub proof fn lemma_one_vote_per_term(s: NodeView, r1: RequestVoteRequest, r2: RequestVoteRequest)
    requires
        vote_step(s, r1).1.vote_granted,
        r2.term == r1.term,
        r2.candidate_id != r1.candidate_id,
    ensures
        !vote_step(vote_step(s, r1).0, r2).1.vote_granted,
        vote_step(vote_step(s, r1).0, r2).0 == vote_step(s, r1).0,
{
}

/// Any two majorities of the same members share a member; hence two
/// candidates cannot both gather a majority of votes of one term.
pub proof fn lemma_majorities_intersect(members: Set<u64>, a: Set<u64>, b: Set<u64>)
    requires
        members.finite(),
        a.subset_of(members),
        b.subset_of(members),
        a.len() >= majority(members.len()),
        b.len() >= majority(members.len()),
    ensures
        exists|x: u64| a.contains(x) && b.contains(x),
{
    lemma_len_subset(a, members);
    lemma_len_subset(b, members);
    lemma_len_subset(a + b, members);
    if !(exists|x: u64| a.contains(x) && b.contains(x)) {
        assert(a.disjoint(b));
        lemma_set_disjoint_lens(a, b);
        assert((a + b).len() == a.len() + b.len());
    }
}

/// Whether the log holds an entry of the term of carried entry `j` at its position.
pub open spec fn held_at(log: Seq<LogEntry>, prev: int, entries: Seq<LogEntry>, j: int) -> bool {
    0 <= prev + j < log.len() && log[prev + j].term == entries[j].term
}

/// Every carried entry before the first one the log does not hold is held:
/// the log has an entry of its term at its position.
proof fn lemma_first_new_held(log: Seq<LogEntry>, prev: int, entries: Seq<LogEntry>, i: int, j: int)
    requires
        0 <= prev,
        0 <= i <= j < first_new_entry(log, prev, entries, i),
    ensures
        held_at(log, prev, entries, j),
    decreases j - i,
{
    if j > i {
        lemma_first_new_held(log, prev, entries, i + 1, j);
    }
}

/// What the search for the first carried entry the log does not hold finds:
/// it lies between `i` and the number of carried entries; every carried entry
/// before it is held (same position, same term), and the one it stops at, if
/// any, is not.
pub proof fn lemma_first_new_entry(log: Seq<LogEntry>, prev: int, entries: Seq<LogEntry>, i: int)
    requires
        0 <= prev,
        0 <= i <= entries.len(),
    ensures
        i <= first_new_entry(log, prev, entries, i) <= entries.len(),
        forall|j: int|
            i <= j < first_new_entry(log, prev, entries, i) ==> #[trigger] held_at(log, prev, entries, j),
        first_new_entry(log, prev, entries, i) < entries.len() ==> !(prev + first_new_entry(
            log,
            prev,
            entries,
            i,
        ) < log.len() && log[prev + first_new_entry(log, prev, entries, i)].term
            == entries[first_new_entry(log, prev, entries, i)].term),
    decreases entries.len() - i,
{
    if i < entries.len() && prev + i < log.len() && log[prev + i].term == entries[i].term {
        lemma_first_new_entry(log, prev, entries, i + 1);
    }
    assert forall|j: int|
        i <= j < first_new_entry(log, prev, entries, i) implies #[trigger] held_at(log, prev, entries, j) by {
        lemma_first_new_held(log, prev, entries, i, j);
    }
}

/// How a log takes in carried entries: it keeps its entries up to the previous
/// one; at each carried position it holds an entry of the carried entry's term;
/// the entries it already held there are kept, up to the first carried one it
/// did not hold, and the carried ones are stored from there on; a log that held
/// them all stays whole.
pub proof fn lemma_merge_entries(log: Seq<LogEntry>, prev: int, entries: Seq<LogEntry>)
    requires
        0 <= prev <= log.len(),
    ensures
        merge_entries(log, prev, entries).len() >= prev + entries.len(),
        forall|m: int| 0 <= m < prev ==> #[trigger] merge_entries(log, prev, entries)[m] == log[m],
        forall|j: int|
            0 <= j < entries.len() ==> (#[trigger] merge_entries(log, prev, entries)[prev + j]).term
                == entries[j].term,
        forall|j: int|
            0 <= j < first_new_entry(log, prev, entries, 0) ==> #[trigger] merge_entries(
                log,
                prev,
                entries,
            )[prev + j] == log[prev + j],
        forall|j: int|
            first_new_entry(log, prev, entries, 0) <= j < entries.len() ==> #[trigger] merge_entries(
                log,
                prev,
                entries,
            )[prev + j] == entries[j],
        first_new_entry(log, prev, entries, 0) >= entries.len() ==> merge_entries(log, prev, entries)
            == log,
{
    lemma_first_new_entry(log, prev, entries, 0);
    let k = first_new_entry(log, prev, entries, 0);
    let mg = merge_entries(log, prev, entries);
    if k > 0 {
        assert(held_at(log, prev, entries, k - 1));
    }
    assert(prev + k <= log.len());
    if k < entries.len() {
        let head = log.subrange(0, prev + k);
        let tail = entries.subrange(k, entries.len() as int);
        assert(mg == head + tail);
        assert(mg.len() == prev + entries.len());
        assert forall|m: int| 0 <= m < prev implies #[trigger] mg[m] == log[m] by {
            assert(mg[m] == head[m]);
        }
        assert forall|j: int| 0 <= j < k implies #[trigger] mg[prev + j] == log[prev + j] by {
            assert(mg[prev + j] == head[prev + j]);
        }
        assert forall|j: int| k <= j < entries.len() implies #[trigger] mg[prev + j] == entries[j] by {
            assert(mg[prev + j] == tail[j - k]);
        }
        assert forall|j: int| 0 <= j < entries.len() implies (#[trigger] mg[prev + j]).term
            == entries[j].term by {
            if j < k {
                assert(mg[prev + j] == log[prev + j]);
                assert(held_at(log, prev, entries, j));
            } else {
                assert(mg[prev + j] == entries[j]);
            }
        }
    } else {
        assert(k == entries.len());
        assert(mg == log);
        assert forall|j: int| 0 <= j < entries.len() implies (#[trigger] mg[prev + j]).term
            == entries[j].term by {
            assert(held_at(log, prev, entries, j));
        }
    }
}

/// Where the log agrees with the carried entries at every position it has,
/// taking them in gives a log at least as long as both, holding its own
/// entries before the previous one, the carried entries after it, and its own
/// entries past the carried ones.
proof fn lemma_merge_agreeing(log: Seq<LogEntry>, prev: int, entries: Seq<LogEntry>)
    requires
        0 <= prev <= log.len(),
        forall|j: int| 0 <= j < entries.len() && prev + j < log.len() ==> log[prev + j] == entries[j],
    ensures
        merge_entries(log, prev, entries).len() >= log.len(),
        merge_entries(log, prev, entries).len() >= prev + entries.len(),
        forall|m: int| 0 <= m < prev ==> merge_entries(log, prev, entries)[m] == log[m],
        forall|j: int| 0 <= j < entries.len() ==> merge_entries(log, prev, entries)[prev + j] == entries[j],
        forall|m: int|
            prev + entries.len() <= m < merge_entries(log, prev, entries).len() ==> m < log.len()
                && merge_entries(log, prev, entries)[m] == log[m],
{
    lemma_merge_entries(log, prev, entries);
    lemma_first_new_entry(log, prev, entries, 0);
    let mg = merge_entries(log, prev, entries);
    let k = first_new_entry(log, prev, entries, 0);
    if k > 0 {
        assert(held_at(log, prev, entries, k - 1));
    }
    if k < entries.len() {
        if prev + k < log.len() {
            assert(log[prev + k] == entries[k]);
        }
        assert(log.len() <= prev + k);
        assert(mg == log.subrange(0, prev + k) + entries.subrange(k, entries.len() as int));
        assert(mg.len() == prev + entries.len());
    } else {
        assert(mg == log);
    }
    assert forall|j: int| 0 <= j < entries.len() implies mg[prev + j] == entries[j] by {
        if j < k {
            assert(held_at(log, prev, entries, j));
            assert(mg[prev + j] == log[prev + j]);
        } else {
            assert(mg[prev + j] == entries[j]);
        }
    }
}

/// On an append request whose carried entries agree in term with the log at
/// every committed position, a commit index within the log stays within the
/// log and never goes down; where the leader's commit index is larger, it
/// becomes that, at most the end of the new log.
pub proof fn lemma_commit_index_monotone(s: NodeView, req: AppendEntriesRequest)
    requires
        s.commit_index <= s.log.len(),
        forall|j: int|
            0 <= j < req.entries@.len() && req.prev_log_index + j < s.commit_index ==> req.prev_log_index
                + j < s.log.len() && s.log[req.prev_log_index + j].term == #[trigger] req.entries@[j].term,
    ensures
        append_step(s, req).0.commit_index >= s.commit_index,
        append_step(s, req).0.commit_index <= append_step(s, req).0.log.len(),
        append_step(s, req).1.success ==> append_step(s, req).0.commit_index == if req.leader_commit
            > s.commit_index {
            if req.leader_commit <= append_step(s, req).0.log.len() {
                req.leader_commit
            } else {
                append_step(s, req).0.log.len() as u64
            }
        } else {
            s.commit_index
        },
{
    if req.term >= s.term && prev_matches(s, req.prev_log_index, req.prev_log_term) {
        let prev = req.prev_log_index as int;
        let carried = entries_of(req.entries@);
        lemma_first_new_entry(s.log, prev, carried, 0);
        lemma_merge_entries(s.log, prev, carried);
        let k = first_new_entry(s.log, prev, carried, 0);
        if k < carried.len() {
            assert(carried[k].term == req.entries@[k].term);
            assert(prev + k >= s.commit_index);
        }
    }
}

/// A request whose previous entry the log lacks is refused, and the log, the
/// commit index, the applied index and the store stay as they were.
pub proof fn lemma_missing_prev_refused(s: NodeView, req: AppendEntriesRequest)
    requires
        req.term >= s.term,
        !prev_matches(s, req.prev_log_index, req.prev_log_term),
    ensures
        !append_step(s, req).1.success,
        append_step(s, req).0 == observe_term(s, req.term),
        append_step(s, req).0.log == s.log,
        append_step(s, req).0.commit_index == s.commit_index,
        append_step(s, req).0.last_applied == s.last_applied,
        append_step(s, req).0.kv == s.kv,
{
}

/// An accepted request leaves the log as the node takes the carried entries in
/// (`merge_entries`, described by `lemma_merge_entries`).
pub proof fn lemma_accepted_append_log(s: NodeView, req: AppendEntriesRequest)
    requires
        req.term >= s.term,
        prev_matches(s, req.prev_log_index, req.prev_log_term),
    ensures
        append_step(s, req).1.success,
        append_step(s, req).0.log == merge_entries(
            s.log,
            req.prev_log_index as int,
            entries_of(req.entries@),
        ),
        append_step(s, req).0.log.len() >= req.prev_log_index + req.entries@.len(),
{
    lemma_merge_entries(s.log, req.prev_log_index as int, entries_of(req.entries@));
}

/// A follower reads what the leader wrote. Take an accepted request that
/// carries a write of `value` under a key without spaces, which the leader has
/// committed, with no later carried entry writing or removing that key, sent to
/// a follower whose log agrees with the carried entries wherever it has them
/// and whose entries past the carried ones do not write or remove the key
/// either. Where the follower had not yet applied that write, a read of the
/// key on it gives `value` back; where it had, the request leaves that read as
/// it was.
pub proof fn lemma_follower_reads_committed_write(
    s: NodeView,
    req: AppendEntriesRequest,
    i: int,
    key: Seq<char>,
    value: Seq<char>,
)
    requires
        req.term >= s.term,
        prev_matches(s, req.prev_log_index, req.prev_log_term),
        s.commit_index <= s.log.len(),
        0 <= i < req.entries@.len(),
        req.entries@[i].command@ == set_command_text(key, value),
        no_space(key),
        forall|j: int|
            i < j < req.entries@.len() ==> !touches(#[trigger] req.entries@[j].command@, key),
        forall|j: int|
            0 <= j < req.entries@.len() && req.prev_log_index + j < s.log.len() ==> s.log[req.prev_log_index
                + j] == #[trigger] entries_of(req.entries@)[j],
        forall|m: int|
            req.prev_log_index + req.entries@.len() <= m < s.log.len() ==> !touches(
                #[trigger] s.log[m].command@,
                key,
            ),
        req.prev_log_index + i < req.leader_commit,
    ensures
        append_step(s, req).1.success,
        s.last_applied <= req.prev_log_index + i ==> read_result(append_step(s, req).0, key) == Ok::<
            Seq<char>,
            NodeError,
        >(value),
        s.last_applied > req.prev_log_index + i ==> read_result(append_step(s, req).0, key)
            == read_result(s, key),
{
    let prev = req.prev_log_index as int;
    let carried = entries_of(req.entries@);
    let n = carried.len() as int;
    assert forall|j: int| 0 <= j < n && prev + j < s.log.len() implies s.log[prev + j] == carried[j] by {
        assert(s.log[prev + j] == entries_of(req.entries@)[j]);
    }
    lemma_merge_agreeing(s.log, prev, carried);
    let mg = merge_entries(s.log, prev, carried);
    let c = if req.leader_commit > s.commit_index {
        if req.leader_commit <= mg.len() {
            req.leader_commit as int
        } else {
            mg.len() as int
        }
    } else {
        s.commit_index as int
    };
    let p = prev + i;
    let la = s.last_applied as int;
    assert(p < c <= mg.len());
    // No entry of the new log after the write touches the key.
    assert forall|m: int| p < m < mg.len() implies !touches(#[trigger] mg[m].command@, key) by {
        if m < prev + n {
            assert(mg[m] == carried[m - prev]);
            assert(carried[m - prev] == entries_of(req.entries@)[m - prev]);
            assert(!touches(req.entries@[m - prev].command@, key));
        } else {
            assert(mg[m] == s.log[m]);
        }
    }
    if la <= p {
        let run = mg.subrange(la, c);
        assert(run[p - la] == carried[i]);
        assert forall|j: int| p - la < j < run.len() implies !touches(#[trigger] run[j].command@, key) by {
            assert(run[j] == mg[la + j]);
        }
        lemma_last_write_wins(s.kv, run, p - la, key, value);
    } else if la < c {
        let run = mg.subrange(la, c);
        assert forall|j: int| 0 <= j < run.len() implies !touches(#[trigger] run[j].command@, key) by {
            assert(run[j] == mg[la + j]);
        }
        lemma_untouched_key(s.kv, run, key);
    }
}

/// A leader's write of `value` under a key without spaces, once committed,
/// leaves its store as applying its log does: the same store a follower gets
/// from the same applied state and log.
pub proof fn lemma_leader_write_matches_log(s: NodeView, key: Seq<char>, value: Seq<char>)
    requires
        s.log.len() <= u64::MAX,
        s.last_applied < s.log.len(),
        s.log.last().command@ == set_command_text(key, value),
        no_space(key),
    ensures
        write_committed(s, key, value).kv == apply_to(s, s.log.len() as int).kv,
        write_committed(s, key, value).last_applied == s.log.len(),
{
    lemma_command_texts(key, value);
    let n = s.log.len() as int;
    let la = s.last_applied as int;
    assert(s.log.subrange(la, n).drop_last() =~= s.log.subrange(la, n - 1));
    assert(s.log.subrange(la, n).last() == s.log.last());
    if la == n - 1 {
        assert(s.log.subrange(la, n - 1) =~= Seq::<LogEntry>::empty());
    }
}

/// A read gives back what the last committed write of the key stored; where no
/// earlier entry was waiting to be applied, a write or delete of one key leaves
/// every other key as it was.
pub proof fn lemma_read_after_write(
    s: NodeView,
    key: Seq<char>,
    value: Seq<char>,
    other: Seq<char>,
)
    ensures
        read_result(write_committed(s, key, value), key) == Ok::<Seq<char>, NodeError>(value),
        other != key && s.log.len() <= s.last_applied + 1 ==> read_result(
            write_committed(s, key, value),
            other,
        ) == read_result(s, other),
        other != key && s.log.len() <= s.last_applied + 1 ==> read_result(
            delete_committed(s, key),
            other,
        ) == read_result(s, other),
{
}

/// A read of a deleted key finds nothing.
pub proof fn lemma_read_after_delete(s: NodeView, key: Seq<char>)
    ensures
        read_result(delete_committed(s, key), key) == Err::<Seq<char>, NodeError>(
            NodeError::KeyNotFound,
        ),
{
}

/// Once timed out, a node stays timed out as more time passes (within 64 bits
/// of milliseconds, past which the count is cut).
pub proof fn lemma_timeout_stays(m1: u128, m2: u128, election_timeout: u64)
    requires
        m1 <= m2 <= u64::MAX,
    ensures
        elapsed_exceeds(Some(m1), election_timeout) ==> elapsed_exceeds(
            Some(m2),
            election_timeout,
        ),
{
}

/// Two nodes with different ids keep their state, and their snapshots, in
/// files of different names.
pub proof fn lemma_file_names_distinct(a: u64, b: u64)
    requires
        a != b,
    ensures
        "raft_state_"@ + decimal(a as nat) + ".json"@ != "raft_state_"@ + decimal(b as nat)
            + ".json"@,
        "snapshot_"@ + decimal(a as nat) + ".json"@ != "snapshot_"@ + decimal(b as nat)
            + ".json"@,
{
    lemma_parse_decimal(a);
    lemma_parse_decimal(b);
    lemma_framed_distinct("raft_state_"@, ".json"@, decimal(a as nat), decimal(b as nat));
    lemma_framed_distinct("snapshot_"@, ".json"@, decimal(a as nat), decimal(b as nat));
}

proof fn lemma_framed_distinct(p: Seq<char>, q: Seq<char>, x: Seq<char>, y: Seq<char>)
    requires
        x != y,
    ensures
        p + x + q != p + y + q,
{
    let l = p + x + q;
    let r = p + y + q;
    assert(l.len() == p.len() + x.len() + q.len());
    assert(r.len() == p.len() + y.len() + q.len());
    if l == r {
        assert(x.len() == y.len());
        assert((p + x + q).subrange(p.len() as int, (p.len() + x.len()) as int) =~= x);
        assert((p + y + q).subrange(p.len() as int, (p.len() + y.len()) as int) =~= y);
    }
}

/// An election is won exactly with a majority of the members' votes, and a
/// won election leaves the node leader in the term it campaigned in.
pub proof fn lemma_election_needs_majority(s: NodeView, votes: nat)
    ensures
        (election_result(s, votes).state == NodeState::Leader) <==> votes >= majority(
            s.members.len(),
        ),
        election_result(s, votes).term == s.term,
        election_result(s, votes).voted_for == s.voted_for,
{
}

/// A leader's heartbeat timer never changes the leader; a node alone in its
/// cluster makes itself leader of the next term; any other node only decides.
pub proof fn lemma_timeout_steps(s: NodeView, timed_out: bool)
    ensures
        s.state == NodeState::Leader ==> timeout_step(s, timed_out).0 == s,
        s.state != NodeState::Leader && sole_member(s) && s.term < u64::MAX ==> timeout_step(
            s,
            timed_out,
        ).0.state
            == NodeState::Leader && timeout_step(s, timed_out).0.term == s.term + 1,
        s.state != NodeState::Leader && !sole_member(s) ==> timeout_step(s, timed_out).0 == s,
{
}

/// A replicated append to a peer moves its match index to just below its next
/// index; a refused one moves the next index back by one, never below 0.
pub proof fn lemma_replication_indexes(
    s: NodeView,
    peer: u64,
    next: u64,
    entries_len: u64,
)
    requires
        1 <= next,
        next + entries_len <= u64::MAX,
    ensures
        replication_result(s, peer, next, entries_len, Some(true)).match_index[peer] + 1
            == replication_result(s, peer, next, entries_len, Some(true)).next_index[peer],
        replication_result(s, peer, next, entries_len, Some(false)).next_index[peer] == next - 1,
        replication_result(s, peer, next, entries_len, None) == s,
{
}

/// The members that gave their vote of a term to `candidate`, where `votes`
/// maps each member that voted to the candidate it voted for.
pub open spec fn voters_for(votes: Map<u64, u64>, candidate: u64) -> Set<u64> {
    votes.dom().filter(|v: u64| votes[v] == candidate)
}

/// At most one leader per term: since each member votes for one candidate at
/// most in a term, two candidates that both hold the votes of a majority of the
/// members are the same candidate.
pub proof fn lemma_one_leader_per_term(
    members: Set<u64>,
    votes: Map<u64, u64>,
    c1: u64,
    c2: u64,
)
    requires
        members.finite(),
        votes.dom().subset_of(members),
        voters_for(votes, c1).len() >= majority(members.len()),
        voters_for(votes, c2).len() >= majority(members.len()),
    ensures
        c1 == c2,
{
    let a = voters_for(votes, c1);
    let b = voters_for(votes, c2);
    lemma_majorities_intersect(members, a, b);
    let x = choose|x: u64| a.contains(x) && b.contains(x);
    assert(votes[x] == c1 && votes[x] == c2);
}

/// Which vote requests are granted, and what the answer says. A request is
/// granted exactly when it is not from an earlier term, the node may still
/// vote for that candidate in that term (a later term, no vote yet, or its
/// vote already given to that candidate), and the candidate's log is at least
/// as up to date as the node's: its last entry is of a later term than the
/// node's last entry (0 for an empty log), or of the same term and the log is
/// at least as long. The answer carries the larger of the two terms. So a node
/// whose log is behind never refuses a candidate for having a later last term.
pub proof fn lemma_vote_granted_exactly(s: NodeView, req: RequestVoteRequest)
    ensures
        vote_step(s, req).1.vote_granted <==> ({
            let my_last_term: u64 = if s.log.len() == 0 {
                0
            } else {
                s.log[s.log.len() - 1].term
            };
            &&& req.term >= s.term
            &&& (req.term > s.term || s.voted_for is None || s.voted_for == Some(req.candidate_id))
            &&& (req.last_log_term > my_last_term || (req.last_log_term == my_last_term
                && req.last_log_index >= s.log.len()))
        }),
        vote_step(s, req).1.term == if req.term > s.term {
            req.term
        } else {
            s.term
        },
        vote_step(s, req).1.vote_granted ==> vote_step(s, req).0.voted_for == Some(
            req.candidate_id,
        ),
{
}

/// The heartbeat a leader sends a peer, for a peer whose next index is not 0:
/// its previous index is one below the peer's next index (1 where none is
/// recorded); there is none where that index lies beyond the log; otherwise the
/// previous term is the term of the leader's own entry at the previous index
/// (0 for index 0), and the entries are the leader's log from the next index on
/// (none where the next index lies beyond the log or none is recorded).
pub proof fn lemma_heartbeat_names_leader_entry(s: NodeView, peer: u64)
    requires
        !(s.next_index.contains_key(peer) && s.next_index[peer] == 0),
    ensures
        ({
            let n: int = if s.next_index.contains_key(peer) {
                s.next_index[peer] as int
            } else {
                1
            };
            match heartbeat_plan(s, peer) {
                None => n - 1 > s.log.len(),
                Some((prev, t, e)) => {
                    &&& prev == n - 1
                    &&& prev <= s.log.len()
                    &&& (prev == 0 ==> t == 0)
                    &&& (prev > 0 ==> t == s.log[prev - 1].term)
                    &&& e == if s.next_index.contains_key(peer) && n <= s.log.len() {
                        s.log.subrange(n - 1, s.log.len() as int)
                    } else {
                        Seq::<LogEntry>::empty()
                    }
                },
            }
        }),
{
}

/// A snapshot point is taken at the commit index, with the term of the log
/// entry at that position; there is none for an empty log or where nothing is
/// committed.
pub proof fn lemma_snapshot_point_names_entry(s: NodeView)
    ensures
        snapshot_point(s) is None <==> (s.log.len() == 0 || s.commit_index == 0),
        snapshot_point(s) matches Some((i, t)) ==> i == s.commit_index && t == s.log[i as int].term,
{
}

/// The decision a heartbeat timer makes for a node that neither leads nor is
/// alone in its cluster: it starts an election exactly when its election
/// timeout has passed, and waits otherwise, changing nothing either way.
pub proof fn lemma_timer_decision(s: NodeView, timed_out: bool)
    requires
        s.state != NodeState::Leader,
        !sole_member(s),
    ensures
        timeout_step(s, timed_out).1 == (if timed_out {
            TimeoutAction::StartElection
        } else {
            TimeoutAction::Wait
        }),
        timeout_step(s, timed_out).0 == s,
{
}

/// The election timeout has passed exactly when the milliseconds elapsed, cut
/// to 64 bits, exceed it; never where the clock reads earlier than the last
/// heartbeat.
pub proof fn lemma_elapsed_exceeds(m: u128, election_timeout: u64)
    ensures
        elapsed_exceeds(Some(m), election_timeout) <==> (m % 0x1_0000_0000_0000_0000) > election_timeout,
        !elapsed_exceeds(None, election_timeout),
{
    assert((m as u64) == m % 0x1_0000_0000_0000_0000) by (bit_vector);
}

} // verus!
