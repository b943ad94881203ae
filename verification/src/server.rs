use crate::raft::node::RemoteNode;
use crate::text::{
    decimal, lemma_decimal_only_digits, lemma_parse_decimal, lemma_split_on_pair, parse_u64,
    parse_u64_exec, split_exec, split_on, u64_to_decimal,
};
use vstd::prelude::*;

verus! {

/// Why a cluster configuration could not be read.
#[derive(Debug, Clone, Copy, PartialEq, Eq, Structural)]
pub enum ConfError {
    /// A member's id is not an unsigned 64-bit number.
    InvalidNodeId,
}

/// What one comma-separated piece of a cluster configuration adds: nothing
/// unless it has the form `id=address`; a member, or an error where the id is
/// not a number.
pub open spec fn conf_entry(piece: Seq<char>) -> Option<Result<(u64, Seq<char>), ConfError>> {
    let parts = split_on(piece, '=');
    if parts.len() != 2 {
        None
    } else {
        match parse_u64(parts[0]) {
            Some(id) => Some(Ok((id, parts[1]))),
            None => Some(Err(ConfError::InvalidNodeId)),
        }
    }
}

/// The members that the pieces of a cluster configuration list, in order, or
/// the error of the first bad piece.
pub open spec fn conf_members(pieces: Seq<Seq<char>>) -> Result<Seq<(u64, Seq<char>)>, ConfError>
    decreases pieces.len(),
{
    if pieces.len() == 0 {
        Ok(Seq::empty())
    } else {
        match conf_members(pieces.drop_last()) {
            Err(e) => Err(e),
            Ok(l) => match conf_entry(pieces.last()) {
                None => Ok(l),
                Some(Err(e)) => Err(e),
                Some(Ok(m)) => Ok(l.push(m)),
            },
        }
    }
}

/// The members a cluster configuration of the form `id=address,id=address`
/// lists; pieces of another form are skipped.
pub open spec fn cluster_conf_members(conf: Seq<char>) -> Result<Seq<(u64, Seq<char>)>, ConfError> {
    conf_members(split_on(conf, ','))
}

/// Whether `nodes` are the members `l`.
pub open spec fn nodes_are(nodes: Seq<RemoteNode>, l: Seq<(u64, Seq<char>)>) -> bool {
    &&& nodes.len() == l.len()
    &&& forall|i: int|
        0 <= i < nodes.len() ==> (#[trigger] nodes[i]).node_uid == l[i].0 && nodes[i].addr@
            == l[i].1
}

/// Reads the members of a cluster configuration of the form
/// `id=address,id=address`.
pub fn parse_cluster_conf(conf: &str) -> (r: Result<Vec<RemoteNode>, ConfError>)
    ensures
        match cluster_conf_members(conf@) {
            Ok(l) => r matches Ok(nodes) && nodes_are(nodes@, l),
            Err(e) => r == Err::<Vec<RemoteNode>, ConfError>(e),
        },
{
    let pieces = split_exec(conf, ',');
    let ghost ps = split_on(conf@, ',');
    let mut nodes: Vec<RemoteNode> = Vec::new();
    let mut i: usize = 0;
    while i < pieces.len()
        invariant
            i <= pieces@.len(),
            ps == split_on(conf@, ','),
            pieces@.len() == ps.len(),
            forall|j: int| 0 <= j < pieces@.len() ==> (#[trigger] pieces@[j])@ == ps[j],
            conf_members(ps.take(i as int)) matches Ok(l) && nodes_are(nodes@, l),
        decreases pieces@.len() - i,
    {
        let ghost l = conf_members(ps.take(i as int))->Ok_0;
        proof {
            assert(ps.take(i + 1).drop_last() =~= ps.take(i as int));
            assert(ps.take(i + 1).last() == ps[i as int]);
        }
        let parts = split_exec(pieces[i].as_str(), '=');
        if parts.len() == 2 {
            match parse_u64_exec(parts[0].as_str()) {
                Some(id) => {
                    let addr = parts[1].clone();
                    nodes.push(RemoteNode { node_uid: id, addr });
                    proof {
                        let l2 = l.push((id, addr@));
                        assert(conf_members(ps.take(i + 1)) == Ok::<
                            Seq<(u64, Seq<char>)>,
                            ConfError,
                        >(l2));
                        assert forall|j: int| 0 <= j < nodes@.len() implies (#[trigger] nodes@[
                            j
                        ]).node_uid == l2[j].0 && nodes@[j].addr@ == l2[j].1 by {}
                    }
                },
                None => {
                    proof {
                        assert(split_on(ps[i as int], '=')[0] == parts@[0]@);
                        assert(conf_entry(ps[i as int]) == Some(
                            Err::<(u64, Seq<char>), ConfError>(ConfError::InvalidNodeId),
                        ));
                        assert(conf_members(ps.take(i + 1)) == Err::<
                            Seq<(u64, Seq<char>)>,
                            ConfError,
                        >(ConfError::InvalidNodeId));
                        lemma_conf_error_sticks(ps, i as int + 1);
                    }
                    return Err(ConfError::InvalidNodeId);
                },
            }
        }
        i = i + 1;
    }
    proof {
        assert(ps.take(pieces@.len() as int) =~= ps);
    }
    Ok(nodes)
}

/// Once a prefix of the pieces is in error, the whole is.
proof fn lemma_conf_error_sticks(ps: Seq<Seq<char>>, k: int)
    requires
        0 <= k <= ps.len(),
        conf_members(ps.take(k)) is Err,
    ensures
        conf_members(ps) == conf_members(ps.take(k)),
    decreases ps.len() - k,
{
    if k < ps.len() {
        assert(ps.take(k + 1).drop_last() =~= ps.take(k));
        lemma_conf_error_sticks(ps, k + 1);
    } else {
        assert(ps.take(k) =~= ps);
    }
}

/// The configuration of a cluster of one: `id=address`.
pub fn default_cluster_conf(node_id: u64, raft_addr: &str) -> (conf: String)
    ensures
        conf@ == decimal(node_id as nat) + "="@ + raft_addr@,
{
    let mut conf = u64_to_decimal(node_id);
    conf.append("=");
    conf.append(raft_addr);
    conf
}

/// The configuration of a cluster of one lists exactly that member, given an
/// address free of `,` and `=`.
pub proof fn lemma_default_conf_lists_itself(node_id: u64, raft_addr: Seq<char>)
    requires
        !raft_addr.contains(','),
        !raft_addr.contains('='),
    ensures
        cluster_conf_members(decimal(node_id as nat) + "="@ + raft_addr) == Ok::<
            Seq<(u64, Seq<char>)>,
            ConfError,
        >(seq![(node_id, raft_addr)]),
{
    reveal_strlit("=");
    let d = decimal(node_id as nat);
    let s = d + "="@ + raft_addr;
    assert(s =~= d.push('=') + raft_addr);
    lemma_decimal_only_digits(node_id as nat, '=');
    lemma_decimal_only_digits(node_id as nat, ',');
    lemma_split_on_pair(d, raft_addr, '=');
    assert(!s.contains(',')) by {
        if s.contains(',') {
            let j = choose|j: int| 0 <= j < s.len() && s[j] == ',';
            if j < d.len() {
                assert(d[j] == ',');
            } else if j > d.len() {
                assert(raft_addr[j - d.len() - 1] == ',');
            }
        }
    }
    lemma_split_on_pair(s, Seq::<char>::empty(), ',');
    lemma_parse_decimal(node_id);
    let pieces = split_on(s, ',');
    assert(pieces == seq![s]);
    assert(conf_entry(s) == Some(Ok::<(u64, Seq<char>), ConfError>((node_id, raft_addr))));
    assert(pieces.drop_last() =~= Seq::<Seq<char>>::empty());
    assert(conf_members(pieces.drop_last()) == Ok::<Seq<(u64, Seq<char>)>, ConfError>(
        Seq::empty(),
    ));
    assert(Seq::<(u64, Seq<char>)>::empty().push((node_id, raft_addr)) =~= seq![(node_id, raft_addr)]);
}

} // verus!
