use vstd::prelude::*;

use crate::error::Error;
use crate::keys::{compare_keys, key_le, key_lt};

verus! {

/// Term of the log entry a new region's storage starts with.
pub const RAFT_INIT_LOG_TERM: u64 = 5;

/// A replica of a region on a store.
#[derive(Clone, Copy, Debug, PartialEq, Eq, Structural)]
pub struct Peer {
    pub id: u64,
    pub store_id: u64,
}

/// Version counters of a region: membership changes and splits or merges.
#[derive(Clone, Copy, Debug, PartialEq, Eq, Structural)]
pub struct RegionEpoch {
    pub conf_ver: u64,
    pub version: u64,
}

/// A shard of the key space, `[start_key, end_key)`; an empty end key means
/// no upper bound.
#[derive(Debug)]
pub struct Region {
    pub id: u64,
    pub start_key: Vec<u8>,
    pub end_key: Vec<u8>,
    pub region_epoch: RegionEpoch,
    pub peers: Vec<Peer>,
}

#[derive(Clone, Copy, Debug, PartialEq, Eq, Structural)]
pub enum MessageType {
    MsgHup,
    MsgBeat,
    MsgPropose,
    MsgAppend,
    MsgAppendResponse,
    MsgRequestVote,
    MsgRequestVoteResponse,
    MsgSnapshot,
    MsgHeartbeat,
    MsgHeartbeatResponse,
}

/// The part of a raft message that the helpers read.
#[derive(Clone, Copy, Debug, PartialEq, Eq, Structural)]
pub struct Message {
    pub msg_type: MessageType,
    pub term: u64,
}

#[derive(Clone, Copy, Debug, PartialEq, Eq, Structural)]
pub struct RaftMessage {
    pub region_id: u64,
    pub message: Message,
}

#[derive(Clone, Copy, Debug, PartialEq, Eq, Structural)]
pub enum ConfChangeType {
    AddNode,
    RemoveNode,
}

/// Index of the first peer on store `store_id`.
pub open spec fn peer_index(peers: Seq<Peer>, store_id: u64) -> Option<int>
    decreases peers.len(),
{
    if peers.len() == 0 {
        None
    } else if peers.last().store_id == store_id && peer_index(peers.drop_last(), store_id) is None {
        Some(peers.len() - 1)
    } else {
        peer_index(peers.drop_last(), store_id)
    }
}

proof fn lemma_peer_index(peers: Seq<Peer>, store_id: u64, n: int)
    requires
        0 <= n < peers.len(),
        forall|j: int| 0 <= j < n ==> (#[trigger] peers[j]).store_id != store_id,
    ensures
        peers[n].store_id == store_id ==> peer_index(peers.subrange(0, n + 1), store_id) == Some(n),
        peer_index(peers.subrange(0, n), store_id) is None,
    decreases n,
{
    if n > 0 {
        lemma_peer_index(peers, store_id, n - 1);
        assert(peers.subrange(0, n).drop_last() =~= peers.subrange(0, n - 1));
    }
    assert(peers.subrange(0, n + 1).drop_last() =~= peers.subrange(0, n));
}

proof fn lemma_peer_index_none(peers: Seq<Peer>, store_id: u64)
    requires
        forall|j: int| 0 <= j < peers.len() ==> (#[trigger] peers[j]).store_id != store_id,
    ensures
        peer_index(peers, store_id) is None,
    decreases peers.len(),
{
    if peers.len() > 0 {
        lemma_peer_index_none(peers.drop_last(), store_id);
    }
}

proof fn lemma_peer_index_prefix(peers: Seq<Peer>, store_id: u64, n: int)
    requires
        0 <= n < peers.len(),
        peers[n].store_id == store_id,
        forall|j: int| 0 <= j < n ==> (#[trigger] peers[j]).store_id != store_id,
    ensures
        peer_index(peers, store_id) == Some(n),
    decreases peers.len(),
{
    if peers.len() == n + 1 {
        lemma_peer_index(peers, store_id, n);
        assert(peers.subrange(0, n + 1) =~= peers);
    } else {
        lemma_peer_index_prefix(peers.drop_last(), store_id, n);
    }
}

/// The first peer of `region` on store `store_id`.
pub fn find_peer(region: &Region, store_id: u64) -> (r: Option<&Peer>)
    ensures
        match peer_index(region.peers@, store_id) {
            Some(i) => r is Some && *r->Some_0 == region.peers@[i],
            None => r is None,
        },
{
    let mut i: usize = 0;
    while i < region.peers.len()
        invariant
            i <= region.peers@.len(),
            forall|j: int| 0 <= j < i ==> (#[trigger] region.peers@[j]).store_id != store_id,
        decreases region.peers@.len() - i,
    {
        if region.peers[i].store_id == store_id {
            proof {
                lemma_peer_index_prefix(region.peers@, store_id, i as int);
            }
            return Some(&region.peers[i]);
        }
        i = i + 1;
    }
    proof {
        lemma_peer_index_none(region.peers@, store_id);
    }
    None
}

/// Takes the first peer on store `store_id` out of `region`.
pub fn remove_peer(region: &mut Region, store_id: u64) -> (r: Option<Peer>)
    ensures
        match peer_index(old(region).peers@, store_id) {
            Some(i) => r == Some(old(region).peers@[i]) && final(region).peers@ == old(
                region,
            ).peers@.remove(i),
            None => r is None && final(region).peers@ == old(region).peers@,
        },
        final(region).id == old(region).id,
        final(region).start_key@ == old(region).start_key@,
        final(region).end_key@ == old(region).end_key@,
        final(region).region_epoch == old(region).region_epoch,
{
    let mut i: usize = 0;
    while i < region.peers.len()
        invariant
            i <= region.peers@.len(),
            region.peers@ == old(region).peers@,
            region.id == old(region).id,
            region.start_key@ == old(region).start_key@,
            region.end_key@ == old(region).end_key@,
            region.region_epoch == old(region).region_epoch,
            forall|j: int| 0 <= j < i ==> (#[trigger] region.peers@[j]).store_id != store_id,
        decreases region.peers@.len() - i,
    {
        if region.peers[i].store_id == store_id {
            proof {
                lemma_peer_index_prefix(region.peers@, store_id, i as int);
            }
            let p = region.peers.remove(i);
            return Some(p);
        }
        i = i + 1;
    }
    proof {
        lemma_peer_index_none(region.peers@, store_id);
    }
    None
}

/// A peer with the given store and id.
pub fn new_peer(store_id: u64, peer_id: u64) -> (r: Peer)
    ensures
        r == (Peer { id: peer_id, store_id }),
{
    Peer { id: peer_id, store_id }
}

/// Whether `key` lies in `[start_key, end_key]`, an empty end key meaning no bound.
pub fn check_key_in_region_inclusive(key: &[u8], region: &Region) -> (r: Result<(), Error>)
    ensures
        r is Ok <==> key_le(region.start_key@, key@) && (region.end_key@.len() == 0 || key_le(
            key@,
            region.end_key@,
        )),
        r is Err ==> r == Err::<(), Error>(Error::KeyNotInRegion),
{
    let after_start = compare_keys(key, region.start_key.as_slice()) >= 0;
    let before_end = region.end_key.len() == 0 || compare_keys(key, region.end_key.as_slice()) <= 0;
    if after_start && before_end {
        Ok(())
    } else {
        Err(Error::KeyNotInRegion)
    }
}

/// Whether `key` lies in `[start_key, end_key)`, an empty end key meaning no bound.
pub fn check_key_in_region(key: &[u8], region: &Region) -> (r: Result<(), Error>)
    ensures
        r is Ok <==> key_le(region.start_key@, key@) && (region.end_key@.len() == 0 || key_lt(
            key@,
            region.end_key@,
        )),
        r is Err ==> r == Err::<(), Error>(Error::KeyNotInRegion),
{
    let after_start = compare_keys(key, region.start_key.as_slice()) >= 0;
    let before_end = region.end_key.len() == 0 || compare_keys(key, region.end_key.as_slice()) < 0;
    if after_start && before_end {
        Ok(())
    } else {
        Err(Error::KeyNotInRegion)
    }
}

/// Whether `msg` is the first vote request of a new region's peer.
pub fn is_first_vote_msg(msg: &RaftMessage) -> (r: bool)
    ensures
        r == (msg.message.msg_type == MessageType::MsgRequestVote && msg.message.term
            == RAFT_INIT_LOG_TERM + 1),
{
    msg.message.msg_type == MessageType::MsgRequestVote && msg.message.term == RAFT_INIT_LOG_TERM + 1
}

/// The name of a membership change.
pub fn conf_change_type_str(conf_type: &ConfChangeType) -> (r: &'static str)
    ensures
        *conf_type == ConfChangeType::AddNode ==> r@ == "AddNode"@,
        *conf_type == ConfChangeType::RemoveNode ==> r@ == "RemoveNode"@,
{
    match *conf_type {
        ConfChangeType::AddNode => "AddNode",
        ConfChangeType::RemoveNode => "RemoveNode",
    }
}

/// Whether `epoch` is older than `check_epoch` in either counter.
pub fn is_epoch_stale(epoch: &RegionEpoch, check_epoch: &RegionEpoch) -> (r: bool)
    ensures
        r == (epoch.version < check_epoch.version || epoch.conf_ver < check_epoch.conf_ver),
{
    epoch.version < check_epoch.version || epoch.conf_ver < check_epoch.conf_ver
}

} // verus!
