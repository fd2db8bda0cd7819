//! The messages nodes exchange, how incoming ones are routed, and what a node
//! works out from the committee when it starts.
use vstd::prelude::*;
use crate::committee::{Address, Authority, Committee, Host};
use crate::crypto::{Digest, PublicKey};
use crate::leader::LeaderElector;
use crate::messages::{Block, DependentMeta, Proposal, Vote};

verus! {

/// The default capacity of each channel of the consensus.
pub const CHANNEL_CAPACITY: usize = 1_000;

/// A message between consensus nodes.
#[derive(Debug)]
pub enum ConsensusMessage {
    Propose(Proposal),
    Vote(Vote),
    DependentMeta(DependentMeta),
    SyncRequest(Digest, PublicKey),
    SyncResponse(Block),
}

/// Where an incoming message goes.
#[derive(Debug)]
pub enum Route {
    /// A sync request, for the helper: the missing digest and who asks.
    Helper(Digest, PublicKey),
    /// Everything else, for the consensus core.
    Consensus(ConsensusMessage),
}

/// Sync requests go to the helper, everything else to the core.
pub fn route(message: ConsensusMessage) -> (r: Route)
    ensures
        message matches ConsensusMessage::SyncRequest(d, o) ==> r == Route::Helper(d, o),
        !(message is SyncRequest) ==> r == Route::Consensus(message),
{
    match message {
        ConsensusMessage::SyncRequest(missing, origin) => Route::Helper(missing, origin),
        message => Route::Consensus(message),
    }
}

impl Committee {
    /// A copy of the committee.
    pub fn duplicate(&self) -> (c: Committee)
        ensures
            c.authorities@ == self.authorities@,
    {
        let mut authorities: Vec<Authority> = Vec::new();
        let mut i: usize = 0;
        while i < self.authorities.len()
            invariant
                i <= self.authorities@.len(),
                authorities@ == self.authorities@.take(i as int),
            decreases self.authorities@.len() - i,
        {
            authorities.push(self.authorities[i]);
            i = i + 1;
            assert(authorities@ =~= self.authorities@.take(i as int));
        }
        assert(self.authorities@.take(i as int) =~= self.authorities@);
        Committee { authorities }
    }
}

/// The consensus protocol of a node.
pub struct Consensus;

/// What a node works out from the committee before its tasks start.
pub struct NodeSetup {
    /// The node's consensus address with the IP set to 0.0.0.0, to listen on.
    pub listen_address: Address,
    /// The leader elector for the committee.
    pub leader_elector: LeaderElector,
    /// The node leads round 1, and so proposes.
    pub is_proposer: bool,
}

impl Consensus {
    /// Sets a node up: where it listens, who leads, and whether it proposes.
    pub fn setup(name: &PublicKey, committee: &Committee) -> (c: NodeSetup)
        requires
            committee.wf(),
            committee.has(name@),
            committee.authorities@.len() * (committee.authorities@.len() - 1) + 1 <= usize::MAX,
        ensures
            committee.address_of(name@) matches Some(a) && c.listen_address == (Address {
                host: Host::V4(0),
                port: a.port,
            }),
            c.leader_elector.built_from(*committee),
            c.leader_elector.entries().len() > 0,
            c.is_proposer == (c.leader_elector.leader_at(1) == name@),
    {
        let mut address = match committee.consensus(name) {
            Some(a) => a,
            None => {
                assert(false);
                Address { host: Host::V4(0), port: 0 }
            },
        };
        address.host = Host::V4(0);
        let members = committee.duplicate();
        let leader_elector = LeaderElector::new(members);
        proof {
            let i = committee.index_of(name@);
            assert(crate::leader::member_entry(members, crate::leader::entry_of(committee.authorities@[i])));
            assert(leader_elector.entries().contains(crate::leader::entry_of(committee.authorities@[i])));
            assert forall|x: (Address, PublicKey)| #![trigger crate::leader::member_entry(*committee, x)]
                crate::leader::member_entry(*committee, x) == crate::leader::member_entry(members, x) by {}
        }
        let is_proposer = *name == leader_elector.get_leader(1);
        NodeSetup { listen_address: address, leader_elector, is_proposer }
    }
}

} // verus!
