//! The consensus core: its state, and what it decides on each event (timeouts,
//! proposals) and for each message it sends.
use vstd::prelude::*;
use crate::aggregator::{Aggregator, MakerView};
use crate::committee::{Address, Committee};
use crate::consensus::ConsensusMessage;
use crate::crypto::PublicKey;
use crate::keyed::DigestMap;
use std::collections::HashMap;
use crate::leader::LeaderElector;
use crate::messages::{Block, ConsensusError, Proposal, QC, Round, VoteType, genesis_digest, zero32};
use crate::proposer::ProposerMessage;

verus! {

broadcast use vstd::std_specs::hash::group_hash_axioms;

/// The round of the genesis block.
pub const GENESIS: u64 = 0;

/// What the core reacts to.
pub enum CoreEvent {
    /// A message from another node.
    Message(ConsensusMessage),
    /// A proposal from the local proposer.
    Proposal(Proposal),
    /// The round timer expired.
    Timeout,
}

/// The core's state; channels, the timer, the store and the network stay with
/// the task that runs it.
pub struct Core {
    pub aggregator: Aggregator,
    pub committee: Committee,
    pub committable_blocks: DigestMap<Round>,
    pub consensus_only: bool,
    pub last_commit: Block,
    pub last_vote: Round,
    pub last_proposal: Round,
    pub last_timeout: Round,
    pub leader_elector: LeaderElector,
    pub locked: QC,
    pub name: PublicKey,
    /// Uncommitted blocks by round.
    pub pending_blocks: HashMap<u64, Block>,
    pub round: Round,
    pub sync_requests: DigestMap<()>,
    /// Uncommitted blocks by digest.
    pub uncommitted_blocks: DigestMap<Block>,
    pub uncommitted_qcs: HashMap<u64, QC>,
    pub use_vote_aggregator: bool,
    pub processing_blocks: HashMap<u64, u64>,
}

/// `b` is the genesis block.
pub open spec fn is_genesis_block(b: Block) -> bool {
    &&& b.author@ == zero32()
    &&& b.parent@ == zero32()
    &&& b.sample_tx == 0
    &&& b.payload@.len() == 0
    &&& b.meta_indep@.len() == 0
    &&& b.meta_dep@.len() == 0
    &&& b.round == 0
    &&& b.idx == 0
}

/// `qc` is the genesis certificate.
pub open spec fn is_genesis_qc(qc: QC) -> bool {
    &&& qc.hash@ == genesis_digest()
    &&& qc.kind == VoteType::Commit
    &&& qc.round == 0
    &&& qc.votes@.len() == 0
}

impl Core {
    pub open spec fn wf(&self) -> bool {
        &&& self.committee.wf()
        &&& self.aggregator.wf()
        &&& self.aggregator.committee().authorities@ == self.committee.authorities@
        &&& self.committable_blocks.wf()
        &&& self.sync_requests.wf()
        &&& self.uncommitted_blocks.wf()
        &&& self.leader_elector.wf()
    }

    /// The leader of the first round.
    pub open spec fn first_leader(&self) -> Seq<u8> {
        self.leader_elector.leader_at(1)
    }

    /// The core at round 1: the genesis block is the last commit and the only
    /// uncommitted block, the genesis certificate the lock and the only
    /// certificate, and no votes are gathered yet.
    pub fn new(
        name: PublicKey,
        committee: Committee,
        consensus_only: bool,
        leader_elector: LeaderElector,
        use_vote_aggregator: bool,
    ) -> (c: Self)
        requires
            committee.wf(),
            leader_elector.wf(),
        ensures
            c.wf(),
            c.name == name,
            c.committee.authorities@ == committee.authorities@,
            c.consensus_only == consensus_only,
            c.leader_elector == leader_elector,
            c.use_vote_aggregator == use_vote_aggregator,
            c.round == 1,
            c.last_vote == GENESIS && c.last_proposal == GENESIS && c.last_timeout == GENESIS,
            is_genesis_block(c.last_commit),
            is_genesis_qc(c.locked),
            c.aggregator.makers() == Map::<(Round, Seq<u8>), MakerView>::empty(),
            c.pending_blocks@.dom() == set![0u64] && is_genesis_block(c.pending_blocks@[0]),
            c.uncommitted_blocks.view().dom() == set![genesis_digest()] && is_genesis_block(c.uncommitted_blocks.view()[genesis_digest()]),
            c.uncommitted_qcs@.dom() == set![0u64] && is_genesis_qc(c.uncommitted_qcs@[0]),
            c.committable_blocks.view().dom() == Set::<Seq<u8>>::empty(),
            c.sync_requests.view().dom() == Set::<Seq<u8>>::empty(),
            c.processing_blocks@.dom() == Set::<u64>::empty(),
    {
        let mut uncommitted_blocks: DigestMap<Block> = DigestMap::new();
        let mut pending_blocks: HashMap<u64, Block> = HashMap::new();
        let mut uncommitted_qcs: HashMap<u64, QC> = HashMap::new();
        let genesis_block = Block::genesis();
        let digest = genesis_block.digest();
        uncommitted_blocks.insert(digest, genesis_block.duplicate());
        pending_blocks.insert(genesis_block.round, genesis_block.duplicate());
        uncommitted_qcs.insert(genesis_block.round, QC::genesis());
        let aggregator = Aggregator::new(committee.duplicate());
        let c = Core {
            aggregator,
            committee,
            committable_blocks: DigestMap::new(),
            consensus_only,
            last_commit: genesis_block,
            last_vote: GENESIS,
            last_proposal: GENESIS,
            last_timeout: GENESIS,
            leader_elector,
            locked: QC::genesis(),
            name,
            pending_blocks,
            round: 1,
            sync_requests: DigestMap::new(),
            uncommitted_blocks,
            uncommitted_qcs,
            use_vote_aggregator,
            processing_blocks: HashMap::new(),
        };
        assert(c.pending_blocks@.dom() =~= set![0u64]);
        assert(c.uncommitted_blocks.view().dom() =~= set![genesis_digest()]);
        assert(c.uncommitted_qcs@.dom() =~= set![0u64]);
        assert(c.committable_blocks.view().dom() =~= Set::<Seq<u8>>::empty());
        assert(c.sync_requests.view().dom() =~= Set::<Seq<u8>>::empty());
        assert(c.processing_blocks@.dom() =~= Set::<u64>::empty());
        c
    }

    /// Where a broadcast of `m` goes: to every other member of the committee.
    pub fn broadcast_addresses(&self, m: &ConsensusMessage) -> (a: Vec<Address>)
        ensures
            a@ == self.committee.others(self.name@).map_values(|p: (PublicKey, Address)| p.1),
    {
        self.committee.others_consensus_sockets(&self.name)
    }

    /// Where a unicast of `m` to `recipient` goes: nowhere when the recipient is
    /// this node, else to the recipient's address.
    pub fn send_to_address(&self, m: &ConsensusMessage, recipient: &PublicKey) -> (a: Option<Address>)
        requires
            self.committee.wf(),
            recipient@ != self.name@ ==> self.committee.has(recipient@),
        ensures
            a == if recipient@ == self.name@ { None } else { self.committee.address_of(recipient@) },
            recipient@ != self.name@ ==> a is Some,
    {
        if !(*recipient == self.name) {
            self.committee.consensus(recipient)
        } else {
            None
        }
    }

    /// Keeps a recent block in memory, by round and by digest; returns the key
    /// (the digest's bytes) under which it is to be written to the store.
    pub fn store_block(&mut self, block: &Block) -> (key: Vec<u8>)
        requires
            old(self).wf(),
            block.round > old(self).last_commit.round,
        ensures
            final(self).wf(),
            key@ == block.digest_view(),
            exists|b: Block| b.same_as(block) && final(self).pending_blocks@ == old(self).pending_blocks@.insert(block.round, b),
            exists|b: Block| b.same_as(block) && final(self).uncommitted_blocks.view() == old(self).uncommitted_blocks.view().insert(block.digest_view(), b),
            *final(self) == (Core {
                pending_blocks: final(self).pending_blocks,
                uncommitted_blocks: final(self).uncommitted_blocks,
                ..*old(self)
            }),
    {
        let b1 = block.duplicate();
        self.pending_blocks.insert(block.round, b1);
        let digest = block.digest();
        let b2 = block.duplicate();
        self.uncommitted_blocks.insert(digest, b2);
        digest.to_vec()
    }

    /// Leaving rounds up to `r` behind: drops their vote aggregators, and returns
    /// the message that stops the proposer delivering their proposals.
    pub fn cleanup(&mut self, r: Round) -> (m: ProposerMessage)
        requires
            old(self).wf(),
        ensures
            final(self).wf(),
            m == ProposerMessage::Cleanup(r),
            final(self).aggregator.makers() == crate::aggregator::rounds_after(old(self).aggregator.makers(), r),
            *final(self) == (Core { aggregator: final(self).aggregator, ..*old(self) }),
    {
        self.aggregator.cleanup_prepares(&r);
        self.cleanup_proposals(r)
    }

    /// The message that stops the proposer delivering the proposals of rounds up to `r`.
    pub fn cleanup_proposals(&self, r: Round) -> (m: ProposerMessage)
        ensures
            m == ProposerMessage::Cleanup(r),
    {
        ProposerMessage::Cleanup(r)
    }

    /// If this node leads round 1, asks the proposer for a proposal and records
    /// the current round as proposed in.
    pub fn propose_if_leader(&mut self) -> (m: Option<ProposerMessage>)
        requires
            old(self).wf(),
            old(self).leader_elector.entries().len() > 0,
        ensures
            final(self).wf(),
            old(self).name@ == old(self).first_leader() ==> m == Some(ProposerMessage::Propose())
                && *final(self) == (Core { last_proposal: old(self).round, ..*old(self) }),
            old(self).name@ != old(self).first_leader() ==> m is None && *final(self) == *old(self),
    {
        if self.name == self.leader_elector.get_leader(1) {
            // Never make a second, equivocal proposal.
            self.last_proposal = self.round;
            Some(ProposerMessage::Propose())
        } else {
            None
        }
    }

    /// The proposal of a normal round.
    pub fn propose_normal(&mut self) -> (m: Option<ProposerMessage>)
        requires
            old(self).wf(),
            old(self).leader_elector.entries().len() > 0,
        ensures
            final(self).wf(),
            old(self).name@ == old(self).first_leader() ==> m == Some(ProposerMessage::Propose())
                && *final(self) == (Core { last_proposal: old(self).round, ..*old(self) }),
            old(self).name@ != old(self).first_leader() ==> m is None && *final(self) == *old(self),
    {
        self.propose_if_leader()
    }

    /// The round timed out without a certificate: propose if leading. (The timer
    /// is then restarted.)
    pub fn local_timeout_round(&mut self) -> (r: (Result<(), ConsensusError>, Option<ProposerMessage>))
        requires
            old(self).wf(),
            old(self).leader_elector.entries().len() > 0,
        ensures
            final(self).wf(),
            r.0 is Ok,
            old(self).name@ == old(self).first_leader() ==> r.1 == Some(ProposerMessage::Propose())
                && *final(self) == (Core { last_proposal: old(self).round, ..*old(self) }),
            old(self).name@ != old(self).first_leader() ==> r.1 is None && *final(self) == *old(self),
    {
        let m = self.propose_if_leader();
        (Ok(()), m)
    }

    /// A proposal is only received (and logged).
    pub fn handle_proposal(&mut self, p: Proposal) -> (r: Result<(), ConsensusError>)
        ensures
            r is Ok,
            *final(self) == *old(self),
    {
        Ok(())
    }

    /// The first thing the core does: propose if leading. (The timer is started
    /// as well.)
    pub fn start(&mut self) -> (m: Option<ProposerMessage>)
        requires
            old(self).wf(),
            old(self).leader_elector.entries().len() > 0,
        ensures
            final(self).wf(),
            old(self).name@ == old(self).first_leader() ==> m == Some(ProposerMessage::Propose())
                && *final(self) == (Core { last_proposal: old(self).round, ..*old(self) }),
            old(self).name@ != old(self).first_leader() ==> m is None && *final(self) == *old(self),
    {
        self.propose_normal()
    }

    /// One event of the core's loop: proposals (from other nodes or from the
    /// proposer) are handled; a timeout leads to a proposal if leading. Other
    /// messages are not expected.
    pub fn on_event(&mut self, ev: CoreEvent) -> (r: (Result<(), ConsensusError>, Option<ProposerMessage>))
        requires
            old(self).wf(),
            ev matches CoreEvent::Message(m) ==> m is Propose,
            ev is Timeout ==> old(self).leader_elector.entries().len() > 0,
        ensures
            final(self).wf(),
            r.0 is Ok,
            !(ev is Timeout) ==> r.1 is None && *final(self) == *old(self),
            ev is Timeout && old(self).name@ == old(self).first_leader() ==> r.1 == Some(ProposerMessage::Propose())
                && *final(self) == (Core { last_proposal: old(self).round, ..*old(self) }),
            ev is Timeout && old(self).name@ != old(self).first_leader() ==> r.1 is None && *final(self) == *old(self),
    {
        match ev {
            CoreEvent::Message(ConsensusMessage::Propose(proposal)) => (self.handle_proposal(proposal), None),
            CoreEvent::Message(_) => {
                assert(false);
                (Ok(()), None)
            },
            CoreEvent::Proposal(proposal) => (self.handle_proposal(proposal), None),
            CoreEvent::Timeout => self.local_timeout_round(),
        }
    }
}

} // verus!
