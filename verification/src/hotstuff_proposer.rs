//! The block proposer of the HotStuff variant: it proposes when the core asks,
//! with a payload of `max_packet_size` zero bytes.
use vstd::prelude::*;
use crate::committee::Committee;
use crate::crypto::PublicKey;
use crate::keyed::retain_rounds_after;
use std::collections::HashMap;
use crate::messages::{Block, Proposal, QC, Round, zero32};
use crate::proposer::zeros;

verus! {

broadcast use vstd::std_specs::hash::group_hash_axioms;

/// What the core asks of the proposer.
#[derive(Clone, Copy, Debug, PartialEq, Eq, Structural)]
pub enum ProposerMessage {
    Propose(),
    Cleanup(Round),
}

/// The proposer's state; sending and the delivery handles stay with the task
/// that runs it.
pub struct Proposer {
    pub name: PublicKey,
    pub consensus_only: bool,
    pub committee: Committee,
    /// Rounds whose proposals are still being delivered.
    pub in_progress: HashMap<u64, ()>,
    pub last_proposed: Block,
    pub max_block_delay: u64,
    pub max_block_size: usize,
    pub max_packet_size: usize,
    /// Transactions waiting to be proposed.
    pub buffer: Vec<u8>,
    pub proposal_request: Option<QC>,
    pub round: Round,
    pub counter: u64,
}

impl Proposer {
    /// The rounds still being delivered.
    pub closed spec fn in_progress(&self) -> Set<Round> {
        self.in_progress@.dom()
    }


    /// A proposer at round 1 with an empty buffer, nothing in delivery, and the
    /// genesis block as the last proposal.
    pub fn new(
        name: PublicKey,
        consensus_only: bool,
        committee: Committee,
        max_block_size: usize,
        max_packet_size: usize,
    ) -> (p: Self)
        ensures
            p.name == name,
            p.consensus_only == consensus_only,
            p.committee == committee,
            p.in_progress() == Set::<Round>::empty(),
            p.last_proposed.round == 0,
            p.last_proposed.author@ == zero32(),
            p.max_block_delay == 2_000,
            p.max_block_size == max_block_size,
            p.max_packet_size == max_packet_size,
            p.buffer@.len() == 0,
            p.proposal_request is None,
            p.round == 1,
            p.counter == 0,
    {
        Proposer {
            name,
            consensus_only,
            committee,
            in_progress: HashMap::new(),
            last_proposed: Block::genesis(),
            max_block_delay: 2_000,
            max_block_size,
            max_packet_size,
            buffer: Vec::new(),
            proposal_request: None,
            round: 1,
            counter: 0,
        }
    }

    /// Whether the proposal of round `r` is still being delivered.
    pub fn is_in_progress(&self, r: Round) -> (b: bool)
        ensures
            b == self.in_progress().contains(r),
    {
        self.in_progress.contains_key(&r)
    }

    /// Takes up to `max_block_size` bytes off the front of the buffer.
    pub fn get_payload(&mut self) -> (payload: Vec<u8>)
        ensures
            ({
                let k = if old(self).buffer@.len() < old(self).max_block_size { old(self).buffer@.len() as int } else { old(self).max_block_size as int };
                &&& payload@ == old(self).buffer@.take(k)
                &&& final(self).buffer@ == old(self).buffer@.skip(k)
            }),
            *final(self) == (Proposer { buffer: final(self).buffer, ..*old(self) }),
    {
        let k = if self.buffer.len() < self.max_block_size { self.buffer.len() } else { self.max_block_size };
        let mut payload: Vec<u8> = Vec::new();
        let mut rest: Vec<u8> = Vec::new();
        let mut i: usize = 0;
        while i < self.buffer.len()
            invariant
                i <= self.buffer@.len(),
                k <= self.buffer@.len(),
                payload@ == self.buffer@.take(if i < k { i as int } else { k as int }),
                rest@ == if i <= k { Seq::<u8>::empty() } else { self.buffer@.subrange(k as int, i as int) },
            decreases self.buffer@.len() - i,
        {
            if i < k {
                payload.push(self.buffer[i]);
            } else {
                rest.push(self.buffer[i]);
            }
            i = i + 1;
            assert(payload@ =~= self.buffer@.take(if i < k { i as int } else { k as int }));
            assert(rest@ =~= if i <= k { Seq::<u8>::empty() } else { self.buffer@.subrange(k as int, i as int) });
        }
        assert(rest@ =~= self.buffer@.skip(k as int));
        self.buffer = rest;
        payload
    }

    /// `p` is the proposal of `author` for `round` with `size` zero bytes of payload.
    pub open spec fn proposal_of(p: Proposal, author: PublicKey, round: Round, size: nat, idx: u64) -> bool {
        &&& p.block.author == author
        &&& p.block.parent@ == zero32()
        &&& p.block.sample_tx == 0
        &&& p.block.payload@ == zeros(size)
        &&& p.block.meta_indep@.len() == 0
        &&& p.block.meta_dep@.len() == 0
        &&& p.block.round == round
        &&& p.block.idx == idx
    }

    /// The current round's block; the round moves on.
    pub fn make_proposal(&mut self) -> (p: Proposal)
        requires
            old(self).round < u64::MAX,
        ensures
            *final(self) == (Proposer { round: (old(self).round + 1) as u64, ..*old(self) }),
            Self::proposal_of(p, old(self).name, old(self).round, old(self).max_packet_size as nat, old(self).counter),
    {
        let payload: Vec<u8> = vec![0u8; self.max_packet_size];
        assert(payload@ =~= zeros(self.max_packet_size as nat));
        let b = Block::new(self.name, 0, payload, Vec::new(), Vec::new(), self.round, self.counter);
        self.round = self.round + 1;
        Proposal::new(b)
    }

    /// Makes the next proposal (for the core and for every other node) and marks
    /// it as being delivered until its round is cleaned up.
    pub fn propose(&mut self) -> (p: Proposal)
        requires
            old(self).round < u64::MAX,
        ensures
            final(self).in_progress() == old(self).in_progress().insert(old(self).round),
            *final(self) == (Proposer {
                in_progress: final(self).in_progress,
                round: (old(self).round + 1) as u64,
                ..*old(self)
            }),
            Self::proposal_of(p, old(self).name, old(self).round, old(self).max_packet_size as nat, old(self).counter),
    {
        let p = self.make_proposal();
        self.in_progress.insert(p.block.round, ());
        p
    }

    /// Records `b` as the last proposal unless its digest is that of the last one.
    pub fn record_proposal(&mut self, b: Block)
        ensures
            old(self).last_proposed.digest_view() != b.digest_view() ==> final(self).last_proposed == b,
            old(self).last_proposed.digest_view() == b.digest_view() ==> final(self).last_proposed == old(self).last_proposed,
            *final(self) == (Proposer { last_proposed: final(self).last_proposed, ..*old(self) }),
    {
        if b.digest() != self.last_proposed.digest() {
            self.last_proposed = b;
        }
    }

    /// Stops delivering the proposals of rounds up to `r`.
    pub fn cleanup(&mut self, r: Round)
        ensures
            final(self).in_progress() == old(self).in_progress().filter(|k: Round| k > r),
            *final(self) == (Proposer { in_progress: final(self).in_progress, ..*old(self) }),
    {
        retain_rounds_after(&mut self.in_progress, r);
        assert(self.in_progress() =~= old(self).in_progress().filter(|k: Round| k > r));
    }

    /// A message from the core: a request to propose, or a cleanup.
    pub fn on_message(&mut self, m: ProposerMessage) -> (p: Option<Proposal>)
        requires
            m is Propose ==> old(self).round < u64::MAX,
        ensures
            m is Propose ==> (p matches Some(q)
                && Self::proposal_of(q, old(self).name, old(self).round, old(self).max_packet_size as nat, old(self).counter)
                && final(self).in_progress() == old(self).in_progress().insert(old(self).round)
                && *final(self) == (Proposer {
                    in_progress: final(self).in_progress,
                    round: (old(self).round + 1) as u64,
                    ..*old(self)
                })),
            m matches ProposerMessage::Cleanup(r) ==> p is None
                && final(self).in_progress() == old(self).in_progress().filter(|k: Round| k > r)
                && *final(self) == (Proposer { in_progress: final(self).in_progress, ..*old(self) }),
    {
        match m {
            ProposerMessage::Propose() => Some(self.propose()),
            ProposerMessage::Cleanup(r) => {
                self.cleanup(r);
                None
            },
        }
    }
}

} // verus!
