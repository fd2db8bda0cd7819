//! The block proposer of the best-effort broadcast protocol: the designated
//! proposer uploads a whole block on one tick of its timer and the block's
//! dependent metadata on the next, once the block has had time to clear.
use vstd::prelude::*;
use crate::committee::Committee;
use crate::crypto::PublicKey;
use crate::keyed::retain_rounds_after;
use std::collections::HashMap;
use crate::messages::{Block, DependentMeta, Proposal, Round, zero32};

verus! {

broadcast use vstd::std_specs::hash::group_hash_axioms;

/// What a tick of the proposer's timer sends.
pub enum Tick {
    /// A new block, for the core and for every other node.
    Block(Proposal),
    /// The dependent metadata of the current round, for every other node.
    Meta(DependentMeta),
}

/// What the core asks of the proposer.
#[derive(Clone, Copy, Debug, PartialEq, Eq, Structural)]
pub enum ProposerMessage {
    Propose(),
    Cleanup(Round),
}

/// The proposer's state; sending, the timer and the delivery handles stay with
/// the task that runs it.
pub struct Proposer {
    pub name: PublicKey,
    pub consensus_only: bool,
    pub committee: Committee,
    /// Rounds whose proposals are still being delivered.
    pub in_progress: HashMap<u64, ()>,
    /// Rounds whose dependent metadata is still being delivered.
    pub cancel_handlers: HashMap<u64, ()>,
    pub last_proposed: Block,
    pub payload_size: usize,
    pub effective_payload_size: usize,
    /// Sample transactions waiting to be proposed.
    pub buffer: Vec<u64>,
    pub round: Round,
    pub counter: u64,
    pub meta_indep_size: usize,
    pub meta_dep_size: usize,
    pub bandwidth: u64,
    pub is_proposer: bool,
    /// false: a block was proposed last, so its metadata goes next; true: the
    /// metadata of the last block was sent (or nothing was sent yet), so a new
    /// block goes next.
    pub last_action: bool,
    pub nodes: u64,
}

/// `n` zero bytes.
pub open spec fn zeros(n: nat) -> Seq<u8> {
    Seq::new(n, |i: int| 0u8)
}

/// The time, in milliseconds, for a payload of `payload_size` bytes to reach the
/// `nodes - 1` other nodes at `bandwidth` bytes per second.
pub open spec fn propagation_ms(payload_size: nat, nodes: nat, bandwidth: nat) -> nat {
    (payload_size * (nodes - 1) * 1000 / (bandwidth as int)) as nat
}

impl Proposer {
    /// The rounds still being delivered.
    pub closed spec fn in_progress(&self) -> Set<Round> {
        self.in_progress@.dom()
    }

    /// The rounds whose dependent metadata is still being delivered.
    pub closed spec fn pending_meta(&self) -> Set<Round> {
        self.cancel_handlers@.dom()
    }

    /// Blocks carry at least the 8 bytes of their sample transaction, and the
    /// propagation time can be computed.
    pub open spec fn params_ok(payload_size: nat, nodes: nat, bandwidth: nat) -> bool {
        &&& payload_size >= 8
        &&& bandwidth > 0
        &&& nodes >= 1
        &&& payload_size * (nodes - 1) * 1000 <= u64::MAX
    }


    /// The proposer can make its next proposal: the payload holds the sample
    /// transaction, the propagation time can be computed, the round can grow.
    pub open spec fn can_propose(&self) -> bool {
        &&& Self::params_ok(self.payload_size as nat, self.nodes as nat, self.bandwidth as nat)
        &&& self.round < u64::MAX
    }

    /// The propagation time of the dependent metadata can be computed.
    pub open spec fn can_send_meta(&self) -> bool {
        &&& self.bandwidth > 0
        &&& self.nodes >= 1
        &&& self.meta_dep_size * (self.nodes - 1) * 1000 <= u64::MAX
    }

    /// The next tick can be taken: a proposal after metadata, metadata after a
    /// proposal.
    pub open spec fn can_tick(&self) -> bool {
        if self.last_action {
            self.can_propose()
        } else {
            self.can_send_meta()
        }
    }

    /// `new` is `old` after one tick that returned `r`. After metadata (or at the
    /// start) the tick proposes the next block and records that a block went
    /// last; after a block it sends the block's dependent metadata and records
    /// that metadata went last. Either way the next sample transaction (the
    /// counter) joins the buffer, and the time the upload takes to reach the
    /// other nodes comes back with it.
    pub open spec fn ticked(old: Proposer, new: Proposer, r: (Tick, u64)) -> bool {
        &&& new.buffer@ == old.buffer@.push(old.counter)
        &&& old.last_action ==> {
            &&& r.0 matches Tick::Block(p) && Self::proposal_of(
                p,
                old.name,
                (old.round + 1) as u64,
                old.payload_size as nat,
                old.counter,
            )
            &&& r.1 == propagation_ms(old.payload_size as nat, old.nodes as nat, old.bandwidth as nat)
            &&& new.in_progress() == old.in_progress().insert((old.round + 1) as u64)
            &&& new == (Proposer {
                buffer: new.buffer,
                in_progress: new.in_progress,
                round: (old.round + 1) as u64,
                last_action: false,
                ..old
            })
        }
        &&& !old.last_action ==> {
            &&& r.0 matches Tick::Meta(m) && m.author == old.name && m.meta@ == zeros(
                old.meta_dep_size as nat,
            ) && m.round == old.round
            &&& r.1 == propagation_ms(old.meta_dep_size as nat, old.nodes as nat, old.bandwidth as nat)
            &&& new.pending_meta() == old.pending_meta().insert(old.round)
            &&& new == (Proposer {
                buffer: new.buffer,
                cancel_handlers: new.cancel_handlers,
                last_action: true,
                ..old
            })
        }
    }

    /// A proposer at round 1 with an empty buffer, nothing in delivery, the
    /// genesis block as the last proposal.
    pub fn new(
        name: PublicKey,
        consensus_only: bool,
        committee: Committee,
        meta_indep_size: usize,
        meta_dep_size: usize,
        is_proposer: bool,
        bandwidth: u64,
        nodes: u64,
        payload_size: usize,
        effective_payload_size: usize,
    ) -> (p: Self)
        ensures
            p.name == name,
            p.consensus_only == consensus_only,
            p.committee == committee,
            p.in_progress() == Set::<Round>::empty(),
            p.pending_meta() == Set::<Round>::empty(),
            p.last_proposed.round == 0,
            p.last_proposed.author@ == zero32(),
            p.payload_size == payload_size,
            p.effective_payload_size == effective_payload_size,
            p.buffer@.len() == 0,
            p.round == 1,
            p.counter == 0,
            p.meta_indep_size == meta_indep_size,
            p.meta_dep_size == meta_dep_size,
            p.bandwidth == bandwidth,
            p.is_proposer == is_proposer,
            p.last_action == true,
            p.nodes == nodes,
    {
        Proposer {
            name,
            consensus_only,
            committee,
            in_progress: HashMap::new(),
            cancel_handlers: HashMap::new(),
            last_proposed: Block::genesis(),
            payload_size,
            effective_payload_size,
            buffer: Vec::new(),
            round: 1,
            counter: 0,
            meta_indep_size,
            meta_dep_size,
            bandwidth,
            is_proposer,
            // nothing is in flight: the first tick proposes
            last_action: true,
            nodes,
        }
    }

    /// Whether the proposal of round `r` is still being delivered.
    pub fn is_in_progress(&self, r: Round) -> (b: bool)
        ensures
            b == self.in_progress().contains(r),
    {
        self.in_progress.contains_key(&r)
    }

    /// Whether the dependent metadata of round `r` is still being delivered.
    pub fn is_meta_pending(&self, r: Round) -> (b: bool)
        ensures
            b == self.pending_meta().contains(r),
    {
        self.cancel_handlers.contains_key(&r)
    }

    /// The oldest buffered sample transaction, or 0 when the buffer is empty.
    pub fn get_payload(&mut self) -> (tx: u64)
        ensures
            old(self).buffer@.len() > 0 ==> tx == old(self).buffer@[0] && final(self).buffer@ == old(self).buffer@.drop_first(),
            old(self).buffer@.len() == 0 ==> tx == 0 && final(self).buffer@ == old(self).buffer@,
            *final(self) == (Proposer { buffer: final(self).buffer, ..*old(self) }),
    {
        if self.buffer.len() > 0 {
            let tx = self.buffer.remove(0);
            assert(self.buffer@ =~= old(self).buffer@.drop_first());
            tx
        } else {
            0u64
        }
    }

    /// Law: a tick's propagation time is the time, in whole milliseconds, that
    /// its upload (the block's payload, or the dependent metadata) takes to reach
    /// the other `nodes - 1` nodes at `bandwidth` bytes per second: the largest
    /// `t` with `t * bandwidth <= size * (nodes - 1) * 1000`.
    pub proof fn lemma_tick_propagation_time(old: Proposer, new: Proposer, r: (Tick, u64))
        requires
            old.can_tick(),
            Self::ticked(old, new, r),
        ensures
            ({
                let size: int = if old.last_action { old.payload_size as int } else { old.meta_dep_size as int };
                let sent = size * (old.nodes - 1) * 1000;
                &&& r.1 * old.bandwidth <= sent
                &&& sent < (r.1 + 1) * old.bandwidth
            }),
    {
        let size: int = if old.last_action { old.payload_size as int } else { old.meta_dep_size as int };
        let sent = size * (old.nodes - 1) * 1000;
        let b = old.bandwidth as int;
        assert(sent >= 0) by (nonlinear_arith)
            requires
                size >= 0,
                old.nodes >= 1,
                sent == size * (old.nodes - 1) * 1000,
        ;
        vstd::arithmetic::div_mod::lemma_fundamental_div_mod(sent, b);
        vstd::arithmetic::div_mod::lemma_mod_bound(sent, b);
        let q = sent / b;
        assert(r.1 == q);
        assert(q * b <= sent && sent < (q + 1) * b) by (nonlinear_arith)
            requires
                sent == b * q + sent % b,
                0 <= sent % b < b,
        ;
    }

    /// A timer tick: buffer the next sample transaction, then either propose
    /// the next block or send the last block's dependent metadata, in turn (see
    /// `ticked`). Returns what to send and the time it takes to propagate.
    pub fn client_reset(&mut self) -> (r: (Tick, u64))
        requires
            old(self).can_tick(),
        ensures
            Self::ticked(*old(self), *final(self), r),
    {
        self.buffer.push(self.counter);
        if self.last_action {
            let propagation_time = ((self.payload_size as u64) * (self.nodes - 1) * 1000) / self.bandwidth;
            let proposal = self.propose();
            self.last_action = false;
            (Tick::Block(proposal), propagation_time)
        } else {
            let propagation_time = ((self.meta_dep_size as u64) * (self.nodes - 1) * 1000) / self.bandwidth;
            let meta = self.send_dependent_meta();
            self.last_action = true;
            (Tick::Meta(meta), propagation_time)
        }
    }

    /// `p` is the proposal of `author` for `round`: a block with the round as its
    /// sample transaction, `payload_size - 8` zero bytes of payload, no metadata,
    /// and `idx` as its index.
    pub open spec fn proposal_of(p: Proposal, author: PublicKey, round: Round, payload_size: nat, idx: u64) -> bool {
        &&& p.block.author == author
        &&& p.block.parent@ == zero32()
        &&& p.block.sample_tx == round
        &&& p.block.payload@ == zeros((payload_size - 8) as nat)
        &&& p.block.meta_indep@.len() == 0
        &&& p.block.meta_dep@.len() == 0
        &&& p.block.round == round
        &&& p.block.idx == idx
    }

    /// Makes the next proposal and marks it as being delivered.
    fn propose(&mut self) -> (p: Proposal)
        requires
            old(self).round < u64::MAX,
            old(self).payload_size >= 8,
        ensures
            final(self).in_progress() == old(self).in_progress().insert((old(self).round + 1) as u64),
            *final(self) == (Proposer {
                in_progress: final(self).in_progress,
                round: (old(self).round + 1) as u64,
                ..*old(self)
            }),
            Self::proposal_of(p, old(self).name, final(self).round, old(self).payload_size as nat, old(self).counter),
    {
        let proposal = self.make_proposal();
        self.in_progress.insert(proposal.block.round, ());
        proposal
    }

    /// The next round's block: the round is also its sample transaction.
    pub fn make_proposal(&mut self) -> (p: Proposal)
        requires
            old(self).round < u64::MAX,
            old(self).payload_size >= 8,
        ensures
            *final(self) == (Proposer { round: (old(self).round + 1) as u64, ..*old(self) }),
            Self::proposal_of(p, old(self).name, final(self).round, old(self).payload_size as nat, old(self).counter),
    {
        let payload: Vec<u8> = vec![0u8; self.payload_size - 8];
        let meta_indep: Vec<u8> = Vec::new();
        let meta_dep: Vec<u8> = Vec::new();
        self.round = self.round + 1;
        let sample_tx: u64 = self.round;
        let b = Block::new(self.name, sample_tx, payload, meta_indep, meta_dep, self.round, self.counter);
        assert(b.payload@ =~= zeros((self.payload_size - 8) as nat));
        Proposal::new(b)
    }

    /// Records `b` as the last proposal unless its digest is that of the last one.
    pub fn record_proposal(&mut self, b: Block)
        ensures
            old(self).last_proposed.digest_view() != b.digest_view() ==> final(self).last_proposed == b,
            old(self).last_proposed.digest_view() == b.digest_view() ==> final(self).last_proposed == old(self).last_proposed,
            *final(self) == (Proposer { last_proposed: final(self).last_proposed, ..*old(self) }),
    {
        if b.digest() != self.last_proposed.digest() {
            // The same payload is then used for any later proposal of this round.
            self.last_proposed = b;
        }
    }

    /// The dependent metadata of the current round (`meta_dep_size` zero bytes),
    /// marked as being delivered.
    pub fn send_dependent_meta(&mut self) -> (m: DependentMeta)
        ensures
            m.author == old(self).name,
            m.meta@ == zeros(old(self).meta_dep_size as nat),
            m.round == old(self).round,
            final(self).pending_meta() == old(self).pending_meta().insert(old(self).round),
            *final(self) == (Proposer { cancel_handlers: final(self).cancel_handlers, ..*old(self) }),
    {
        let meta: Vec<u8> = vec![0u8; self.meta_dep_size];
        assert(meta@ =~= zeros(self.meta_dep_size as nat));
        let m = DependentMeta::new(self.name, meta, self.round);
        self.cancel_handlers.insert(self.round, ());
        m
    }

    /// Stops delivering the proposals and metadata of rounds up to `r`.
    pub fn cleanup(&mut self, r: Round)
        ensures
            final(self).in_progress() == old(self).in_progress().filter(|k: Round| k > r),
            final(self).pending_meta() == old(self).pending_meta().filter(|k: Round| k > r),
            *final(self) == (Proposer {
                in_progress: final(self).in_progress,
                cancel_handlers: final(self).cancel_handlers,
                ..*old(self)
            }),
    {
        retain_rounds_after(&mut self.in_progress, r);
        retain_rounds_after(&mut self.cancel_handlers, r);
        assert(self.in_progress() =~= old(self).in_progress().filter(|k: Round| k > r));
        assert(self.pending_meta() =~= old(self).pending_meta().filter(|k: Round| k > r));
    }

    /// A message from the core: cleanups are carried out; proposals are made on
    /// the timer, not on request.
    pub fn on_message(&mut self, m: ProposerMessage)
        ensures
            m matches ProposerMessage::Cleanup(r) ==> final(self).in_progress() == old(self).in_progress().filter(|k: Round| k > r)
                && final(self).pending_meta() == old(self).pending_meta().filter(|k: Round| k > r)
                && *final(self) == (Proposer {
                    in_progress: final(self).in_progress,
                    cancel_handlers: final(self).cancel_handlers,
                    ..*old(self)
                }),
            m is Propose ==> *final(self) == *old(self),
    {
        match m {
            ProposerMessage::Cleanup(r) => self.cleanup(r),
            _ => {},
        }
    }

    /// A timer tick: the designated proposer takes its turn (see
    /// `client_reset`); any other node does nothing.
    pub fn on_timer(&mut self) -> (r: Option<(Tick, u64)>)
        requires
            old(self).is_proposer ==> old(self).can_tick(),
        ensures
            !old(self).is_proposer ==> r is None && *final(self) == *old(self),
            old(self).is_proposer ==> (r matches Some(t) && Self::ticked(*old(self), *final(self), t)),
    {
        if self.is_proposer {
            Some(self.client_reset())
        } else {
            None
        }
    }
}

} // verus!
