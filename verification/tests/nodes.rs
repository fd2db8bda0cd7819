use consensus::committee::{Address, Authority, Committee, Host};
use consensus::consensus::{route, Consensus, ConsensusMessage, Route};
use consensus::consensus_core::{Core, CoreEvent};
use consensus::crypto::{Digest, PublicKey, Signature};
use consensus::hotstuff_proposer;
use consensus::keyed::retain_rounds_after;
use consensus::leader::LeaderElector;
use consensus::messages::{Block, Proposal, Vote, VoteType, QC};
use consensus::proposer::{Proposer, ProposerMessage, Tick};
use consensus::synchronizer::Synchronizer;

fn committee() -> Committee {
    // keys 1..=4 on ports 4, 3, 2, 1: key 4 leads round 0, key 3 round 1
    let authorities: Vec<Authority> = (1..=4u8)
        .map(|i| Authority { name: PublicKey([i; 32]), stake: 1, address: Address { host: Host::V4(0x0a00_0001), port: 5 - i as u16 } })
        .collect();
    Committee { authorities }
}

#[test]
fn committee_lookups() {
    let c = committee();
    assert_eq!(c.size(), 4);
    assert_eq!(c.stake(&PublicKey([2; 32])), 1);
    assert_eq!(c.stake(&PublicKey([9; 32])), 0);
    assert_eq!(c.quorum_threshold(), 3);
    assert_eq!(c.consensus(&PublicKey([2; 32])), Some(Address { host: Host::V4(0x0a00_0001), port: 3 }));
    assert_eq!(c.consensus(&PublicKey([9; 32])), None);
    let others = c.others_consensus(&PublicKey([2; 32]));
    assert_eq!(others.len(), 3);
    assert!(others.iter().all(|(k, _)| *k != PublicKey([2; 32])));
    assert_eq!(c.others_consensus_sockets(&PublicKey([1; 32])).iter().map(|a| a.port).collect::<Vec<_>>(), vec![3, 2, 1]);
    let mut weighted = committee();
    weighted.authorities[0].stake = 10;
    assert_eq!(weighted.quorum_threshold(), 2 * 13 / 3 + 1);
}

#[test]
fn sync_requests_go_to_the_helper() {
    let d = Digest([5; 32]);
    let k = PublicKey([1; 32]);
    assert!(matches!(route(ConsensusMessage::SyncRequest(d, k)), Route::Helper(x, y) if x == d && y == k));
    let b = Block::genesis();
    assert!(matches!(route(ConsensusMessage::SyncResponse(b)), Route::Consensus(ConsensusMessage::SyncResponse(_))));
    let v = Vote::dummy(1);
    assert!(matches!(route(ConsensusMessage::Vote(v)), Route::Consensus(ConsensusMessage::Vote(_))));
}

#[test]
fn setup_listens_everywhere_and_knows_the_proposer() {
    let c = committee();
    let s = Consensus::setup(&PublicKey([3; 32]), &c);
    assert_eq!(s.listen_address, Address { host: Host::V4(0), port: 2 });
    assert!(s.is_proposer);
    let s = Consensus::setup(&PublicKey([1; 32]), &c);
    assert!(!s.is_proposer);
    assert_eq!(s.leader_elector.get_leader(1), PublicKey([3; 32]));
}

#[test]
fn core_starts_at_genesis_and_the_first_leader_proposes() {
    let c = committee();
    let e = LeaderElector::new(c.duplicate());
    let mut core = Core::new(PublicKey([3; 32]), c, false, e, true);
    assert_eq!(core.round, 1);
    assert_eq!(core.last_proposal, 0);
    assert_eq!(core.last_commit.round, 0);
    assert!(core.locked == QC::genesis());
    assert!(core.pending_blocks.contains_key(&0));
    assert!(core.uncommitted_blocks.contains(&Block::genesis().digest()));
    assert_eq!(core.start(), Some(ProposerMessage::Propose()));
    assert_eq!(core.last_proposal, 1);
    let (r, m) = core.on_event(CoreEvent::Timeout);
    assert!(r.is_ok());
    assert_eq!(m, Some(ProposerMessage::Propose()));
    let (r, m) = core.on_event(CoreEvent::Proposal(Proposal::new(Block::genesis())));
    assert!(r.is_ok());
    assert_eq!(m, None);

    let c = committee();
    let e = LeaderElector::new(c.duplicate());
    let mut other = Core::new(PublicKey([1; 32]), c, false, e, true);
    assert_eq!(other.start(), None);
    assert_eq!(other.on_event(CoreEvent::Timeout).1, None);
    assert_eq!(other.last_proposal, 0);
}

#[test]
fn core_stores_blocks_and_cleans_up() {
    let c = committee();
    let e = LeaderElector::new(c.duplicate());
    let mut core = Core::new(PublicKey([1; 32]), c, false, e, true);
    let b = Block::new(PublicKey([2; 32]), 3, vec![1, 2], vec![], vec![], 3, 0);
    let key = core.store_block(&b);
    assert_eq!(key, b.digest().0.to_vec());
    assert_eq!(core.pending_blocks.get(&3).map(|x| x.digest()), Some(b.digest()));
    assert_eq!(core.uncommitted_blocks.get(&b.digest()).map(|x| x.payload.clone()), Some(vec![1, 2]));
    assert_eq!(core.cleanup(2), ProposerMessage::Cleanup(2));
}

#[test]
fn core_sends_to_the_other_members() {
    let c = committee();
    let e = LeaderElector::new(c.duplicate());
    let core = Core::new(PublicKey([1; 32]), c, false, e, true);
    let vote = ConsensusMessage::Vote(Vote::new(PublicKey([1; 32]), Digest([0; 32]), VoteType::Commit, 1, Signature::default()));
    let proposal = ConsensusMessage::Propose(Proposal::new(Block::genesis()));
    let others: Vec<u16> = core.broadcast_addresses(&vote).iter().map(|a| a.port).collect();
    assert_eq!(others, vec![3, 2, 1]);
    assert_eq!(core.broadcast_addresses(&proposal).len(), 3);
    assert_eq!(core.send_to_address(&vote, &PublicKey([2; 32])), Some(Address { host: Host::V4(0x0a00_0001), port: 3 }));
    assert_eq!(core.send_to_address(&vote, &PublicKey([1; 32])), None);
    assert_eq!(core.send_to_address(&proposal, &PublicKey([2; 32])), Some(Address { host: Host::V4(0x0a00_0001), port: 3 }));
}

fn proposer(is_proposer: bool) -> Proposer {
    Proposer::new(PublicKey([3; 32]), false, committee(), 100, 50, is_proposer, 1_000, 4, 108, 54)
}

#[test]
fn proposer_alternates_blocks_and_metadata() {
    let mut p = proposer(true);
    assert_eq!(p.round, 1);
    assert!(p.last_action);
    // first tick: the whole block
    let (tick, t) = p.on_timer().unwrap();
    let proposal = match tick {
        Tick::Block(proposal) => proposal,
        Tick::Meta(_) => panic!("the first tick proposes"),
    };
    assert_eq!(proposal.block.round, 2);
    assert_eq!(proposal.block.sample_tx, 2);
    assert_eq!(proposal.block.payload, vec![0u8; 100]);
    assert_eq!(proposal.block.author, PublicKey([3; 32]));
    assert_eq!(t, 108 * 3 * 1000 / 1000);
    assert_eq!(p.buffer, vec![0]);
    assert!(!p.last_action);
    assert!(p.is_in_progress(2));
    assert!(!p.is_in_progress(0));
    // second tick: that block's dependent metadata
    let (tick, t) = p.client_reset();
    match tick {
        Tick::Meta(m) => {
            assert_eq!(m.round, 2);
            assert_eq!(m.meta, vec![0u8; 50]);
            assert_eq!(m.author, PublicKey([3; 32]));
        }
        Tick::Block(_) => panic!("metadata follows a block"),
    }
    assert_eq!(t, 50 * 3 * 1000 / 1000);
    assert_eq!(p.round, 2);
    assert!(p.last_action);
    assert!(p.is_meta_pending(2));
    assert_eq!(p.buffer, vec![0, 0]);
    // third tick: the next block
    let (tick, _) = p.client_reset();
    assert!(matches!(tick, Tick::Block(ref q) if q.block.round == 3));
    assert!(!p.last_action);
    assert_eq!(p.get_payload(), 0);
    assert_eq!(p.get_payload(), 0);
    assert_eq!(p.get_payload(), 0);
    assert!(p.is_in_progress(3));
    p.cleanup(2);
    assert!(!p.is_in_progress(2));
    assert!(p.is_in_progress(3));
    let mut q = proposer(false);
    assert!(q.on_timer().is_none());
    assert_eq!(q.round, 1);
}

#[test]
fn proposer_dependent_meta_and_records() {
    let mut p = proposer(true);
    let m = p.send_dependent_meta();
    assert_eq!(m.meta, vec![0u8; 50]);
    assert_eq!(m.round, 1);
    assert!(p.is_meta_pending(1));
    p.on_message(ProposerMessage::Cleanup(1));
    assert!(!p.is_meta_pending(1));
    let b = Block::new(PublicKey([3; 32]), 9, vec![], vec![], vec![], 9, 0);
    p.record_proposal(b);
    assert_eq!(p.last_proposed.round, 9);
}

#[test]
fn hotstuff_proposer_proposes_on_request() {
    let mut p = hotstuff_proposer::Proposer::new(PublicKey([3; 32]), true, committee(), 4, 16);
    let proposal = p.on_message(hotstuff_proposer::ProposerMessage::Propose()).unwrap();
    assert_eq!(proposal.block.round, 1);
    assert_eq!(proposal.block.payload, vec![0u8; 16]);
    assert_eq!(p.round, 2);
    assert!(p.is_in_progress(1));
    assert!(p.on_message(hotstuff_proposer::ProposerMessage::Cleanup(0)).is_none());
    assert!(p.is_in_progress(1));
    assert!(p.on_message(hotstuff_proposer::ProposerMessage::Cleanup(1)).is_none());
    assert!(!p.is_in_progress(1));
    p.buffer = vec![1, 2, 3, 4, 5, 6];
    assert_eq!(p.get_payload(), vec![1, 2, 3, 4]);
    assert_eq!(p.buffer, vec![5, 6]);
    assert_eq!(p.get_payload(), vec![5, 6]);
    assert!(p.buffer.is_empty());
}

#[test]
fn synchronizer_requests_and_hands_back() {
    let mut s = Synchronizer::new(PublicKey([1; 32]), committee(), 10_000);
    assert!(Synchronizer::get_block(&Block::genesis().digest()).is_some());
    assert!(Synchronizer::get_block(&Digest([1; 32])).is_none());
    let missing = Digest([7; 32]);
    let waiting = Block::new(PublicKey([2; 32]), 5, vec![], vec![], vec![], 5, 0);
    let a = s.on_request(missing, &PublicKey([2; 32]), Some(waiting), 1_000);
    assert_eq!(a, Some(Address { host: Host::V4(0x0a00_0001), port: 3 }));
    // asked again: only the hand-back may change, to a higher round
    let lower = Block::new(PublicKey([2; 32]), 4, vec![], vec![], vec![], 4, 0);
    assert_eq!(s.on_request(missing, &PublicKey([2; 32]), Some(lower), 2_000), None);
    assert!(s.on_timer(11_000).is_empty());
    assert_eq!(s.on_timer(11_001), vec![missing]);
    assert_eq!(s.retry_addresses().len(), 3);
    let back = s.on_stored(&missing).unwrap();
    assert_eq!(back.round, 5);
    assert!(s.on_stored(&missing).is_none());
    assert!(s.on_timer(100_000).is_empty());
}

#[test]
fn synchronizer_keeps_the_highest_hand_back() {
    let mut s = Synchronizer::new(PublicKey([1; 32]), committee(), 10);
    let missing = Digest([7; 32]);
    assert!(s.on_request(missing, &PublicKey([2; 32]), None, 0).is_some());
    let b6 = Block::new(PublicKey([2; 32]), 6, vec![], vec![], vec![], 6, 0);
    let b8 = Block::new(PublicKey([2; 32]), 8, vec![], vec![], vec![], 8, 0);
    assert!(s.on_request(missing, &PublicKey([3; 32]), Some(b6), 1).is_none());
    assert!(s.on_request(missing, &PublicKey([3; 32]), Some(b8), 2).is_none());
    assert_eq!(s.on_stored(&missing).unwrap().round, 8);
}

#[test]
fn an_ipv6_node_listens_on_every_ipv4_interface() {
    let mut c = committee();
    c.authorities[2].address = Address { host: Host::V6 { ip: 0xfe80 << 112, flowinfo: 0, scope_id: 3 }, port: 7000 };
    let s = Consensus::setup(&PublicKey([3; 32]), &c);
    assert_eq!(s.listen_address, Address { host: Host::V4(0), port: 7000 });
    assert_eq!(
        c.consensus(&PublicKey([3; 32])),
        Some(Address { host: Host::V6 { ip: 0xfe80 << 112, flowinfo: 0, scope_id: 3 }, port: 7000 })
    );
}

#[test]
fn dropping_old_rounds_keeps_the_later_ones() {
    let mut m: std::collections::HashMap<u64, u8> = (1..=5u64).map(|r| (r, r as u8 * 10)).collect();
    retain_rounds_after(&mut m, 3);
    let mut kept: Vec<(u64, u8)> = m.into_iter().collect();
    kept.sort();
    assert_eq!(kept, vec![(4, 40), (5, 50)]);
}
