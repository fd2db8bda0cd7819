use consensus::aggregator::Aggregator;
use consensus::committee::{Address, Authority, Committee, Host};
use consensus::crypto::{Digest, PublicKey, Signature};
use consensus::messages::{Block, ConsensusError, Vote, VoteType};
use ed25519_dalek::Signer as _;

fn keypair(seed: u8) -> ed25519_dalek::Keypair {
    let secret = ed25519_dalek::SecretKey::from_bytes(&[seed; 32]).unwrap();
    let public = ed25519_dalek::PublicKey::from(&secret);
    ed25519_dalek::Keypair { secret, public }
}

fn name_of(k: &ed25519_dalek::Keypair) -> PublicKey {
    PublicKey(k.public.to_bytes())
}

fn committee(keys: &[ed25519_dalek::Keypair]) -> Committee {
    let mut authorities: Vec<Authority> = keys
        .iter()
        .enumerate()
        .map(|(i, k)| Authority { name: name_of(k), stake: 1, address: Address { host: Host::V4(0x7f00_0001), port: i as u16 } })
        .collect();
    authorities.sort_by_key(|a| a.name.0);
    Committee { authorities }
}

fn vote(k: &ed25519_dalek::Keypair, hash: Digest, kind: VoteType, round: u64) -> Vote {
    let d = Vote::new(name_of(k), hash, kind, round, Signature::default()).digest();
    let bytes = k.sign(&d.0).to_bytes();
    let mut part1 = [0u8; 32];
    let mut part2 = [0u8; 32];
    part1.copy_from_slice(&bytes[..32]);
    part2.copy_from_slice(&bytes[32..]);
    Vote::new(name_of(k), hash, kind, round, Signature { part1, part2 })
}

fn block_hash(round: u64) -> Digest {
    Block::new(PublicKey([1; 32]), round, vec![], vec![], vec![], round, 0).digest()
}

#[test]
fn commit_votes_make_a_certificate_at_quorum() {
    let keys: Vec<_> = (1..=4).map(keypair).collect();
    let c = committee(&keys);
    let mut agg = Aggregator::new(c);
    let h = block_hash(1);
    assert!(matches!(agg.add_vote(vote(&keys[0], h, VoteType::Commit, 1)), Ok(None)));
    assert!(matches!(agg.add_vote(vote(&keys[1], h, VoteType::Commit, 1)), Ok(None)));
    let qc = agg.add_vote(vote(&keys[2], h, VoteType::Commit, 1)).unwrap().unwrap();
    assert_eq!(qc.hash, h);
    assert_eq!(qc.kind, VoteType::Commit);
    assert_eq!(qc.round, 1);
    assert_eq!(qc.votes.len(), 3);
    let c2 = committee(&keys);
    assert!(qc.is_well_formed(&c2).is_ok());
    // the fourth vote does not make a second certificate
    assert!(matches!(agg.add_vote(vote(&keys[3], h, VoteType::Commit, 1)), Ok(None)));
}

#[test]
fn repeated_votes_count_once() {
    let keys: Vec<_> = (1..=4).map(keypair).collect();
    let mut agg = Aggregator::new(committee(&keys));
    let h = block_hash(2);
    for _ in 0..5 {
        assert!(matches!(agg.add_vote(vote(&keys[0], h, VoteType::Prepare, 2)), Ok(None)));
        assert!(matches!(agg.add_vote(vote(&keys[1], h, VoteType::Commit, 2)), Ok(None)));
    }
    let qc = agg.add_vote(vote(&keys[2], h, VoteType::Prepare, 2)).unwrap();
    assert!(qc.is_none());
}

#[test]
fn repeated_dummy_votes_count_once() {
    let keys: Vec<_> = (1..=4).map(keypair).collect();
    let mut agg = Aggregator::new(committee(&keys));
    let h = block_hash(3);
    for _ in 0..3 {
        assert!(matches!(agg.add_vote(vote(&keys[0], h, VoteType::Dummy, 3)), Ok(None)));
    }
    // a Prepare vote of the same author is a duplicate too
    assert!(matches!(agg.add_vote(vote(&keys[0], h, VoteType::Prepare, 3)), Ok(None)));
    assert!(matches!(agg.add_vote(vote(&keys[1], h, VoteType::Dummy, 3)), Ok(None)));
    let qc = agg.add_vote(vote(&keys[2], h, VoteType::Dummy, 3)).unwrap().unwrap();
    assert_eq!(qc.kind, VoteType::Dummy);
    assert_eq!(qc.votes.len(), 3);
    assert!(qc.is_well_formed(&committee(&keys)).is_ok());
}

#[test]
fn votes_for_other_blocks_or_rounds_do_not_mix() {
    let keys: Vec<_> = (1..=4).map(keypair).collect();
    let mut agg = Aggregator::new(committee(&keys));
    assert!(matches!(agg.add_vote(vote(&keys[0], block_hash(1), VoteType::Commit, 1)), Ok(None)));
    assert!(matches!(agg.add_vote(vote(&keys[1], block_hash(2), VoteType::Commit, 1)), Ok(None)));
    assert!(matches!(agg.add_vote(vote(&keys[2], block_hash(1), VoteType::Commit, 2)), Ok(None)));
}

#[test]
fn ill_formed_votes_are_refused() {
    let keys: Vec<_> = (1..=4).map(keypair).collect();
    let mut agg = Aggregator::new(committee(&keys));
    let h = block_hash(1);
    let mut v = vote(&keys[0], h, VoteType::Commit, 1);
    v.round = 7;
    assert!(matches!(agg.add_vote(v), Err(ConsensusError::InvalidSignature)));
    let outsider = keypair(9);
    assert!(matches!(agg.add_vote(vote(&outsider, h, VoteType::Commit, 1)), Err(ConsensusError::UnknownAuthority(_))));
}

#[test]
fn cleanup_drops_old_rounds() {
    let keys: Vec<_> = (1..=4).map(keypair).collect();
    let mut agg = Aggregator::new(committee(&keys));
    for r in 1..=3u64 {
        agg.add_vote(vote(&keys[0], block_hash(r), VoteType::Commit, r)).unwrap();
        agg.add_vote(vote(&keys[1], block_hash(r), VoteType::Commit, r)).unwrap();
    }
    agg.cleanup_prepares(&2);
    // round 3 still has two votes: the third completes it
    assert!(agg.add_vote(vote(&keys[2], block_hash(3), VoteType::Commit, 3)).unwrap().is_some());
    // round 2 starts over
    assert!(agg.add_vote(vote(&keys[2], block_hash(2), VoteType::Commit, 2)).unwrap().is_none());
}

#[test]
fn a_tally_makes_one_commit_certificate() {
    // seven members of stake 1: the quorum is 5, so after the first certificate
    // the two late voters cannot make a second one
    let keys: Vec<_> = (1..=7).map(keypair).collect();
    let mut agg = Aggregator::new(committee(&keys));
    let h = block_hash(6);
    let mut made = 0;
    for k in keys.iter() {
        if agg.add_vote(vote(k, h, VoteType::Commit, 6)).unwrap().is_some() {
            made += 1;
        }
    }
    assert_eq!(made, 1);
}

#[test]
fn a_tally_makes_one_prepare_certificate() {
    let keys: Vec<_> = (1..=7).map(keypair).collect();
    let mut agg = Aggregator::new(committee(&keys));
    let h = block_hash(7);
    let mut made = 0;
    for k in keys.iter() {
        if let Some(qc) = agg.add_vote(vote(k, h, VoteType::Prepare, 7)).unwrap() {
            assert!(qc.is_well_formed(&committee(&keys)).is_ok());
            made += 1;
        }
    }
    assert_eq!(made, 1);
}
