use consensus::committee::{Address, Authority, Committee, Host};
use consensus::crypto::{Digest, PublicKey, Signature};
use consensus::messages::{Block, ConsensusError, Proposal, ProposalType, Vote, VoteType, QC};
use curve25519_dalek::constants::{ED25519_BASEPOINT_POINT, EIGHT_TORSION};
use curve25519_dalek::scalar::Scalar;
use ed25519_dalek::Digest as _;
use ed25519_dalek::Signer as _;

fn keypair(seed: u8) -> ed25519_dalek::Keypair {
    let secret = ed25519_dalek::SecretKey::from_bytes(&[seed; 32]).unwrap();
    let public = ed25519_dalek::PublicKey::from(&secret);
    ed25519_dalek::Keypair { secret, public }
}

fn name_of(k: &ed25519_dalek::Keypair) -> PublicKey {
    PublicKey(k.public.to_bytes())
}

fn sign(k: &ed25519_dalek::Keypair, d: &Digest) -> Signature {
    let bytes = k.sign(&d.0).to_bytes();
    let mut part1 = [0u8; 32];
    let mut part2 = [0u8; 32];
    part1.copy_from_slice(&bytes[..32]);
    part2.copy_from_slice(&bytes[32..]);
    Signature { part1, part2 }
}

fn committee(keys: &[ed25519_dalek::Keypair]) -> Committee {
    let mut authorities: Vec<Authority> = keys
        .iter()
        .enumerate()
        .map(|(i, k)| Authority { name: name_of(k), stake: 1, address: Address { host: Host::V4(0x7f00_0001), port: i as u16 } })
        .collect();
    authorities.sort_by_key(|a| a.name.0);
    Committee { authorities }
}

fn sha512_prefix(parts: &[&[u8]]) -> [u8; 32] {
    let mut h = ed25519_dalek::Sha512::new();
    for p in parts {
        h.update(p);
    }
    let out = h.finalize();
    let mut d = [0u8; 32];
    d.copy_from_slice(&out[..32]);
    d
}

#[test]
fn block_digest_hashes_author_round_and_sample() {
    let b = Block::new(PublicKey([7; 32]), 11, vec![1, 2, 3], vec![4], vec![5], 9, 2);
    let expected = sha512_prefix(&[&[7u8; 32], &9u64.to_le_bytes(), &11u64.to_le_bytes()]);
    assert_eq!(b.digest(), Digest(expected));
    // the payload does not enter the digest
    let c = Block::new(PublicKey([7; 32]), 11, vec![], vec![], vec![], 9, 0);
    assert_eq!(b.digest(), c.digest());
    assert_ne!(b.digest(), Block::new(PublicKey([7; 32]), 12, vec![], vec![], vec![], 9, 0).digest());
}

#[test]
fn genesis_and_dummy_blocks() {
    let g = Block::genesis();
    assert_eq!(g.round, 0);
    assert_eq!(g.author, PublicKey([0; 32]));
    assert_eq!(g.parent, Digest([0; 32]));
    assert_eq!(g.digest(), Block::dummy(0).digest());
    let expected = sha512_prefix(&[&[0u8; 32], &0u64.to_le_bytes(), &0u64.to_le_bytes()]);
    assert_eq!(g.digest(), Digest(expected));
    let d = Block::dummy(5);
    assert_eq!(d.round, 5);
    assert!(d.payload.is_empty());
}

#[test]
fn proposal_digest_hashes_block_digest() {
    let b = Block::new(PublicKey([3; 32]), 1, vec![], vec![], vec![], 1, 0);
    let d = b.digest();
    let p = Proposal::new(b);
    assert_eq!(p.digest(), Digest(sha512_prefix(&[&d.0])));
}

#[test]
fn type_digests_hash_their_names() {
    assert_eq!(VoteType::Commit.digest(), Digest(sha512_prefix(&[b"C"])));
    assert_eq!(VoteType::Dummy.digest(), Digest(sha512_prefix(&[b"D"])));
    assert_eq!(VoteType::Prepare.digest(), Digest(sha512_prefix(&[b"P"])));
    assert_eq!(ProposalType::Fallback.digest(), Digest(sha512_prefix(&[b"Fallback"])));
    assert_eq!(ProposalType::Normal.label(), "Normal");
    assert_eq!(ProposalType::Optimistic.digest(), Digest(sha512_prefix(&[b"Optimistic"])));
}

#[test]
fn block_well_formedness() {
    let keys: Vec<_> = (1..=4).map(keypair).collect();
    let c = committee(&keys);
    assert!(Block::genesis().is_well_formed(&c).is_ok());
    let b = Block::new(name_of(&keys[0]), 1, vec![], vec![], vec![], 1, 0);
    assert!(b.is_well_formed(&c).is_ok());
    let stranger = PublicKey([9; 32]);
    let b = Block::new(stranger, 1, vec![], vec![], vec![], 1, 0);
    assert!(matches!(b.is_well_formed(&c), Err(ConsensusError::UnknownAuthority(k)) if k == stranger));
    assert!(matches!(Proposal::new(b).is_well_formed(&c), Err(ConsensusError::UnknownAuthority(_))));
}

#[test]
fn vote_digest_and_signature() {
    let keys: Vec<_> = (1..=4).map(keypair).collect();
    let c = committee(&keys);
    let hash = Block::new(name_of(&keys[1]), 1, vec![], vec![], vec![], 1, 0).digest();
    let unsigned = Vote::new(name_of(&keys[0]), hash, VoteType::Commit, 1, Signature::default());
    let expected = sha512_prefix(&[&hash.0, &VoteType::Commit.digest().0, &1u64.to_le_bytes()]);
    assert_eq!(unsigned.digest(), Digest(expected));
    let vote = Vote::new(name_of(&keys[0]), hash, VoteType::Commit, 1, sign(&keys[0], &unsigned.digest()));
    assert!(vote.is_well_formed(&c).is_ok());
    // signed by another key
    let forged = Vote::new(name_of(&keys[0]), hash, VoteType::Commit, 1, sign(&keys[1], &unsigned.digest()));
    assert!(matches!(forged.is_well_formed(&c), Err(ConsensusError::InvalidSignature)));
    // author outside the committee
    let outsider = keypair(9);
    let d = Vote::new(name_of(&outsider), hash, VoteType::Commit, 1, Signature::default()).digest();
    let v = Vote::new(name_of(&outsider), hash, VoteType::Commit, 1, sign(&outsider, &d));
    assert!(matches!(v.is_well_formed(&c), Err(ConsensusError::UnknownAuthority(_))));
}

#[test]
fn dummy_vote_is_for_the_dummy_block() {
    let v = Vote::dummy(4);
    assert_eq!(v.hash, Block::dummy(4).digest());
    assert_eq!(v.kind, VoteType::Prepare);
    assert_eq!(v.round, 4);
    assert_eq!(v.author, PublicKey::default());
}

fn qc_signed_by(keys: &[ed25519_dalek::Keypair], signers: &[usize], round: u64) -> QC {
    let hash = Block::new(name_of(&keys[0]), round, vec![], vec![], vec![], round, 0).digest();
    let mut qc = QC { hash, kind: VoteType::Commit, round, votes: Vec::new() };
    let d = qc.digest();
    qc.votes = signers.iter().map(|i| (name_of(&keys[*i]), sign(&keys[*i], &d))).collect();
    qc
}

#[test]
fn qc_well_formedness() {
    let keys: Vec<_> = (1..=4).map(keypair).collect();
    let c = committee(&keys);
    assert_eq!(c.quorum_threshold(), 3);
    assert!(QC::genesis().is_well_formed(&c).is_ok());
    let qc = qc_signed_by(&keys, &[0, 1, 2], 2);
    assert!(qc.check_signers(&c).is_ok());
    assert!(qc.is_well_formed(&c).is_ok());
    let small = qc_signed_by(&keys, &[0, 1], 2);
    assert!(matches!(small.is_well_formed(&c), Err(ConsensusError::QCRequiresQuorum(2))));
    let reused = qc_signed_by(&keys, &[0, 1, 1, 2], 2);
    assert!(matches!(reused.is_well_formed(&c), Err(ConsensusError::AuthorityReuse(k)) if k == name_of(&keys[1])));
    let mut stranger = qc_signed_by(&keys, &[0, 1, 2], 2);
    stranger.votes.insert(1, (PublicKey([9; 32]), Signature::default()));
    assert!(matches!(stranger.is_well_formed(&c), Err(ConsensusError::UnknownAuthority(k)) if k == PublicKey([9; 32])));
    let mut bad = qc_signed_by(&keys, &[0, 1, 2], 2);
    bad.votes[2].1 = bad.votes[1].1;
    assert!(matches!(bad.is_well_formed(&c), Err(ConsensusError::InvalidSignature)));
    assert!(matches!(qc.well_formed_given(&c, false), Err(ConsensusError::InvalidSignature)));
    assert!(qc.well_formed_given(&c, true).is_ok());
    assert!(small.well_formed_given(&c, true).is_err());
}

#[test]
fn qc_equality_ignores_signatures() {
    let keys: Vec<_> = (1..=4).map(keypair).collect();
    let a = qc_signed_by(&keys, &[0, 1, 2], 2);
    let b = qc_signed_by(&keys, &[3], 2);
    assert!(a == b);
    let mut c = qc_signed_by(&keys, &[0], 2);
    c.kind = VoteType::Prepare;
    assert!(a != c);
    assert!(QC::genesis() == QC::genesis());
    assert!(!QC::genesis().is_dummy());
    assert_eq!(QC::genesis().hash, Block::genesis().digest());
}

#[test]
fn hash_inputs_are_concatenations() {
    let b = Block::new(PublicKey([2; 32]), 0x0102, vec![], vec![], vec![], 0x0a0b, 0);
    let mut expected = vec![2u8; 32];
    expected.extend_from_slice(&0x0a0bu64.to_le_bytes());
    expected.extend_from_slice(&0x0102u64.to_le_bytes());
    assert_eq!(b.hash_input(), expected);
    let d = Digest([4; 32]);
    let mut expected = vec![4u8; 32];
    expected.extend_from_slice(&VoteType::Prepare.digest().0);
    expected.extend_from_slice(&3u64.to_le_bytes());
    assert_eq!(consensus::messages::vote_hash_bytes(&d, &VoteType::Prepare, 3), expected);
}

#[test]
fn vote_verdict_given_signature_check() {
    let keys: Vec<_> = (1..=4).map(keypair).collect();
    let c = committee(&keys);
    let v = Vote::new(name_of(&keys[0]), Digest([0; 32]), VoteType::Prepare, 1, Signature::default());
    assert!(v.well_formed_given(&c, true).is_ok());
    assert!(matches!(v.well_formed_given(&c, false), Err(ConsensusError::InvalidSignature)));
    let w = Vote::new(PublicKey([9; 32]), Digest([0; 32]), VoteType::Prepare, 1, Signature::default());
    assert!(matches!(w.well_formed_given(&c, true), Err(ConsensusError::UnknownAuthority(_))));
    assert!(matches!(v.is_well_formed(&c), Err(ConsensusError::InvalidSignature)));
}

/// A key with a component of order 8, and a signature on `d` crafted for it
/// that passes strict verification.
fn mixed_order_key_and_signature(d: &Digest) -> (PublicKey, Signature) {
    let secret = Scalar::from_bytes_mod_order([42u8; 32]);
    let torsion = EIGHT_TORSION[1];
    let key_point = secret * ED25519_BASEPOINT_POINT + torsion;
    let key = key_point.compress().to_bytes();
    for attempt in 0u64.. {
        let mut seed = [0u8; 32];
        seed[..8].copy_from_slice(&attempt.to_le_bytes());
        seed[8] = 1;
        let nonce = Scalar::from_bytes_mod_order(seed);
        for j in 0..8u64 {
            let r_point = nonce * ED25519_BASEPOINT_POINT + Scalar::from(j) * torsion;
            let r = r_point.compress().to_bytes();
            let mut h = ed25519_dalek::Sha512::new();
            h.update(&r);
            h.update(&key);
            h.update(&d.0);
            let k = Scalar::from_hash(h);
            // s B - k A equals R exactly when -k T equals j T
            if -(k * torsion) == Scalar::from(j) * torsion {
                let s = nonce + k * secret;
                return (PublicKey(key), Signature { part1: r, part2: s.to_bytes() });
            }
        }
    }
    unreachable!()
}

#[test]
fn batch_check_of_strictly_valid_signatures_depends_on_chance() {
    let hash = Block::new(PublicKey([1; 32]), 3, vec![], vec![], vec![], 3, 0).digest();
    let mut qc = QC { hash, kind: VoteType::Commit, round: 3, votes: Vec::new() };
    let (key, signature) = mixed_order_key_and_signature(&qc.digest());
    qc.votes.push((key, signature));
    let c = Committee {
        authorities: vec![Authority { name: key, stake: 1, address: Address { host: Host::V4(0x7f00_0001), port: 1 } }],
    };
    // the signature passes strict verification, as a vote
    let vote = Vote::new(key, hash, VoteType::Commit, 3, signature);
    assert!(vote.is_well_formed(&c).is_ok());
    assert!(qc.check_signers(&c).is_ok());
    // yet the batch check, with its random coefficients, refuses it now and then
    let mut refused = 0;
    for _ in 0..64 {
        match qc.is_well_formed(&c) {
            Ok(()) => {}
            Err(ConsensusError::InvalidSignature) => refused += 1,
            Err(e) => panic!("unexpected error {:?}", e),
        }
    }
    assert!(refused > 0);
}
