//! Consensus messages: blocks, proposals, votes and quorum certificates, their
//! digests and the checks that make them well formed.
use vstd::prelude::*;
use vstd::std_specs::cmp::PartialEqSpecImpl;
use crate::committee::Committee;
use crate::crypto::{Digest, PublicKey, Signature, sha512, sha512_hash, ed25519_accepts, ed25519_verify, ed25519_verify_batch};

verus! {

/// The consensus round number.
pub type Round = u64;

/// Why a message is not well formed.
#[derive(Clone, Copy, Debug)]
pub enum ConsensusError {
    /// The key has no stake in the committee.
    UnknownAuthority(PublicKey),
    /// The key signed the certificate twice.
    AuthorityReuse(PublicKey),
    /// The certificate's signers hold less than a quorum of stake.
    QCRequiresQuorum(Round),
    /// A signature does not verify.
    InvalidSignature,
}

/// The first 32 bytes of the SHA-512 hash of `data`.
pub open spec fn hash32(data: Seq<u8>) -> Seq<u8> {
    sha512(data).take(32)
}

/// Hashes `data` and keeps the first 32 bytes.
pub fn digest_of(data: &Vec<u8>) -> (d: Digest)
    ensures
        d@ == hash32(data@),
{
    let h = sha512_hash(data);
    Digest::from_prefix(&h)
}

/// Appends `b` to `v`.
fn append_bytes(v: &mut Vec<u8>, b: &[u8])
    ensures
        final(v)@ == old(v)@ + b@,
{
    let mut i: usize = 0;
    let ghost start = v@;
    while i < b.len()
        invariant
            i <= b@.len(),
            v@ == start + b@.take(i as int),
        decreases b@.len() - i,
    {
        v.push(b[i]);
        i = i + 1;
        assert(v@ =~= start + b@.take(i as int));
    }
    assert(b@.take(i as int) =~= b@);
}

/// A copy of the bytes of `v`.
fn copy_bytes(v: &Vec<u8>) -> (c: Vec<u8>)
    ensures
        c@ == v@,
{
    let mut c: Vec<u8> = Vec::new();
    append_bytes(&mut c, v.as_slice());
    assert(c@ =~= v@);
    c
}

/// The little-endian bytes of `x`.
pub open spec fn le_bytes(x: u64) -> Seq<u8> {
    vstd::bytes::spec_u64_to_le_bytes(x)
}

/// The bytes a block's digest is taken over: its author, round and sample transaction.
pub open spec fn block_hash_input(author: Seq<u8>, round: u64, sample_tx: u64) -> Seq<u8> {
    author + le_bytes(round) + le_bytes(sample_tx)
}

/// A block of the chain. A zero parent marks a dummy block, or the genesis
/// block when the round is 0 too.
#[derive(Clone, Debug)]
pub struct Block {
    pub author: PublicKey,
    pub parent: Digest,
    pub sample_tx: u64,
    pub payload: Vec<u8>,
    pub meta_indep: Vec<u8>,
    pub meta_dep: Vec<u8>,
    /// Height in Simplex.
    pub round: Round,
    pub idx: u64,
}

/// The 32 zero bytes.
pub open spec fn zero32() -> Seq<u8> {
    Seq::new(32, |i: int| 0u8)
}

/// The digest of the genesis block.
pub open spec fn genesis_digest() -> Seq<u8> {
    hash32(block_hash_input(zero32(), 0, 0))
}

impl Block {
    /// The block's digest: the first half of the SHA-512 of its author, round and
    /// sample transaction.
    pub open spec fn digest_view(&self) -> Seq<u8> {
        hash32(block_hash_input(self.author@, self.round, self.sample_tx))
    }

    /// All fields equal to those of `other`, byte for byte.
    pub open spec fn same_as(&self, other: &Block) -> bool {
        &&& self.author@ == other.author@
        &&& self.parent@ == other.parent@
        &&& self.sample_tx == other.sample_tx
        &&& self.payload@ == other.payload@
        &&& self.meta_indep@ == other.meta_indep@
        &&& self.meta_dep@ == other.meta_dep@
        &&& self.round == other.round
        &&& self.idx == other.idx
    }

    /// A new block; its parent is the zero digest.
    pub fn new(
        author: PublicKey,
        sample_tx: u64,
        payload: Vec<u8>,
        meta_indep: Vec<u8>,
        meta_dep: Vec<u8>,
        round: Round,
        idx: u64,
    ) -> (b: Self)
        ensures
            b.author == author,
            b.parent@ == zero32(),
            b.sample_tx == sample_tx,
            b.payload == payload,
            b.meta_indep == meta_indep,
            b.meta_dep == meta_dep,
            b.round == round,
            b.idx == idx,
    {
        Block {
            author,
            parent: Digest::default(),
            sample_tx,
            payload,
            meta_indep,
            meta_dep,
            round,
            idx,
        }
    }

    /// The dummy block of `round`: zero author and parent, nothing in it.
    pub fn dummy(round: Round) -> (b: Self)
        ensures
            b.author@ == zero32(),
            b.parent@ == zero32(),
            b.sample_tx == 0,
            b.payload@.len() == 0,
            b.meta_indep@.len() == 0,
            b.meta_dep@.len() == 0,
            b.round == round,
            b.idx == 0,
    {
        Block {
            author: PublicKey::default(),
            parent: Digest::default(),
            sample_tx: 0,
            payload: Vec::new(),
            meta_indep: Vec::new(),
            meta_dep: Vec::new(),
            round,
            idx: 0,
        }
    }

    /// The genesis block: the dummy block of round 0.
    pub fn genesis() -> (b: Self)
        ensures
            b.author@ == zero32(),
            b.parent@ == zero32(),
            b.sample_tx == 0,
            b.payload@.len() == 0,
            b.meta_indep@.len() == 0,
            b.meta_dep@.len() == 0,
            b.round == 0,
            b.idx == 0,
            b.digest_view() == genesis_digest(),
    {
        Self::dummy(0)
    }

    /// A field-by-field copy.
    pub fn duplicate(&self) -> (b: Block)
        ensures
            b.same_as(self),
    {
        Block {
            author: self.author,
            parent: self.parent,
            sample_tx: self.sample_tx,
            payload: copy_bytes(&self.payload),
            meta_indep: copy_bytes(&self.meta_indep),
            meta_dep: copy_bytes(&self.meta_dep),
            round: self.round,
            idx: self.idx,
        }
    }

    /// The bytes the block's digest is taken over: author, then round and sample
    /// transaction in little-endian order.
    pub fn hash_input(&self) -> (data: Vec<u8>)
        ensures
            data@ == block_hash_input(self.author@, self.round, self.sample_tx),
    {
        let mut data: Vec<u8> = Vec::new();
        append_bytes(&mut data, self.author.0.as_slice());
        let r = vstd::bytes::u64_to_le_bytes(self.round);
        append_bytes(&mut data, r.as_slice());
        let s = vstd::bytes::u64_to_le_bytes(self.sample_tx);
        append_bytes(&mut data, s.as_slice());
        data
    }

    /// The block's digest.
    pub fn digest(&self) -> (d: Digest)
        ensures
            d@ == self.digest_view(),
    {
        digest_of(&self.hash_input())
    }

    /// Well formed: the genesis block, or a block whose author has stake.
    pub fn is_well_formed(&self, committee: &Committee) -> (r: Result<(), ConsensusError>)
        requires
            committee.wf(),
        ensures
            r is Ok <==> (self.digest_view() == genesis_digest() || committee.stake_of(
                self.author@,
            ) > 0),
            r matches Err(e) ==> e == ConsensusError::UnknownAuthority(self.author),
    {
        // The genesis block needs no author.
        if self.digest() != Block::genesis().digest() {
            // The proposer must have voting rights.
            let voting_rights = committee.stake(&self.author);
            if !(voting_rights > 0) {
                return Err(ConsensusError::UnknownAuthority(self.author));
            }
        }
        Ok(())
    }
}

/// A block, as proposed by its author.
#[derive(Clone, Debug)]
pub struct Proposal {
    pub block: Block,
}

impl Proposal {
    /// The proposal's digest: the hash of its block's digest.
    pub open spec fn digest_view(&self) -> Seq<u8> {
        hash32(self.block.digest_view())
    }

    pub fn new(block: Block) -> (p: Self)
        ensures
            p.block == block,
    {
        Self { block }
    }

    /// Well formed exactly when its block is.
    pub fn is_well_formed(&self, committee: &Committee) -> (r: Result<(), ConsensusError>)
        requires
            committee.wf(),
        ensures
            r is Ok <==> (self.block.digest_view() == genesis_digest() || committee.stake_of(
                self.block.author@,
            ) > 0),
            r matches Err(e) ==> e == ConsensusError::UnknownAuthority(self.block.author),
    {
        self.block.is_well_formed(committee)?;
        Ok(())
    }

    pub fn digest(&self) -> (d: Digest)
        ensures
            d@ == self.digest_view(),
    {
        let b = self.block.digest();
        digest_of(&b.to_vec())
    }
}

/// How a block was proposed.
#[derive(Clone, Copy, Debug, PartialEq, Eq, Structural, Hash)]
pub enum ProposalType {
    Fallback,
    Normal,
    Optimistic,
}

impl ProposalType {
    /// The type's name.
    pub open spec fn label_view(&self) -> Seq<char> {
        match self {
            ProposalType::Fallback => "Fallback"@,
            ProposalType::Normal => "Normal"@,
            ProposalType::Optimistic => "Optimistic"@,
        }
    }

    /// The type's name, as it is displayed and hashed.
    pub fn label(&self) -> (s: &'static str)
        ensures
            s@ == self.label_view(),
    {
        match self {
            ProposalType::Fallback => "Fallback",
            ProposalType::Normal => "Normal",
            ProposalType::Optimistic => "Optimistic",
        }
    }

    /// The hash of the UTF-8 bytes of the type's name.
    pub fn digest(&self) -> (d: Digest)
        ensures
            d@ == hash32(vstd::utf8::encode_utf8(self.label_view())),
    {
        let bytes = vstd::slice::slice_to_vec(self.label().as_bytes());
        digest_of(&bytes)
    }
}

/// What a vote is for.
#[derive(Clone, Copy, Debug, PartialEq, Eq, Structural, Hash)]
pub enum VoteType {
    Commit,
    Dummy,
    Prepare,
}

impl VoteType {
    /// The type's one-letter name.
    pub open spec fn label_view(&self) -> Seq<char> {
        match self {
            VoteType::Commit => "C"@,
            VoteType::Dummy => "D"@,
            VoteType::Prepare => "P"@,
        }
    }

    /// The digest of the type.
    pub open spec fn digest_view(&self) -> Seq<u8> {
        hash32(vstd::utf8::encode_utf8(self.label_view()))
    }

    /// The type's one-letter name, as it is displayed and hashed.
    pub fn label(&self) -> (s: &'static str)
        ensures
            s@ == self.label_view(),
    {
        match self {
            VoteType::Commit => "C",
            VoteType::Dummy => "D",
            VoteType::Prepare => "P",
        }
    }

    /// The hash of the UTF-8 bytes of the type's name.
    pub fn digest(&self) -> (d: Digest)
        ensures
            d@ == self.digest_view(),
    {
        let bytes = vstd::slice::slice_to_vec(self.label().as_bytes());
        digest_of(&bytes)
    }
}

/// The bytes a vote's or a certificate's digest is taken over.
pub open spec fn vote_hash_input(hash: Seq<u8>, kind: VoteType, round: u64) -> Seq<u8> {
    hash + kind.digest_view() + le_bytes(round)
}

/// The bytes a vote's or a certificate's digest is taken over: the block digest,
/// the digest of the vote type, and the round in little-endian order.
pub fn vote_hash_bytes(hash: &Digest, kind: &VoteType, round: Round) -> (data: Vec<u8>)
    ensures
        data@ == vote_hash_input(hash@, *kind, round),
{
    let mut data = hash.to_vec();
    let k = kind.digest();
    append_bytes(&mut data, k.0.as_slice());
    let r = vstd::bytes::u64_to_le_bytes(round);
    append_bytes(&mut data, r.as_slice());
    data
}

/// Hashes a block digest, a vote type and a round.
fn vote_digest(hash: &Digest, kind: &VoteType, round: Round) -> (d: Digest)
    ensures
        d@ == hash32(vote_hash_input(hash@, *kind, round)),
{
    digest_of(&vote_hash_bytes(hash, kind, round))
}

/// A vote of `author` for the block with digest `hash` in `round`.
#[derive(Clone, Copy, Debug)]
pub struct Vote {
    pub author: PublicKey,
    pub hash: Digest,
    pub kind: VoteType,
    pub round: Round,
    pub signature: Signature,
}

impl Vote {
    /// The digest the author signs: block digest, vote type and round.
    pub open spec fn digest_view(&self) -> Seq<u8> {
        hash32(vote_hash_input(self.hash@, self.kind, self.round))
    }

    /// A vote with the signature that the author's signing service returned for
    /// the vote's digest.
    pub fn new(author: PublicKey, hash: Digest, kind: VoteType, round: Round, signature: Signature) -> (v: Self)
        ensures
            v.author == author,
            v.hash == hash,
            v.kind == kind,
            v.round == round,
            v.signature == signature,
    {
        Self { author, hash, kind, round, signature }
    }

    /// The dummy vote of `round`: a Prepare vote for the dummy block, unsigned.
    pub fn dummy(round: Round) -> (v: Self)
        ensures
            v.author@ == zero32(),
            v.hash@ == hash32(block_hash_input(zero32(), round, 0)),
            v.kind == VoteType::Prepare,
            v.round == round,
            v.signature@ == Seq::new(64, |i: int| 0u8),
    {
        let dummy_block = Block::dummy(round);
        Self {
            author: PublicKey::default(),
            hash: dummy_block.digest(),
            kind: VoteType::Prepare,
            round,
            signature: Signature::default(),
        }
    }

    /// Well formed: the author has stake and its signature on the vote's digest verifies.
    pub fn is_well_formed(&self, committee: &Committee) -> (r: Result<(), ConsensusError>)
        requires
            committee.wf(),
        ensures
            r is Ok <==> committee.stake_of(self.author@) > 0 && ed25519_accepts(
                self.digest_view(),
                self.author@,
                self.signature@,
            ),
            r == Err::<(), ConsensusError>(ConsensusError::UnknownAuthority(self.author))
                <==> committee.stake_of(self.author@) == 0,
            r == Err::<(), ConsensusError>(ConsensusError::InvalidSignature) <==> committee.stake_of(
                self.author@,
            ) > 0 && !ed25519_accepts(self.digest_view(), self.author@, self.signature@),
    {
        if !(committee.stake(&self.author) > 0) {
            return Err(ConsensusError::UnknownAuthority(self.author));
        }
        let ok = ed25519_verify(&self.digest(), &self.author, &self.signature);
        self.well_formed_given(committee, ok)
    }

    /// The verdict on a vote, given whether its signature verifies: the author
    /// needs stake, then the signature must verify.
    pub fn well_formed_given(&self, committee: &Committee, signature_ok: bool) -> (r: Result<(), ConsensusError>)
        requires
            committee.wf(),
        ensures
            r is Ok <==> committee.stake_of(self.author@) > 0 && signature_ok,
            r == Err::<(), ConsensusError>(ConsensusError::UnknownAuthority(self.author)) <==> committee.stake_of(self.author@) == 0,
            r == Err::<(), ConsensusError>(ConsensusError::InvalidSignature) <==> committee.stake_of(self.author@) > 0 && !signature_ok,
    {
        if !(committee.stake(&self.author) > 0) {
            return Err(ConsensusError::UnknownAuthority(self.author));
        }
        if !signature_ok {
            return Err(ConsensusError::InvalidSignature);
        }
        Ok(())
    }

    pub fn digest(&self) -> (d: Digest)
        ensures
            d@ == self.digest_view(),
    {
        vote_digest(&self.hash, &self.kind, self.round)
    }
}

/// A dependent-metadata message of `author` for `round`.
#[derive(Clone, Debug)]
pub struct DependentMeta {
    pub author: PublicKey,
    pub meta: Vec<u8>,
    pub round: Round,
}

impl DependentMeta {
    pub fn new(author: PublicKey, meta: Vec<u8>, round: Round) -> (m: Self)
        ensures
            m.author == author,
            m.meta == meta,
            m.round == round,
    {
        Self { author, meta, round }
    }
}


/// The keys of `keys`, as a set.
pub open spec fn key_set(keys: Seq<PublicKey>) -> Set<Seq<u8>> {
    Set::new(|x: Seq<u8>| exists|i: int| 0 <= i < keys.len() && #[trigger] keys[i]@ == x)
}

/// Whether `keys` holds `k`.
pub fn has_key(keys: &Vec<PublicKey>, k: &PublicKey) -> (r: bool)
    ensures
        r == key_set(keys@).contains(k@),
{
    let mut i: usize = 0;
    while i < keys.len()
        invariant
            i <= keys@.len(),
            forall|j: int| 0 <= j < i ==> keys@[j]@ != k@,
        decreases keys@.len() - i,
    {
        if keys[i] == *k {
            assert(key_set(keys@).contains(k@));
            return true;
        }
        i = i + 1;
    }
    false
}

pub proof fn lemma_key_set_push(keys: Seq<PublicKey>, k: PublicKey)
    ensures
        key_set(keys.push(k)) == key_set(keys).insert(k@),
{
    assert forall|x: Seq<u8>| key_set(keys.push(k)).contains(x) <==> key_set(keys).insert(k@).contains(x) by {
        if key_set(keys.push(k)).contains(x) {
            let i = choose|i: int| 0 <= i < keys.push(k).len() && #[trigger] keys.push(k)[i]@ == x;
            if i < keys.len() {
                assert(keys[i]@ == x);
            }
        }
        if key_set(keys).contains(x) {
            let i = choose|i: int| 0 <= i < keys.len() && #[trigger] keys[i]@ == x;
            assert(keys.push(k)[i]@ == x);
        }
        if x == k@ {
            assert(keys.push(k)[keys.len() as int]@ == x);
        }
    }
    assert(key_set(keys.push(k)) =~= key_set(keys).insert(k@));
}

/// Goes through the signers in order: the first key that signs twice or has no
/// stake is the error; otherwise the set of signers.
pub open spec fn signer_scan(committee: &Committee, votes: Seq<(PublicKey, Signature)>) -> Result<
    Set<Seq<u8>>,
    ConsensusError,
>
    decreases votes.len(),
{
    if votes.len() == 0 {
        Ok(Set::empty())
    } else {
        match signer_scan(committee, votes.drop_last()) {
            Err(e) => Err(e),
            Ok(used) => {
                let name = votes.last().0;
                if used.contains(name@) {
                    Err(ConsensusError::AuthorityReuse(name))
                } else if committee.stake_of(name@) == 0 {
                    Err(ConsensusError::UnknownAuthority(name))
                } else {
                    Ok(used.insert(name@))
                }
            },
        }
    }
}

proof fn lemma_scan_err_sticks(committee: &Committee, votes: Seq<(PublicKey, Signature)>, a: int, b: int)
    requires
        0 <= a <= b <= votes.len(),
        signer_scan(committee, votes.take(a)) is Err,
    ensures
        signer_scan(committee, votes.take(b)) == signer_scan(committee, votes.take(a)),
    decreases b,
{
    if a < b {
        lemma_scan_err_sticks(committee, votes, a, b - 1);
        assert(votes.take(b).drop_last() =~= votes.take(b - 1));
    }
}

/// A quorum certificate: the signatures of a quorum on a vote.
#[derive(Clone, Debug)]
pub struct QC {
    pub hash: Digest,
    pub kind: VoteType,
    pub round: Round,
    pub votes: Vec<(PublicKey, Signature)>,
}

impl QC {
    /// The digest the signers signed: block digest, vote type and round.
    pub open spec fn digest_view(&self) -> Seq<u8> {
        hash32(vote_hash_input(self.hash@, self.kind, self.round))
    }

    /// What the signer checks give: the first duplicate or unknown signer, else
    /// too little stake, else nothing wrong.
    pub open spec fn signers_verdict(&self, committee: &Committee) -> Result<(), ConsensusError> {
        match signer_scan(committee, self.votes@) {
            Err(e) => Err(e),
            Ok(used) => if committee.weight_of(used) >= committee.quorum() {
                Ok(())
            } else {
                Err(ConsensusError::QCRequiresQuorum(self.round))
            },
        }
    }

    /// The certificate of the genesis block.
    pub fn genesis() -> (qc: Self)
        ensures
            qc.hash@ == genesis_digest(),
            qc.kind == VoteType::Commit,
            qc.round == 0,
            qc.votes@.len() == 0,
    {
        QC { hash: Block::genesis().digest(), kind: VoteType::Commit, round: 0, votes: Vec::new() }
    }

    pub fn is_dummy(&self) -> (r: bool)
        ensures
            r == (self.kind == VoteType::Dummy),
    {
        self.kind == VoteType::Dummy
    }

    /// The signer checks: no key signs twice, every signer has stake, and the
    /// signers hold a quorum.
    pub fn check_signers(&self, committee: &Committee) -> (r: Result<(), ConsensusError>)
        requires
            committee.wf(),
        ensures
            r == self.signers_verdict(committee),
    {
        let mut weight: u64 = 0;
        let mut used: Vec<PublicKey> = Vec::new();
        let mut i: usize = 0;
        let ghost auths = committee.authorities@;
        proof {
            crate::committee::lemma_wf_distinct(committee);
            assert(self.votes@.take(0) =~= Seq::<(PublicKey, Signature)>::empty());
            assert(key_set(used@) =~= Set::<Seq<u8>>::empty());
            crate::committee::lemma_weight_empty(auths);
        }
        while i < self.votes.len()
            invariant
                committee.wf(),
                auths == committee.authorities@,
                crate::committee::distinct_names(auths),
                i <= self.votes@.len(),
                signer_scan(committee, self.votes@.take(i as int)) == Ok::<Set<Seq<u8>>, ConsensusError>(key_set(used@)),
                weight == committee.weight_of(key_set(used@)),
            decreases self.votes@.len() - i,
        {
            let name = self.votes[i].0;
            proof {
                assert(self.votes@.take(i + 1).drop_last() =~= self.votes@.take(i as int));
            }
            if has_key(&used, &name) {
                proof {
                    lemma_scan_err_sticks(committee, self.votes@, i + 1, self.votes@.len() as int);
                    assert(self.votes@.take(self.votes@.len() as int) =~= self.votes@);
                }
                return Err(ConsensusError::AuthorityReuse(name));
            }
            let voting_rights = committee.stake(&name);
            if !(voting_rights > 0) {
                proof {
                    lemma_scan_err_sticks(committee, self.votes@, i + 1, self.votes@.len() as int);
                    assert(self.votes@.take(self.votes@.len() as int) =~= self.votes@);
                }
                return Err(ConsensusError::UnknownAuthority(name));
            }
            proof {
                lemma_key_set_push(used@, name);
                crate::committee::lemma_weight_insert(auths, key_set(used@), name@);
                committee.lemma_stake_of(name@);
                crate::committee::lemma_weight_le_total(auths, key_set(used@).insert(name@));
            }
            used.push(name);
            weight = weight + voting_rights;
            i = i + 1;
        }
        proof {
            assert(self.votes@.take(i as int) =~= self.votes@);
        }
        if weight < committee.quorum_threshold() {
            return Err(ConsensusError::QCRequiresQuorum(self.round));
        }
        Ok(())
    }

    /// The verdict on a certificate, given whether its signatures verify: round 0
    /// needs nothing; otherwise the signer checks, then the signatures.
    pub fn well_formed_given(&self, committee: &Committee, signatures_ok: bool) -> (r: Result<(), ConsensusError>)
        requires
            committee.wf(),
        ensures
            self.round == 0 ==> r is Ok,
            self.round != 0 && self.signers_verdict(committee) is Err ==> r == self.signers_verdict(committee),
            self.round != 0 && self.signers_verdict(committee) is Ok ==> (r is Ok <==> signatures_ok),
            self.round != 0 && self.signers_verdict(committee) is Ok && !signatures_ok ==> r == Err::<(), ConsensusError>(ConsensusError::InvalidSignature),
    {
        if self.round == 0 {
            Ok(())
        } else {
            self.check_signers(committee)?;
            if signatures_ok {
                Ok(())
            } else {
                Err(ConsensusError::InvalidSignature)
            }
        }
    }

    /// Well formed: round 0, or signers that pass the signer checks and whose
    /// signatures on the certificate's digest pass batch verification, for
    /// every kind of certificate alike; a signature that does not decode (its
    /// scalar half out of range) makes it `InvalidSignature`.
    pub fn is_well_formed(&self, committee: &Committee) -> (r: Result<(), ConsensusError>)
        requires
            committee.wf(),
        ensures
            self.round == 0 ==> r is Ok,
            self.round != 0 && self.signers_verdict(committee) is Err ==> r == self.signers_verdict(committee),
            self.round != 0 && self.signers_verdict(committee) is Ok ==> r is Ok || r == Err::<(), ConsensusError>(ConsensusError::InvalidSignature),
            self.round != 0 && self.signers_verdict(committee) is Ok && (exists|i: int|
                0 <= i < self.votes@.len() && (#[trigger] self.votes@[i]).1.part2[31] >= 32)
                ==> r == Err::<(), ConsensusError>(ConsensusError::InvalidSignature),
    {
        if self.round == 0 {
            Ok(())
        } else {
            self.check_signers(committee)?;
            let ok = ed25519_verify_batch(&self.digest(), &self.votes);
            self.well_formed_given(committee, ok)
        }
    }

    pub fn digest(&self) -> (d: Digest)
        ensures
            d@ == self.digest_view(),
    {
        vote_digest(&self.hash, &self.kind, self.round)
    }
}

impl PartialEq for QC {
    fn eq(&self, other: &Self) -> (r: bool) {
        self.kind == other.kind && self.hash == other.hash && self.round == other.round
    }
}

impl PartialEqSpecImpl for QC {
    open spec fn obeys_eq_spec() -> bool {
        true
    }

    /// Certificates are equal when they certify the same kind, digest and round.
    open spec fn eq_spec(&self, other: &QC) -> bool {
        self.kind == other.kind && self.hash@ == other.hash@ && self.round == other.round
    }
}


/// The signers of `votes`, in order.
pub open spec fn signers(votes: Seq<(PublicKey, Signature)>) -> Seq<PublicKey> {
    votes.map_values(|p: (PublicKey, Signature)| p.0)
}

/// No key signs `votes` twice, and every signer has stake.
pub open spec fn distinct_known_signers(committee: &Committee, votes: Seq<(PublicKey, Signature)>) -> bool {
    &&& forall|i: int, j: int| 0 <= i < j < votes.len() ==> (#[trigger] votes[i]).0@ != (#[trigger] votes[j]).0@
    &&& forall|i: int| 0 <= i < votes.len() ==> committee.stake_of((#[trigger] votes[i]).0@) > 0
}

/// Distinct signers with stake pass the scan, which yields their keys.
pub proof fn lemma_scan_ok(committee: &Committee, votes: Seq<(PublicKey, Signature)>)
    requires
        distinct_known_signers(committee, votes),
    ensures
        signer_scan(committee, votes) == Ok::<Set<Seq<u8>>, ConsensusError>(key_set(signers(votes))),
    decreases votes.len(),
{
    if votes.len() == 0 {
        assert(key_set(signers(votes)) =~= Set::<Seq<u8>>::empty());
    } else {
        let d = votes.drop_last();
        assert(distinct_known_signers(committee, d)) by {
            assert forall|i: int, j: int| 0 <= i < j < d.len() implies (#[trigger] d[i]).0@ != (#[trigger] d[j]).0@ by {
                assert(d[i] == votes[i] && d[j] == votes[j]);
            }
            assert forall|i: int| 0 <= i < d.len() implies committee.stake_of((#[trigger] d[i]).0@) > 0 by {
                assert(d[i] == votes[i]);
            }
        }
        lemma_scan_ok(committee, d);
        let last = votes.last();
        assert(signers(votes) =~= signers(d).push(last.0));
        lemma_key_set_push(signers(d), last.0);
        assert(!key_set(signers(d)).contains(last.0@)) by {
            if key_set(signers(d)).contains(last.0@) {
                let i = choose|i: int| 0 <= i < signers(d).len() && #[trigger] signers(d)[i]@ == last.0@;
                assert(d[i] == votes[i]);
                assert(votes[i].0@ != votes[votes.len() - 1].0@);
            }
        }
        assert(committee.stake_of(votes[votes.len() - 1].0@) > 0);
    }
}

} // verus!
