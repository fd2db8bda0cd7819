//! Aggregation of votes into quorum certificates, one aggregator per round and
//! block digest.
use vstd::prelude::*;
use crate::committee::{Committee, Stake};
use crate::crypto::{Digest, PublicKey, Signature, ed25519_accepts};
use crate::keyed::{DigestMap, retain_rounds_after};
use crate::messages::{ConsensusError, QC, Round, Vote, VoteType, has_key, key_set, signers, distinct_known_signers};
use std::collections::HashMap;

verus! {

broadcast use vstd::std_specs::hash::group_hash_axioms;

/// What a `QCMaker` holds: who has voted (Commit votes apart from the others),
/// their votes, the stake gathered since the last certificate, and how many
/// certificates each group of votes has made.
pub struct MakerView {
    pub received_commit: Set<Seq<u8>>,
    pub received: Set<Seq<u8>>,
    pub votes_commit: Seq<(PublicKey, Signature)>,
    pub votes: Seq<(PublicKey, Signature)>,
    pub weight_commit: nat,
    pub weight: nat,
    pub commit_certs: nat,
    pub certs: nat,
}

/// The state of a fresh aggregator.
pub open spec fn empty_maker() -> MakerView {
    MakerView {
        received_commit: Set::empty(),
        received: Set::empty(),
        votes_commit: Seq::empty(),
        votes: Seq::empty(),
        weight_commit: 0,
        weight: 0,
        commit_certs: 0,
        certs: 0,
    }
}

/// A vote is a duplicate when its author already sent a vote of its group:
/// a Commit vote, or one of the others (Prepare or Dummy).
pub open spec fn is_duplicate(m: MakerView, vote: Vote) -> bool {
    match vote.kind {
        VoteType::Commit => m.received_commit.contains(vote.author@),
        _ => m.received.contains(vote.author@),
    }
}

/// The vote is well formed: its author has stake and its signature verifies.
pub open spec fn vote_ok(vote: Vote, committee: &Committee) -> bool {
    committee.stake_of(vote.author@) > 0 && ed25519_accepts(vote.digest_view(), vote.author@, vote.signature@)
}

/// The error `Vote::is_well_formed` reports for a vote that is not well formed.
pub open spec fn vote_error(vote: Vote, committee: &Committee) -> ConsensusError {
    if committee.stake_of(vote.author@) == 0 {
        ConsensusError::UnknownAuthority(vote.author)
    } else {
        ConsensusError::InvalidSignature
    }
}

/// The aggregator after a well-formed, fresh vote: the vote joins its group and
/// the author's stake is added; reaching the quorum makes a certificate and
/// empties the gathered stake.
pub open spec fn maker_after(m: MakerView, vote: Vote, committee: &Committee) -> MakerView {
    let a = vote.author@;
    let entry = (vote.author, vote.signature);
    let s = committee.stake_of(a);
    if vote.kind == VoteType::Commit {
        let w = m.weight_commit + s;
        MakerView {
            received_commit: m.received_commit.insert(a),
            votes_commit: m.votes_commit.push(entry),
            weight_commit: if w >= committee.quorum() { 0 } else { w },
            commit_certs: if w >= committee.quorum() { m.commit_certs + 1 } else { m.commit_certs },
            ..m
        }
    } else {
        let w = m.weight + s;
        MakerView {
            received: m.received.insert(a),
            votes: m.votes.push(entry),
            weight: if w >= committee.quorum() { 0 } else { w },
            certs: if w >= committee.quorum() { m.certs + 1 } else { m.certs },
            ..m
        }
    }
}

/// The votes of the certificate that a well-formed, fresh vote completes, if it
/// completes one.
pub open spec fn completed_votes(m: MakerView, vote: Vote, committee: &Committee) -> Option<Seq<(PublicKey, Signature)>> {
    let s = committee.stake_of(vote.author@);
    let entry = (vote.author, vote.signature);
    if vote.kind == VoteType::Commit {
        if m.weight_commit + s >= committee.quorum() { Some(m.votes_commit.push(entry)) } else { None }
    } else {
        if m.weight + s >= committee.quorum() { Some(m.votes.push(entry)) } else { None }
    }
}

/// The aggregator's state after `append(vote)`.
pub open spec fn maker_next(m: MakerView, vote: Vote, committee: &Committee) -> MakerView {
    if !is_duplicate(m, vote) && vote_ok(vote, committee) {
        maker_after(m, vote, committee)
    } else {
        m
    }
}

/// `r` is what `append(vote)` answers on state `m`: nothing for a duplicate, the
/// vote's error when it is not well formed, and otherwise the certificate it
/// completes, if any, for the vote's digest, kind and round.
pub open spec fn append_answer(m: MakerView, vote: Vote, committee: &Committee, r: Result<Option<QC>, ConsensusError>) -> bool {
    if is_duplicate(m, vote) {
        r == Ok::<Option<QC>, ConsensusError>(None)
    } else if !vote_ok(vote, committee) {
        r == Err::<Option<QC>, ConsensusError>(vote_error(vote, committee))
    } else {
        match completed_votes(m, vote, committee) {
            None => r == Ok::<Option<QC>, ConsensusError>(None),
            Some(vs) => r matches Ok(Some(qc)) && qc.hash == vote.hash && qc.kind == vote.kind
                && qc.round == vote.round && qc.votes@ == vs,
        }
    }
}

/// Collects the votes for one block of one round.
pub struct QCMaker {
    received_commit: Vec<PublicKey>,
    received: Vec<PublicKey>,
    votes_commit: Vec<(PublicKey, Signature)>,
    votes: Vec<(PublicKey, Signature)>,
    weight_commit: Stake,
    weight: Stake,
    /// How many certificates the Commit votes have made.
    commit_certs: Ghost<nat>,
    /// How many certificates the other votes have made.
    certs: Ghost<nat>,
}

impl View for QCMaker {
    type V = MakerView;

    closed spec fn view(&self) -> MakerView {
        MakerView {
            received_commit: key_set(self.received_commit@),
            received: key_set(self.received@),
            votes_commit: self.votes_commit@,
            votes: self.votes@,
            weight_commit: self.weight_commit as nat,
            weight: self.weight as nat,
            commit_certs: self.commit_certs@,
            certs: self.certs@,
        }
    }
}

/// One group of votes of a tally (the Commit votes, or the others) is sound: its
/// votes come from distinct voters with stake, the recorded voters are exactly
/// their signers, and the stake of those voters covers a quorum for each
/// certificate made plus the stake gathered since.
spec fn group_wf(
    committee: &Committee,
    received: Seq<PublicKey>,
    votes: Seq<(PublicKey, Signature)>,
    weight: nat,
    certs: nat,
) -> bool {
    &&& distinct_known_signers(committee, votes)
    &&& key_set(received) == key_set(signers(votes))
    &&& weight + certs * committee.quorum() <= committee.weight_of(key_set(received))
}

/// A sound group has made at most one certificate: two quorums exceed the
/// committee's total stake.
proof fn lemma_group_one_certificate(
    committee: &Committee,
    received: Seq<PublicKey>,
    votes: Seq<(PublicKey, Signature)>,
    weight: nat,
    certs: nat,
)
    requires
        committee.wf(),
        group_wf(committee, received, votes, weight, certs),
    ensures
        certs <= 1,
{
    let q = committee.quorum();
    let t = crate::committee::total_stake(committee.authorities@);
    crate::committee::lemma_weight_le_total(committee.authorities@, key_set(received));
    assert(certs * q <= t);
    assert(2 * q > t);
    if certs >= 2 {
        assert(certs * q >= 2 * q) by (nonlinear_arith)
            requires
                certs >= 2,
        ;
    }
}

fn copy_votes(v: &Vec<(PublicKey, Signature)>) -> (c: Vec<(PublicKey, Signature)>)
    ensures
        c@ == v@,
{
    let mut c: Vec<(PublicKey, Signature)> = Vec::new();
    let mut i: usize = 0;
    while i < v.len()
        invariant
            i <= v@.len(),
            c@ == v@.take(i as int),
        decreases v@.len() - i,
    {
        c.push(v[i]);
        i = i + 1;
        assert(c@ =~= v@.take(i as int));
    }
    assert(v@.take(i as int) =~= v@);
    c
}

fn insert_key(keys: &mut Vec<PublicKey>, k: PublicKey)
    ensures
        key_set(final(keys)@) == key_set(old(keys)@).insert(k@),
{
    proof {
        crate::messages::lemma_key_set_push(keys@, k);
    }
    if !has_key(keys, &k) {
        keys.push(k);
    } else {
        assert(key_set(old(keys)@).insert(k@) =~= key_set(old(keys)@));
    }
}

/// Adds a fresh vote of `author`, who has stake, to one group of votes and
/// returns the votes of the certificate it completes, if the group's gathered
/// stake reaches the quorum.
fn add_to_group(
    received: &mut Vec<PublicKey>,
    votes: &mut Vec<(PublicKey, Signature)>,
    weight: &mut Stake,
    certs: &mut Ghost<nat>,
    author: PublicKey,
    signature: Signature,
    committee: &Committee,
) -> (done: Option<Vec<(PublicKey, Signature)>>)
    requires
        committee.wf(),
        group_wf(committee, old(received)@, old(votes)@, *old(weight) as nat, old(certs)@),
        !key_set(old(received)@).contains(author@),
        committee.stake_of(author@) > 0,
    ensures
        group_wf(committee, final(received)@, final(votes)@, *final(weight) as nat, final(certs)@),
        key_set(final(received)@) == key_set(old(received)@).insert(author@),
        final(votes)@ == old(votes)@.push((author, signature)),
        ({
            let w = *old(weight) + committee.stake_of(author@);
            &&& w >= committee.quorum() ==> *final(weight) == 0 && final(certs)@ == old(certs)@ + 1
                && old(certs)@ == 0 && done is Some
            &&& w < committee.quorum() ==> *final(weight) == w && final(certs)@ == old(certs)@ && done is None
        }),
        done matches Some(v) ==> v@ == final(votes)@ && distinct_known_signers(committee, v@)
            && committee.weight_of(key_set(signers(v@))) >= committee.quorum(),
{
    let ghost old_votes = votes@;
    let ghost old_keys = key_set(received@);
    let ghost c = certs@;
    let stake = committee.stake(&author);
    let quorum = committee.quorum_threshold();
    proof {
        crate::committee::lemma_wf_distinct(committee);
        committee.lemma_stake_of(author@);
        crate::committee::lemma_weight_insert(committee.authorities@, old_keys, author@);
        crate::committee::lemma_weight_le_total(committee.authorities@, old_keys.insert(author@));
    }
    insert_key(received, author);
    votes.push((author, signature));
    proof {
        let vs = votes@;
        assert(signers(vs) =~= signers(old_votes).push(author));
        crate::messages::lemma_key_set_push(signers(old_votes), author);
        assert forall|i: int, j: int| 0 <= i < j < vs.len() implies (#[trigger] vs[i]).0@ != (#[trigger] vs[j]).0@ by {
            if j == vs.len() - 1 {
                assert(vs[i] == old_votes[i]);
                assert(signers(old_votes)[i]@ == vs[i].0@);
                assert(key_set(signers(old_votes)).contains(vs[i].0@));
            } else {
                assert(vs[i] == old_votes[i] && vs[j] == old_votes[j]);
            }
        }
        assert forall|i: int| 0 <= i < vs.len() implies committee.stake_of((#[trigger] vs[i]).0@) > 0 by {
            if i < old_votes.len() {
                assert(vs[i] == old_votes[i]);
            }
        }
    }
    *weight = *weight + stake;
    if *weight >= quorum {
        // The certificate is made only once: the gathered stake starts over.
        *weight = 0;
        proof {
            assert((c + 1) * quorum == c * quorum + quorum) by (nonlinear_arith);
            *certs = Ghost(c + 1);
            lemma_group_one_certificate(committee, received@, votes@, 0, c + 1);
        }
        Some(copy_votes(votes))
    } else {
        None
    }
}

impl QCMaker {
    /// Each group of votes is sound (see `group_wf`).
    pub closed spec fn wf(&self, committee: &Committee) -> bool {
        &&& group_wf(
            committee,
            self.received_commit@,
            self.votes_commit@,
            self.weight_commit as nat,
            self.commit_certs@,
        )
        &&& group_wf(committee, self.received@, self.votes@, self.weight as nat, self.certs@)
    }

    /// Law: a tally makes at most one certificate from its Commit votes and at
    /// most one from its other votes. Each certificate takes a quorum of fresh
    /// voters, and two quorums exceed the committee's total stake.
    pub proof fn lemma_one_certificate_each(&self, committee: &Committee)
        requires
            committee.wf(),
            self.wf(committee),
        ensures
            self@.commit_certs <= 1,
            self@.certs <= 1,
    {
        lemma_group_one_certificate(
            committee,
            self.received_commit@,
            self.votes_commit@,
            self.weight_commit as nat,
            self.commit_certs@,
        );
        lemma_group_one_certificate(committee, self.received@, self.votes@, self.weight as nat, self.certs@);
    }

    pub fn new() -> (m: Self)
        ensures
            m@ == empty_maker(),
            forall|c: &Committee| m.wf(c),
    {
        let m = Self {
            received_commit: Vec::new(),
            received: Vec::new(),
            votes_commit: Vec::new(),
            votes: Vec::new(),
            weight_commit: 0,
            weight: 0,
            commit_certs: Ghost(0),
            certs: Ghost(0),
        };
        assert(key_set(m.received_commit@) =~= Set::<Seq<u8>>::empty());
        assert(key_set(m.received@) =~= Set::<Seq<u8>>::empty());
        assert(key_set(signers(m.votes_commit@)) =~= Set::<Seq<u8>>::empty());
        assert(key_set(signers(m.votes@)) =~= Set::<Seq<u8>>::empty());
        m
    }

    /// Whether `vote` is not a duplicate.
    fn is_valid(&self, vote: &Vote) -> (r: bool)
        ensures
            r == !is_duplicate(self@, *vote),
    {
        // Honest nodes send one vote of each group only.
        let invalid = match vote.kind {
            VoteType::Commit => has_key(&self.received_commit, &vote.author),
            _ => has_key(&self.received, &vote.author),
        };
        !invalid
    }

    /// Adds `vote` (if it is neither a duplicate nor ill formed) and returns the
    /// certificate it completes, if any.
    pub fn append(&mut self, vote: Vote, committee: &Committee) -> (r: Result<Option<QC>, ConsensusError>)
        requires
            committee.wf(),
            old(self).wf(committee),
        ensures
            final(self).wf(committee),
            final(self)@ == maker_next(old(self)@, vote, committee),
            append_answer(old(self)@, vote, committee, r),
            r matches Ok(Some(qc)) ==> qc.signers_verdict(committee) is Ok,
            r matches Ok(Some(qc)) ==> (if vote.kind == VoteType::Commit {
                old(self)@.commit_certs == 0
            } else {
                old(self)@.certs == 0
            }),
    {
        let author = vote.author;
        if self.is_valid(&vote) {
            // Check voting rights and signature before storing anything.
            vote.is_well_formed(committee)?;
            let done = if vote.kind == VoteType::Commit {
                add_to_group(
                    &mut self.received_commit,
                    &mut self.votes_commit,
                    &mut self.weight_commit,
                    &mut self.commit_certs,
                    author,
                    vote.signature,
                    committee,
                )
            } else {
                add_to_group(
                    &mut self.received,
                    &mut self.votes,
                    &mut self.weight,
                    &mut self.certs,
                    author,
                    vote.signature,
                    committee,
                )
            };
            if let Some(votes) = done {
                let qc = QC { hash: vote.hash, kind: vote.kind, round: vote.round, votes };
                proof {
                    crate::messages::lemma_scan_ok(committee, qc.votes@);
                }
                return Ok(Some(qc));
            }
        }
        Ok(None)
    }
}

/// The map `m` without the rounds up to `r`.
pub open spec fn rounds_after(m: Map<(Round, Seq<u8>), MakerView>, r: Round) -> Map<(Round, Seq<u8>), MakerView> {
    Map::new(|k: (Round, Seq<u8>)| m.dom().contains(k) && k.0 > r, |k: (Round, Seq<u8>)| m[k])
}

/// Collects votes into certificates: for each round, one `QCMaker` per block.
pub struct Aggregator {
    committee: Committee,
    votes_aggregators: HashMap<Round, DigestMap<QCMaker>>,
}

impl Aggregator {
    /// The committee the votes are counted against.
    pub closed spec fn committee(&self) -> &Committee {
        &self.committee
    }

    /// The aggregators, by round and block digest.
    pub closed spec fn makers(&self) -> Map<(Round, Seq<u8>), MakerView> {
        Map::new(
            |k: (Round, Seq<u8>)|
                self.votes_aggregators@.contains_key(k.0) && self.votes_aggregators@[k.0].view().contains_key(k.1),
            |k: (Round, Seq<u8>)| self.votes_aggregators@[k.0].view()[k.1]@,
        )
    }

    pub closed spec fn wf(&self) -> bool {
        &&& self.committee.wf()
        &&& forall|r: Round| #[trigger] self.votes_aggregators@.contains_key(r) ==> {
            &&& self.votes_aggregators@[r].wf()
            &&& forall|d: Seq<u8>|
                #[trigger] self.votes_aggregators@[r].view().contains_key(d)
                    ==> self.votes_aggregators@[r].view()[d].wf(&self.committee)
        }
    }

    /// The aggregator for `key`, or a fresh one.
    pub open spec fn maker_for(&self, key: (Round, Seq<u8>)) -> MakerView {
        if self.makers().dom().contains(key) { self.makers()[key] } else { empty_maker() }
    }

    /// Law: votes for one round and block make at most one certificate from
    /// their Commit votes and at most one from the others, whatever votes
    /// arrive, for that block or any other.
    pub proof fn lemma_one_certificate_per_tally(&self, key: (Round, Seq<u8>))
        requires
            self.wf(),
        ensures
            self.maker_for(key).commit_certs <= 1,
            self.maker_for(key).certs <= 1,
    {
        if self.makers().dom().contains(key) {
            assert(self.votes_aggregators@.contains_key(key.0));
            let inner = self.votes_aggregators@[key.0];
            assert(inner.view().contains_key(key.1));
            inner.view()[key.1].lemma_one_certificate_each(&self.committee);
        }
    }

    pub fn new(committee: Committee) -> (a: Self)
        requires
            committee.wf(),
        ensures
            a.wf(),
            *a.committee() == committee,
            a.makers() == Map::<(Round, Seq<u8>), MakerView>::empty(),
    {
        let a = Self { committee, votes_aggregators: HashMap::new() };
        assert(a.makers() =~= Map::<(Round, Seq<u8>), MakerView>::empty());
        a
    }

    /// Adds `vote` to the aggregator of its round and block (making one if there
    /// is none yet) and returns the certificate it completes, if any.
    pub fn add_vote(&mut self, vote: Vote) -> (r: Result<Option<QC>, ConsensusError>)
        requires
            old(self).wf(),
        ensures
            final(self).wf(),
            final(self).committee() == old(self).committee(),
            final(self).makers() == old(self).makers().insert(
                (vote.round, vote.hash@),
                maker_next(old(self).maker_for((vote.round, vote.hash@)), vote, old(self).committee()),
            ),
            append_answer(old(self).maker_for((vote.round, vote.hash@)), vote, old(self).committee(), r),
            r matches Ok(Some(qc)) ==> qc.signers_verdict(old(self).committee()) is Ok,
    {
        let ghost old_outer = self.votes_aggregators@;
        let ghost key = (vote.round, vote.hash@);
        let round = vote.round;
        let hash = vote.hash;
        let mut blocks = match self.votes_aggregators.remove(&round) {
            Some(b) => b,
            None => DigestMap::new(),
        };
        let ghost old_blocks = blocks.view();
        let mut maker = match blocks.remove(&hash) {
            Some(m) => m,
            None => QCMaker::new(),
        };
        proof {
            if old_outer.contains_key(round) {
                assert(old_blocks == old_outer[round].view());
            }
            assert(maker@ == old(self).maker_for(key));
        }
        let r = maker.append(vote, &self.committee);
        blocks.insert(hash, maker);
        self.votes_aggregators.insert(round, blocks);
        proof {
            let outer = self.votes_aggregators@;
            assert(outer == old_outer.insert(round, blocks));
            assert(blocks.view() == old_blocks.insert(hash@, maker));
            assert forall|r2: Round| #[trigger] outer.contains_key(r2) implies {
                &&& outer[r2].wf()
                &&& forall|d: Seq<u8>|
                    #[trigger] outer[r2].view().contains_key(d) ==> outer[r2].view()[d].wf(&self.committee)
            } by {
                if r2 != round {
                    assert(old_outer.contains_key(r2));
                }
            }
            assert(self.makers() =~= old(self).makers().insert(key, maker@));
        }
        r
    }

    /// Drops the aggregators of all rounds up to and including `r`.
    pub fn cleanup_prepares(&mut self, r: &Round)
        requires
            old(self).wf(),
        ensures
            final(self).wf(),
            final(self).committee() == old(self).committee(),
            final(self).makers() == rounds_after(old(self).makers(), *r),
    {
        retain_rounds_after(&mut self.votes_aggregators, *r);
        proof {
            assert(self.makers() =~= rounds_after(old(self).makers(), *r));
        }
    }
}


/// Law: the Commit votes are counted apart. A well-formed Commit vote whose
/// author has sent no Commit vote yet is added to the Commit votes, whatever
/// Prepare or Dummy votes its author sent: the author is recorded, the vote
/// joins the Commit votes, the other votes stay as they were, and the vote
/// completes a Commit certificate exactly when the Commit stake reaches the
/// quorum.
pub proof fn lemma_commit_vote_counted_apart(
    m: MakerView,
    vote: Vote,
    committee: &Committee,
    r: Result<Option<QC>, ConsensusError>,
)
    requires
        vote.kind == VoteType::Commit,
        !m.received_commit.contains(vote.author@),
        committee.stake_of(vote.author@) > 0,
        ed25519_accepts(vote.digest_view(), vote.author@, vote.signature@),
        append_answer(m, vote, committee, r),
    ensures
        ({
            let n = maker_next(m, vote, committee);
            &&& n.received_commit == m.received_commit.insert(vote.author@)
            &&& n.votes_commit == m.votes_commit.push((vote.author, vote.signature))
            &&& n.received == m.received
            &&& n.votes == m.votes
            &&& n.weight == m.weight
            &&& n.certs == m.certs
        }),
        m.weight_commit + committee.stake_of(vote.author@) >= committee.quorum() ==> (r matches Ok(Some(qc))
            && qc.kind == VoteType::Commit && qc.hash == vote.hash && qc.round == vote.round
            && qc.votes@ == m.votes_commit.push((vote.author, vote.signature))),
        m.weight_commit + committee.stake_of(vote.author@) < committee.quorum() ==> r == Ok::<
            Option<QC>,
            ConsensusError,
        >(None),
{
}

/// Law: the Prepare and Dummy votes are counted apart from the Commit votes. A
/// well-formed Prepare or Dummy vote whose author has sent neither yet is added
/// to them, whatever Commit vote its author sent: the author is recorded, the
/// vote joins the other votes, the Commit votes stay as they were, and the vote
/// completes a certificate exactly when their stake reaches the quorum.
pub proof fn lemma_other_vote_counted_apart(
    m: MakerView,
    vote: Vote,
    committee: &Committee,
    r: Result<Option<QC>, ConsensusError>,
)
    requires
        vote.kind != VoteType::Commit,
        !m.received.contains(vote.author@),
        committee.stake_of(vote.author@) > 0,
        ed25519_accepts(vote.digest_view(), vote.author@, vote.signature@),
        append_answer(m, vote, committee, r),
    ensures
        ({
            let n = maker_next(m, vote, committee);
            &&& n.received == m.received.insert(vote.author@)
            &&& n.votes == m.votes.push((vote.author, vote.signature))
            &&& n.received_commit == m.received_commit
            &&& n.votes_commit == m.votes_commit
            &&& n.weight_commit == m.weight_commit
            &&& n.commit_certs == m.commit_certs
        }),
        m.weight + committee.stake_of(vote.author@) >= committee.quorum() ==> (r matches Ok(Some(qc))
            && qc.kind == vote.kind && qc.hash == vote.hash && qc.round == vote.round
            && qc.votes@ == m.votes.push((vote.author, vote.signature))),
        m.weight + committee.stake_of(vote.author@) < committee.quorum() ==> r == Ok::<
            Option<QC>,
            ConsensusError,
        >(None),
{
}

/// Law: a vote counts once. Handing an aggregator the same vote again changes
/// nothing and never completes a certificate.
pub proof fn lemma_repeated_vote_ignored(m: MakerView, vote: Vote, committee: &Committee)
    ensures
        maker_next(maker_next(m, vote, committee), vote, committee) == maker_next(m, vote, committee),
        forall|r: Result<Option<QC>, ConsensusError>|
            append_answer(maker_next(m, vote, committee), vote, committee, r) ==> !(r matches Ok(Some(_))),
{
    let m1 = maker_next(m, vote, committee);
    if !is_duplicate(m, vote) && vote_ok(vote, committee) {
        assert(is_duplicate(m1, vote));
    }
}

} // verus!
