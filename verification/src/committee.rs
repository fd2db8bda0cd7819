//! The committee: every authority's public key, stake and consensus address.
use vstd::prelude::*;
use crate::crypto::PublicKey;

verus! {

/// Voting power.
pub type Stake = u64;

/// Where a socket address points: an IPv4 address (its 32 bits, most
/// significant octet first), or an IPv6 address (its 128 bits, likewise) with
/// the flow label and scope id of the socket address.
#[derive(Clone, Copy, Debug, PartialEq, Eq, Structural, Hash)]
pub enum Host {
    V4(u32),
    V6 { ip: u128, flowinfo: u32, scope_id: u32 },
}

/// A socket address: the host and the port.
#[derive(Clone, Copy, Debug, PartialEq, Eq, Structural, Hash)]
pub struct Address {
    pub host: Host,
    pub port: u16,
}

/// One member of the committee.
#[derive(Clone, Copy, Debug)]
pub struct Authority {
    pub name: PublicKey,
    pub stake: Stake,
    pub address: Address,
}

/// The committee, its authorities in increasing order of their keys (bytes
/// compared lexicographically), as a map from keys would hold them.
pub struct Committee {
    pub authorities: Vec<Authority>,
}

/// Lexicographic order on byte strings of equal length: at the first position
/// where they differ, `a` holds the smaller byte.
pub open spec fn bytes_lt(a: Seq<u8>, b: Seq<u8>) -> bool {
    exists|k: int|
        0 <= k < a.len() && k < b.len() && a.take(k) == b.take(k) && #[trigger] a[k] < #[trigger] b[k]
}

/// Sum of the stakes of `auths`.
pub open spec fn total_stake(auths: Seq<Authority>) -> nat
    decreases auths.len(),
{
    if auths.len() == 0 {
        0
    } else {
        total_stake(auths.drop_last()) + auths.last().stake as nat
    }
}

/// Sum of the stakes of the members of `auths` whose keys are in `names`.
pub open spec fn weight_in(auths: Seq<Authority>, names: Set<Seq<u8>>) -> nat
    decreases auths.len(),
{
    if auths.len() == 0 {
        0
    } else {
        weight_in(auths.drop_last(), names) + if names.contains(auths.last().name@) {
            auths.last().stake as nat
        } else {
            0nat
        }
    }
}

impl Committee {
    /// Keys strictly increase along the list, and the total stake fits in a `Stake`.
    pub open spec fn wf(&self) -> bool {
        &&& forall|i: int, j: int|
            0 <= i < j < self.authorities@.len() ==> bytes_lt(
                #[trigger] self.authorities@[i].name@,
                #[trigger] self.authorities@[j].name@,
            )
        &&& total_stake(self.authorities@) <= Stake::MAX
    }

    /// `name` belongs to the committee.
    pub open spec fn has(&self, name: Seq<u8>) -> bool {
        exists|i: int| 0 <= i < self.authorities@.len() && #[trigger] self.authorities@[i].name@ == name
    }

    /// The position of `name` in the committee.
    pub open spec fn index_of(&self, name: Seq<u8>) -> int {
        choose|i: int| 0 <= i < self.authorities@.len() && #[trigger] self.authorities@[i].name@ == name
    }

    /// The stake of `name`, 0 for a key outside the committee.
    pub open spec fn stake_of(&self, name: Seq<u8>) -> nat {
        if self.has(name) {
            self.authorities@[self.index_of(name)].stake as nat
        } else {
            0
        }
    }

    /// The consensus address of `name`, if it belongs to the committee.
    pub open spec fn address_of(&self, name: Seq<u8>) -> Option<Address> {
        if self.has(name) {
            Some(self.authorities@[self.index_of(name)].address)
        } else {
            None
        }
    }

    /// More than two thirds of the total stake.
    pub open spec fn quorum(&self) -> nat {
        (2 * total_stake(self.authorities@) / 3 + 1) as nat
    }

    /// The combined stake of the members named in `names`.
    pub open spec fn weight_of(&self, names: Set<Seq<u8>>) -> nat {
        weight_in(self.authorities@, names)
    }

    /// The members other than `myself`, with their addresses, in committee order.
    pub open spec fn others(&self, myself: Seq<u8>) -> Seq<(PublicKey, Address)> {
        self.authorities@.filter(|a: Authority| a.name@ != myself).map_values(
            |a: Authority| (a.name, a.address),
        )
    }

    /// Number of authorities.
    pub fn size(&self) -> (n: usize)
        ensures
            n == self.authorities@.len(),
    {
        self.authorities.len()
    }

    /// The stake of `name`, 0 for a key outside the committee.
    pub fn stake(&self, name: &PublicKey) -> (s: Stake)
        requires
            self.wf(),
        ensures
            s == self.stake_of(name@),
    {
        match self.position(name) {
            Some(i) => self.authorities[i].stake,
            None => 0,
        }
    }

    /// The consensus address of `name`; `None` where it is not a member.
    pub fn consensus(&self, name: &PublicKey) -> (a: Option<Address>)
        requires
            self.wf(),
        ensures
            a == self.address_of(name@),
    {
        match self.position(name) {
            Some(i) => Some(self.authorities[i].address),
            None => None,
        }
    }

    /// Where `name` stands in the committee.
    pub fn position(&self, name: &PublicKey) -> (p: Option<usize>)
        requires
            self.wf(),
        ensures
            p is Some <==> self.has(name@),
            p matches Some(i) ==> i == self.index_of(name@) && i < self.authorities@.len(),
    {
        let mut i: usize = 0;
        while i < self.authorities.len()
            invariant
                self.wf(),
                i <= self.authorities@.len(),
                forall|k: int| 0 <= k < i ==> self.authorities@[k].name@ != name@,
            decreases self.authorities@.len() - i,
        {
            if self.authorities[i].name == *name {
                proof {
                    self.lemma_unique_index(name@, i as int);
                }
                return Some(i);
            }
            i = i + 1;
        }
        None
    }

    pub proof fn lemma_unique_index(&self, name: Seq<u8>, i: int)
        requires
            self.wf(),
            0 <= i < self.authorities@.len(),
            self.authorities@[i].name@ == name,
        ensures
            self.has(name),
            self.index_of(name) == i,
    {
        assert(self.has(name));
        let j = self.index_of(name);
        if j != i {
            lemma_bytes_lt_irreflexive(name);
            if j < i {
                assert(bytes_lt(self.authorities@[j].name@, self.authorities@[i].name@));
            } else {
                assert(bytes_lt(self.authorities@[i].name@, self.authorities@[j].name@));
            }
        }
    }

    /// Law: the quorum is the least stake that is more than two thirds of the
    /// total stake.
    pub proof fn lemma_quorum_more_than_two_thirds(&self)
        ensures
            3 * self.quorum() > 2 * total_stake(self.authorities@),
            3 * (self.quorum() - 1) <= 2 * total_stake(self.authorities@),
    {
        let t = total_stake(self.authorities@) as int;
        vstd::arithmetic::div_mod::lemma_fundamental_div_mod(2 * t, 3);
        vstd::arithmetic::div_mod::lemma_mod_bound(2 * t, 3);
    }

    /// More than two thirds of the total stake: `2 * total / 3 + 1`.
    pub fn quorum_threshold(&self) -> (q: Stake)
        requires
            self.wf(),
        ensures
            q == self.quorum(),
    {
        let mut total: u64 = 0;
        let mut i: usize = 0;
        while i < self.authorities.len()
            invariant
                self.wf(),
                i <= self.authorities@.len(),
                total == total_stake(self.authorities@.take(i as int)),
            decreases self.authorities@.len() - i,
        {
            proof {
                assert(self.authorities@.take(i + 1).drop_last() =~= self.authorities@.take(i as int));
                lemma_total_stake_prefix(self.authorities@, i + 1);
            }
            total = total + self.authorities[i].stake;
            i = i + 1;
        }
        assert(self.authorities@.take(i as int) =~= self.authorities@);
        let q = (2 * (total as u128)) / 3 + 1;
        q as u64
    }

    /// The members other than `myself`, with their consensus addresses.
    pub fn others_consensus(&self, myself: &PublicKey) -> (o: Vec<(PublicKey, Address)>)
        ensures
            o@ == self.others(myself@),
    {
        let mut o: Vec<(PublicKey, Address)> = Vec::new();
        let mut i: usize = 0;
        let ghost pred = |a: Authority| a.name@ != myself@;
        let ghost f = |a: Authority| (a.name, a.address);
        while i < self.authorities.len()
            invariant
                i <= self.authorities@.len(),
                pred == (|a: Authority| a.name@ != myself@),
                f == (|a: Authority| (a.name, a.address)),
                o@ == self.authorities@.take(i as int).filter(pred).map_values(f),
            decreases self.authorities@.len() - i,
        {
            let a = self.authorities[i];
            proof {
                let t = self.authorities@.take(i + 1);
                assert(t.drop_last() =~= self.authorities@.take(i as int));
                reveal_with_fuel(Seq::filter, 1);
            }
            if !(a.name == *myself) {
                o.push((a.name, a.address));
            }
            i = i + 1;
            proof {
                assert(o@ =~= self.authorities@.take(i as int).filter(pred).map_values(f));
            }
        }
        assert(self.authorities@.take(i as int) =~= self.authorities@);
        o
    }

    /// The consensus addresses of the members other than `myself`.
    pub fn others_consensus_sockets(&self, myself: &PublicKey) -> (o: Vec<Address>)
        ensures
            o@ == self.others(myself@).map_values(|p: (PublicKey, Address)| p.1),
    {
        let others = self.others_consensus(myself);
        let mut o: Vec<Address> = Vec::new();
        let mut i: usize = 0;
        while i < others.len()
            invariant
                i <= others@.len(),
                o@ == others@.take(i as int).map_values(|p: (PublicKey, Address)| p.1),
            decreases others@.len() - i,
        {
            o.push(others[i].1);
            i = i + 1;
            assert(o@ =~= others@.take(i as int).map_values(|p: (PublicKey, Address)| p.1));
        }
        assert(others@.take(i as int) =~= others@);
        o
    }
}

pub proof fn lemma_bytes_lt_irreflexive(a: Seq<u8>)
    ensures
        !bytes_lt(a, a),
{
}

/// `bytes_lt` is a strict total order on byte strings of one length.
pub proof fn lemma_bytes_lt_order(a: Seq<u8>, b: Seq<u8>, c: Seq<u8>)
    requires
        a.len() == b.len(),
        b.len() == c.len(),
    ensures
        bytes_lt(a, b) ==> !bytes_lt(b, a),
        bytes_lt(a, b) && bytes_lt(b, c) ==> bytes_lt(a, c),
        a != b ==> bytes_lt(a, b) || bytes_lt(b, a),
{
    if bytes_lt(a, b) {
        let k = choose|k: int| 0 <= k < a.len() && k < b.len() && a.take(k) == b.take(k) && #[trigger] a[k] < #[trigger] b[k];
        if bytes_lt(b, a) {
            let k2 = choose|k: int| 0 <= k < b.len() && k < a.len() && b.take(k) == a.take(k) && #[trigger] b[k] < #[trigger] a[k];
            if k < k2 {
                assert(b.take(k2)[k] == a.take(k2)[k]);
            } else if k2 < k {
                assert(b.take(k)[k2] == a.take(k)[k2]);
            }
        }
        if bytes_lt(b, c) {
            let k2 = choose|k: int| 0 <= k < b.len() && k < c.len() && b.take(k) == c.take(k) && #[trigger] b[k] < #[trigger] c[k];
            let m = if k < k2 { k } else { k2 };
            assert(a.take(m) =~= c.take(m)) by {
                assert forall|i: int| 0 <= i < m implies a.take(m)[i] == c.take(m)[i] by {
                    assert(a.take(k)[i] == b.take(k)[i]);
                    assert(b.take(k2)[i] == c.take(k2)[i]);
                }
            }
            if k < k2 {
                assert(b.take(k2)[k] == c.take(k2)[k]);
            } else if k2 < k {
                assert(a.take(k)[k2] == b.take(k)[k2]);
            }
            assert(a[m] < c[m]);
        }
    }
    if a != b {
        assert(!(a =~= b));
        let k = choose|k: int| 0 <= k < a.len() && a[k] != b[k];
        lemma_first_difference(a, b, k);
    }
}

proof fn lemma_first_difference(a: Seq<u8>, b: Seq<u8>, k: int)
    requires
        a.len() == b.len(),
        0 <= k < a.len(),
        a[k] != b[k],
    ensures
        bytes_lt(a, b) || bytes_lt(b, a),
    decreases k,
{
    if a.take(k) =~= b.take(k) {
        if a[k] < b[k] {
            assert(bytes_lt(a, b));
        } else {
            assert(bytes_lt(b, a));
        }
    } else {
        let j = choose|j: int| 0 <= j < k && a.take(k)[j] != b.take(k)[j];
        lemma_first_difference(a, b, j);
    }
}

/// Lexicographic comparison of two keys' bytes.
pub fn key_lt(a: &PublicKey, b: &PublicKey) -> (r: bool)
    ensures
        r == bytes_lt(a@, b@),
{
    let mut i: usize = 0;
    while i < 32
        invariant
            i <= 32,
            a@.len() == 32,
            b@.len() == 32,
            a@.take(i as int) =~= b@.take(i as int),
        decreases 32 - i,
    {
        if a.0[i] != b.0[i] {
            let r = a.0[i] < b.0[i];
            proof {
                if r {
                    assert(bytes_lt(a@, b@));
                } else {
                    assert(bytes_lt(b@, a@));
                    lemma_bytes_lt_order(a@, b@, b@);
                }
            }
            return r;
        }
        i = i + 1;
        assert(a@.take(i as int) =~= b@.take(i as int)) by {
            assert forall|j: int| 0 <= j < i implies a@.take(i as int)[j] == b@.take(i as int)[j] by {
                if j < i - 1 {
                    assert(a@.take(i - 1)[j] == b@.take(i - 1)[j]);
                }
            }
        }
    }
    assert(a@ =~= b@) by {
        assert(a@.take(32) =~= a@);
        assert(b@.take(32) =~= b@);
    }
    proof {
        lemma_bytes_lt_irreflexive(a@);
    }
    false
}

proof fn lemma_total_stake_prefix(auths: Seq<Authority>, i: int)
    requires
        0 <= i <= auths.len(),
    ensures
        total_stake(auths.take(i)) <= total_stake(auths),
    decreases auths.len(),
{
    if i < auths.len() {
        assert(auths.drop_last().take(i) =~= auths.take(i));
        lemma_total_stake_prefix(auths.drop_last(), i);
    } else {
        assert(auths.take(i) =~= auths);
    }
}


/// The stake of `name` in `auths`, 0 where it is absent.
pub open spec fn stake_in(auths: Seq<Authority>, name: Seq<u8>) -> nat
    decreases auths.len(),
{
    if auths.len() == 0 {
        0
    } else if auths.last().name@ == name {
        auths.last().stake as nat
    } else {
        stake_in(auths.drop_last(), name)
    }
}

/// No two authorities share a key.
pub open spec fn distinct_names(auths: Seq<Authority>) -> bool {
    forall|i: int, j: int| 0 <= i < j < auths.len() ==> (#[trigger] auths[i]).name@ != (#[trigger] auths[j]).name@
}

pub proof fn lemma_wf_distinct(c: &Committee)
    requires
        c.wf(),
    ensures
        distinct_names(c.authorities@),
{
    assert forall|i: int, j: int| 0 <= i < j < c.authorities@.len() implies (
    #[trigger] c.authorities@[i]).name@ != (#[trigger] c.authorities@[j]).name@ by {
        lemma_bytes_lt_irreflexive(c.authorities@[i].name@);
    }
}

/// Adding an absent key to a set of keys adds its stake.
pub proof fn lemma_weight_insert(auths: Seq<Authority>, names: Set<Seq<u8>>, n: Seq<u8>)
    requires
        distinct_names(auths),
        !names.contains(n),
    ensures
        weight_in(auths, names.insert(n)) == weight_in(auths, names) + stake_in(auths, n),
    decreases auths.len(),
{
    if auths.len() > 0 {
        let d = auths.drop_last();
        assert(distinct_names(d)) by {
            assert forall|i: int, j: int| 0 <= i < j < d.len() implies (#[trigger] d[i]).name@
                != (#[trigger] d[j]).name@ by {
                assert(d[i] == auths[i] && d[j] == auths[j]);
            }
        }
        lemma_weight_insert(d, names, n);
        if auths.last().name@ == n {
            lemma_stake_absent(d, n);
            assert forall|i: int| 0 <= i < d.len() implies d[i].name@ != n by {
                assert(d[i] == auths[i]);
                assert(auths[i].name@ != auths[auths.len() - 1].name@);
            }
        }
    }
}

pub proof fn lemma_stake_absent(auths: Seq<Authority>, n: Seq<u8>)
    requires
        forall|i: int| 0 <= i < auths.len() ==> auths[i].name@ != n,
    ensures
        stake_in(auths, n) == 0,
    decreases auths.len(),
{
    if auths.len() > 0 {
        lemma_stake_absent(auths.drop_last(), n);
    }
}

/// Any set of keys weighs at most the total stake.
pub proof fn lemma_weight_le_total(auths: Seq<Authority>, names: Set<Seq<u8>>)
    ensures
        weight_in(auths, names) <= total_stake(auths),
    decreases auths.len(),
{
    if auths.len() > 0 {
        lemma_weight_le_total(auths.drop_last(), names);
    }
}

/// The stake of a member found at position `i`.
pub proof fn lemma_stake_in_at(auths: Seq<Authority>, i: int)
    requires
        distinct_names(auths),
        0 <= i < auths.len(),
    ensures
        stake_in(auths, auths[i].name@) == auths[i].stake,
    decreases auths.len(),
{
    if i < auths.len() - 1 {
        let d = auths.drop_last();
        assert(distinct_names(d)) by {
            assert forall|a: int, b: int| 0 <= a < b < d.len() implies (#[trigger] d[a]).name@
                != (#[trigger] d[b]).name@ by {
                assert(d[a] == auths[a] && d[b] == auths[b]);
            }
        }
        assert(auths[i].name@ != auths[auths.len() - 1].name@);
        lemma_stake_in_at(d, i);
    }
}

impl Committee {
    /// `stake_of` agrees with `stake_in` over the authorities.
    pub proof fn lemma_stake_of(&self, n: Seq<u8>)
        requires
            self.wf(),
        ensures
            self.stake_of(n) == stake_in(self.authorities@, n),
    {
        lemma_wf_distinct(self);
        if self.has(n) {
            let i = self.index_of(n);
            lemma_stake_in_at(self.authorities@, i);
        } else {
            lemma_stake_absent(self.authorities@, n);
        }
    }
}


pub proof fn lemma_weight_empty(auths: Seq<Authority>)
    ensures
        weight_in(auths, Set::empty()) == 0,
    decreases auths.len(),
{
    if auths.len() > 0 {
        lemma_weight_empty(auths.drop_last());
    }
}

} // verus!
