//! Leader election: the committee ordered by consensus address, and the leader of
//! each round taken from the fair-succession schedule over those positions.
use vstd::prelude::*;
use crate::committee::{bytes_lt, key_lt, lemma_bytes_lt_order, Address, Authority, Committee, Host};
use crate::crypto::PublicKey;
use crate::schedule::{fair_schedule, generate_schedule, hands_over, lemma_schedule_successions, lemma_schedule_turns, occ};

verus! {

/// The elector in use.
pub type LeaderElector = DeterministicFairSuccessionLeaderElector;

/// Elects the leader of a round so that every member leads the same number of
/// rounds and is succeeded by every other member exactly once in each pass of
/// the schedule. Members are numbered by their consensus addresses.
pub struct DeterministicFairSuccessionLeaderElector {
    addresses: Vec<(Address, PublicKey)>,
    schedule: Vec<usize>,
}

/// The position, in address order, of the leader of `round` among `n` members:
/// the schedule's entry for `round` read cyclically, or the only member.
pub open spec fn slot(n: int, round: int) -> int {
    if n <= 1 {
        0
    } else {
        fair_schedule(n)[round % (n * (n - 1))] as int
    }
}

/// The order of socket addresses: IPv4 before IPv6; then by IP address, then by
/// port (and for IPv6 then by flow label and scope id).
pub open spec fn address_lt(a: Address, b: Address) -> bool {
    match (a.host, b.host) {
        (Host::V4(x), Host::V4(y)) => x < y || (x == y && a.port < b.port),
        (Host::V4(_), Host::V6 { .. }) => true,
        (Host::V6 { .. }, Host::V4(_)) => false,
        (Host::V6 { ip: x, flowinfo: f, scope_id: s }, Host::V6 { ip: y, flowinfo: g, scope_id: t }) => {
            ||| x < y
            ||| x == y && a.port < b.port
            ||| x == y && a.port == b.port && f < g
            ||| x == y && a.port == b.port && f == g && s < t
        },
    }
}

/// The order of the elector's entries: by address, and by key among equal
/// addresses.
pub open spec fn entry_lt(a: (Address, PublicKey), b: (Address, PublicKey)) -> bool {
    ||| address_lt(a.0, b.0)
    ||| a.0 == b.0 && bytes_lt(a.1@, b.1@)
}

/// The entry of a committee member.
pub open spec fn entry_of(a: Authority) -> (Address, PublicKey) {
    (a.address, a.name)
}

/// `x` is the entry of a member of `c`.
pub open spec fn member_entry(c: Committee, x: (Address, PublicKey)) -> bool {
    exists|j: int| 0 <= j < c.authorities@.len() && x == entry_of(#[trigger] c.authorities@[j])
}

/// `s` is strictly increasing in `entry_lt`.
pub open spec fn sorted_entries(s: Seq<(Address, PublicKey)>) -> bool {
    forall|i: int, j: int| 0 <= i < j < s.len() ==> entry_lt(#[trigger] s[i], #[trigger] s[j])
}

proof fn lemma_entry_order(a: (Address, PublicKey), b: (Address, PublicKey), c: (Address, PublicKey))
    ensures
        entry_lt(a, b) ==> !entry_lt(b, a),
        entry_lt(a, b) && entry_lt(b, c) ==> entry_lt(a, c),
        a.1@ != b.1@ ==> entry_lt(a, b) || entry_lt(b, a),
{
    lemma_bytes_lt_order(a.1@, b.1@, c.1@);
    lemma_bytes_lt_order(b.1@, a.1@, c.1@);
}

/// In a strictly sorted sequence, the entries after the first are the others.
proof fn lemma_sorted_rest(s: Seq<(Address, PublicKey)>, x: (Address, PublicKey))
    requires
        sorted_entries(s),
        s.len() > 0,
    ensures
        s.drop_first().contains(x) <==> (s.contains(x) && x != s[0]),
{
    if s.drop_first().contains(x) {
        let k = choose|k: int| 0 <= k < s.drop_first().len() && s.drop_first()[k] == x;
        assert(s[k + 1] == x);
        assert(entry_lt(s[0], s[k + 1]));
        lemma_entry_order(x, x, x);
    }
    if s.contains(x) && x != s[0] {
        let k = choose|k: int| 0 <= k < s.len() && s[k] == x;
        assert(s.drop_first()[k - 1] == x);
    }
}

/// Two strictly sorted sequences with the same entries are equal.
proof fn lemma_sorted_unique(s1: Seq<(Address, PublicKey)>, s2: Seq<(Address, PublicKey)>)
    requires
        sorted_entries(s1),
        sorted_entries(s2),
        forall|x: (Address, PublicKey)| s1.contains(x) <==> s2.contains(x),
    ensures
        s1 == s2,
    decreases s1.len(),
{
    if s1.len() == 0 {
        if s2.len() > 0 {
            assert(s2.contains(s2[0]));
        }
        assert(s1 =~= s2);
    } else {
        assert(s1.contains(s1[0]));
        assert(s2.contains(s1[0]));
        assert(s2.contains(s2[0]));
        let j = choose|j: int| 0 <= j < s2.len() && s2[j] == s1[0];
        let k = choose|k: int| 0 <= k < s1.len() && s1[k] == s2[0];
        if j > 0 {
            // s2[0] < s1[0], yet s1[0] <= s2[0]
            assert(entry_lt(s2[0], s2[j]));
            lemma_entry_order(s1[0], s1[k], s1[0]);
            if k > 0 {
                assert(entry_lt(s1[0], s1[k]));
            }
        }
        assert(s1[0] == s2[0]);
        let t1 = s1.drop_first();
        let t2 = s2.drop_first();
        assert forall|x: (Address, PublicKey)| t1.contains(x) <==> t2.contains(x) by {
            lemma_sorted_rest(s1, x);
            lemma_sorted_rest(s2, x);
        }
        lemma_sorted_unique(t1, t2);
        assert(s1 =~= s2) by {
            assert(s1.len() == t1.len() + 1);
            assert(s2.len() == t2.len() + 1);
            assert forall|i: int| 0 <= i < s1.len() implies s1[i] == s2[i] by {
                if i > 0 {
                    assert(s1[i] == t1[i - 1]);
                    assert(s2[i] == t2[i - 1]);
                }
            }
        }
    }
}

fn address_less(a: &Address, b: &Address) -> (r: bool)
    ensures
        r == address_lt(*a, *b),
{
    match (a.host, b.host) {
        (Host::V4(x), Host::V4(y)) => x < y || (x == y && a.port < b.port),
        (Host::V4(_), Host::V6 { .. }) => true,
        (Host::V6 { .. }, Host::V4(_)) => false,
        (Host::V6 { ip: x, flowinfo: f, scope_id: s }, Host::V6 { ip: y, flowinfo: g, scope_id: t }) => {
            if x != y {
                x < y
            } else if a.port != b.port {
                a.port < b.port
            } else if f != g {
                f < g
            } else {
                s < t
            }
        },
    }
}

fn entry_less(a: &(Address, PublicKey), b: &(Address, PublicKey)) -> (r: bool)
    ensures
        r == entry_lt(*a, *b),
{
    if a.0 == b.0 {
        key_lt(&a.1, &b.1)
    } else {
        address_less(&a.0, &b.0)
    }
}

impl DeterministicFairSuccessionLeaderElector {
    /// The entries, in order.
    pub closed spec fn entries(&self) -> Seq<(Address, PublicKey)> {
        self.addresses@
    }

    /// `self` holds the members of `committee` sorted by consensus address
    /// (among equal addresses, by key) and the schedule over their positions.
    pub open spec fn built_from(&self, committee: Committee) -> bool {
        &&& self.wf()
        &&& self.entries().len() == committee.authorities@.len()
        &&& sorted_entries(self.entries())
        &&& forall|x: (Address, PublicKey)|
            #![trigger self.entries().contains(x)]
            #![trigger member_entry(committee, x)]
            self.entries().contains(x) <==> member_entry(committee, x)
    }

    /// The elector of `committee`: its members sorted by consensus address, and
    /// the fair-succession schedule over their positions.
    pub fn new(committee: Committee) -> (e: Self)
        requires
            committee.wf(),
            committee.authorities@.len() * (committee.authorities@.len() - 1) + 1 <= usize::MAX,
        ensures
            e.built_from(committee),
    {
        let auths = &committee.authorities;
        let mut addresses: Vec<(Address, PublicKey)> = Vec::new();
        let mut i: usize = 0;
        while i < auths.len()
            invariant
                committee.wf(),
                auths == &committee.authorities,
                i <= auths@.len(),
                addresses@.len() == i,
                sorted_entries(addresses@),
                forall|x: (Address, PublicKey)|
                    addresses@.contains(x) <==> exists|j: int|
                        0 <= j < i && x == entry_of(#[trigger] auths@[j]),
            decreases auths@.len() - i,
        {
            let x = (auths[i].address, auths[i].name);
            let ghost old_addresses = addresses@;
            // x's key differs from every key placed so far
            assert forall|k: int| 0 <= k < addresses@.len() implies addresses@[k].1@ != x.1@ by {
                assert(addresses@.contains(addresses@[k]));
                let j = choose|j: int| 0 <= j < i && addresses@[k] == entry_of(#[trigger] auths@[j]);
                assert(bytes_lt(auths@[j].name@, auths@[i as int].name@));
                crate::committee::lemma_bytes_lt_irreflexive(x.1@);
            }
            let mut p: usize = 0;
            while p < addresses.len() && entry_less(&addresses[p], &x)
                invariant
                    p <= addresses@.len(),
                    forall|k: int| 0 <= k < p ==> entry_lt(addresses@[k], x),
                decreases addresses@.len() - p,
            {
                p = p + 1;
            }
            addresses.insert(p, x);
            proof {
                let a = addresses@;
                assert(a == old_addresses.insert(p as int, x));
                assert forall|k1: int, k2: int| 0 <= k1 < k2 < a.len() implies entry_lt(
                    #[trigger] a[k1],
                    #[trigger] a[k2],
                ) by {
                    if p < old_addresses.len() {
                        lemma_entry_order(x, old_addresses[p as int], old_addresses[p as int]);
                        lemma_entry_order(old_addresses[p as int], x, x);
                    }
                    if k1 < p && k2 == p {
                    } else if k1 == p && k2 > p {
                        lemma_entry_order(x, old_addresses[p as int], old_addresses[k2 - 1]);
                    } else if k1 < p && k2 > p {
                        lemma_entry_order(a[k1], x, a[k2]);
                        lemma_entry_order(x, old_addresses[p as int], old_addresses[k2 - 1]);
                    }
                }
                assert forall|y: (Address, PublicKey)| a.contains(y) <==> exists|j: int|
                    0 <= j < i + 1 && y == entry_of(#[trigger] auths@[j]) by {
                    if a.contains(y) {
                        let k = choose|k: int| 0 <= k < a.len() && a[k] == y;
                        if k != p {
                            let ko = if k < p { k } else { k - 1 };
                            assert(old_addresses.contains(old_addresses[ko]));
                        }
                    }
                    if exists|j: int| 0 <= j < i + 1 && y == entry_of(#[trigger] auths@[j]) {
                        let j = choose|j: int| 0 <= j < i + 1 && y == entry_of(#[trigger] auths@[j]);
                        if j < i {
                            assert(old_addresses.contains(y));
                            let k = choose|k: int| 0 <= k < old_addresses.len() && old_addresses[k] == y;
                            let kn = if k < p { k } else { k + 1 };
                            assert(a[kn] == y);
                        } else {
                            assert(a[p as int] == y);
                        }
                    }
                }
            }
            i = i + 1;
        }
        let schedule = generate_schedule(addresses.len());
        let e = DeterministicFairSuccessionLeaderElector { addresses, schedule };
        proof {
            let es = e.addresses@;
            crate::committee::lemma_wf_distinct(&committee);
            assert forall|a: int, b: int| 0 <= a < b < es.len() implies (#[trigger] es[a]).1@ != (#[trigger] es[b]).1@ by {
                assert(es.contains(es[a]) && es.contains(es[b]));
                let ja = choose|j: int| 0 <= j < auths@.len() && es[a] == entry_of(#[trigger] auths@[j]);
                let jb = choose|j: int| 0 <= j < auths@.len() && es[b] == entry_of(#[trigger] auths@[j]);
                assert(entry_lt(es[a], es[b]));
                if ja == jb {
                    lemma_entry_order(es[a], es[a], es[a]);
                } else if ja < jb {
                    assert(auths@[ja].name@ != auths@[jb].name@);
                } else {
                    assert(auths@[jb].name@ != auths@[ja].name@);
                }
            }
        }
        e
    }

    /// No key occurs twice among the entries, and the schedule is the fair one
    /// over the entries' positions (and fits in memory).
    pub closed spec fn wf(&self) -> bool {
        &&& forall|a: int, b: int|
            0 <= a < b < self.addresses@.len() ==> (#[trigger] self.addresses@[a]).1@ != (
            #[trigger] self.addresses@[b]).1@
        &&& self.addresses@.len() >= 1 ==> self.schedule@ == fair_schedule(
            self.addresses@.len() as int,
        )
        &&& self.addresses@.len() <= usize::MAX
        &&& self.addresses@.len() * (self.addresses@.len() - 1) + 1 <= usize::MAX
    }

    /// The key of the leader of `round`, for a nonnegative round.
    pub open spec fn leader_at(&self, round: int) -> Seq<u8> {
        self.entries()[slot(self.entries().len() as int, round)].1@
    }

    /// The number of rounds among `start .. start + len` that `key` leads.
    pub open spec fn turns(&self, start: int, len: nat, key: Seq<u8>) -> nat
        decreases len,
    {
        if len == 0 {
            0
        } else {
            self.turns(start, (len - 1) as nat, key) + if self.leader_at(start + len - 1) == key {
                1nat
            } else {
                0nat
            }
        }
    }

    proof fn lemma_distinct_keys(&self, a: int, b: int)
        requires
            self.wf(),
            0 <= a < self.entries().len(),
            0 <= b < self.entries().len(),
            a != b,
        ensures
            self.entries()[a].1@ != self.entries()[b].1@,
    {
        if a < b {
            assert(self.addresses@[a].1@ != self.addresses@[b].1@);
        } else {
            assert(self.addresses@[b].1@ != self.addresses@[a].1@);
        }
    }

    /// The slot of every round is a position among the entries.
    proof fn lemma_slot_in_range(&self, round: int)
        requires
            self.wf(),
            self.entries().len() >= 1,
            round >= 0,
        ensures
            0 <= slot(self.entries().len() as int, round) < self.entries().len(),
    {
        let n = self.entries().len() as int;
        if n >= 2 {
            lemma_schedule_turns(n);
            assert(n * (n - 1) > 0) by (nonlinear_arith)
                requires
                    n >= 2,
            ;
            vstd::arithmetic::div_mod::lemma_mod_bound(round, n * (n - 1));
        }
    }

    /// Law: the leader of every round is a member, and the leaders repeat after
    /// one pass of the schedule, `n * (n - 1)` rounds for `n` members.
    pub proof fn lemma_leaders_repeat(&self, round: int)
        requires
            self.wf(),
            self.entries().len() >= 1,
            round >= 0,
        ensures
            exists|j: int|
                0 <= j < self.entries().len() && #[trigger] self.entries()[j].1@ == self.leader_at(
                    round,
                ),
            self.leader_at(round + self.entries().len() * (self.entries().len() - 1))
                == self.leader_at(round),
    {
        let n = self.entries().len() as int;
        self.lemma_slot_in_range(round);
        let j = slot(n, round);
        assert(self.entries()[j].1@ == self.leader_at(round));
        if n >= 2 {
            assert(n * (n - 1) > 0) by (nonlinear_arith)
                requires
                    n >= 2,
            ;
            vstd::arithmetic::div_mod::lemma_mod_add_multiples_vanish(round, n * (n - 1));
        }
    }

    /// Round `r + 1` takes the schedule's entry after round `r`'s, cyclically.
    proof fn lemma_next_slot(&self, r: int)
        requires
            self.wf(),
            self.entries().len() >= 2,
            r >= 0,
        ensures
            ({
                let n = self.entries().len() as int;
                let len = n * (n - 1);
                let s = fair_schedule(n);
                &&& len > 0
                &&& s.len() == len
                &&& 0 <= r % len < len
                &&& slot(n, r) == s[r % len] as int
                &&& slot(n, r + 1) == s[(r % len + 1) % len] as int
                &&& s[r % len] != s[(r % len + 1) % len]
                &&& s[r % len] < n
                &&& s[(r % len + 1) % len] < n
            }),
    {
        let n = self.entries().len() as int;
        let len = n * (n - 1);
        let s = fair_schedule(n);
        lemma_schedule_turns(n);
        assert(len >= 2) by (nonlinear_arith)
            requires
                n >= 2,
                len == n * (n - 1),
        ;
        vstd::arithmetic::div_mod::lemma_add_mod_noop(r, 1, len);
        vstd::arithmetic::div_mod::lemma_small_mod(1, len as nat);
        vstd::arithmetic::div_mod::lemma_mod_bound(r, len);
        vstd::arithmetic::div_mod::lemma_mod_bound(r % len + 1, len);
        lemma_schedule_successions(n, 0, 1);
        assert(s[(r % len + 1) % len] != s[r % len]);
    }

    /// Law: with two or more members, no member leads two rounds in a row.
    pub proof fn lemma_no_repeated_leader(&self, r: int)
        requires
            self.wf(),
            self.entries().len() >= 2,
            r >= 0,
        ensures
            self.leader_at(r) != self.leader_at(r + 1),
    {
        let n = self.entries().len() as int;
        let len = n * (n - 1);
        let s = fair_schedule(n);
        self.lemma_next_slot(r);
        self.lemma_distinct_keys(s[r % len] as int, s[(r % len + 1) % len] as int);
    }

    /// Law: with two or more members, in each pass of the schedule (rounds
    /// `0 .. n * (n - 1)`) every member is succeeded by every other member
    /// exactly once.
    pub proof fn lemma_fair_succession(&self, i: int, j: int)
        requires
            self.wf(),
            self.entries().len() >= 2,
            0 <= i < self.entries().len(),
            0 <= j < self.entries().len(),
            i != j,
        ensures
            exists|r: int|
                0 <= r < self.entries().len() * (self.entries().len() - 1) && #[trigger] self.leader_at(r)
                    == self.entries()[i].1@ && self.leader_at(r + 1) == self.entries()[j].1@,
            forall|r1: int, r2: int|
                0 <= r1 < self.entries().len() * (self.entries().len() - 1) && 0 <= r2
                    < self.entries().len() * (self.entries().len() - 1) && #[trigger] self.leader_at(r1)
                    == self.entries()[i].1@ && self.leader_at(r1 + 1) == self.entries()[j].1@
                    && #[trigger] self.leader_at(r2) == self.entries()[i].1@ && self.leader_at(r2 + 1)
                    == self.entries()[j].1@ ==> r1 == r2,
    {
        let n = self.entries().len() as int;
        let len = n * (n - 1);
        let s = fair_schedule(n);
        lemma_schedule_successions(n, i, j);
        let t = choose|t: int| hands_over(s, t, i, j);
        self.lemma_next_slot(t);
        vstd::arithmetic::div_mod::lemma_small_mod(t as nat, len as nat);
        assert(self.leader_at(t) == self.entries()[i].1@);
        assert(self.leader_at(t + 1) == self.entries()[j].1@);
        assert forall|r1: int, r2: int|
            0 <= r1 < len && 0 <= r2 < len && #[trigger] self.leader_at(r1) == self.entries()[i].1@
                && self.leader_at(r1 + 1) == self.entries()[j].1@ && #[trigger] self.leader_at(r2)
                == self.entries()[i].1@ && self.leader_at(r2 + 1) == self.entries()[j].1@ implies r1
            == r2 by {
            assert(hands_over(s, r1, i, j)) by {
                self.lemma_hands_over_at(r1, i, j);
            }
            assert(hands_over(s, r2, i, j)) by {
                self.lemma_hands_over_at(r2, i, j);
            }
        }
    }

    /// Within the first pass, a round led by member `i` and followed by member
    /// `j` is a hand-over from position `i` to position `j` in the schedule.
    proof fn lemma_hands_over_at(&self, r: int, i: int, j: int)
        requires
            self.wf(),
            self.entries().len() >= 2,
            0 <= i < self.entries().len(),
            0 <= j < self.entries().len(),
            0 <= r < self.entries().len() * (self.entries().len() - 1),
            self.leader_at(r) == self.entries()[i].1@,
            self.leader_at(r + 1) == self.entries()[j].1@,
        ensures
            hands_over(fair_schedule(self.entries().len() as int), r, i, j),
    {
        let n = self.entries().len() as int;
        let len = n * (n - 1);
        let s = fair_schedule(n);
        self.lemma_next_slot(r);
        vstd::arithmetic::div_mod::lemma_small_mod(r as nat, len as nat);
        if s[r] as int != i {
            self.lemma_distinct_keys(s[r] as int, i);
        }
        if s[(r + 1) % len] as int != j {
            self.lemma_distinct_keys(s[(r + 1) % len] as int, j);
        }
    }

    /// `turns` split off its first round instead of its last.
    proof fn lemma_turns_front(&self, start: int, len: nat, key: Seq<u8>)
        ensures
            self.turns(start, len + 1, key) == (if self.leader_at(start) == key {
                1nat
            } else {
                0nat
            }) + self.turns(start + 1, len, key),
        decreases len,
    {
        let first: nat = if self.leader_at(start) == key { 1nat } else { 0nat };
        let last: nat = if self.leader_at(start + len) == key { 1nat } else { 0nat };
        assert(self.turns(start, len + 1, key) == self.turns(start, len, key) + last);
        if len > 0 {
            self.lemma_turns_front(start, (len - 1) as nat, key);
            assert(self.turns(start + 1, len, key) == self.turns(start + 1, (len - 1) as nat, key) + last);
        } else {
            assert(self.turns(start, 0, key) == 0);
            assert(self.turns(start + 1, 0, key) == 0);
        }
    }

    /// Over the first pass, the turns of the member at position `k` are its
    /// occurrences in the schedule.
    proof fn lemma_turns_first_pass(&self, m: nat, k: int)
        requires
            self.wf(),
            self.entries().len() >= 2,
            0 <= k < self.entries().len(),
            m <= self.entries().len() * (self.entries().len() - 1),
        ensures
            self.turns(0, m, self.entries()[k].1@) == occ(
                fair_schedule(self.entries().len() as int).take(m as int),
                k,
            ),
        decreases m,
    {
        let n = self.entries().len() as int;
        let s = fair_schedule(n);
        lemma_schedule_turns(n);
        if m == 0 {
            assert(s.take(0) =~= Seq::<usize>::empty());
        } else {
            self.lemma_turns_first_pass((m - 1) as nat, k);
            crate::schedule::lemma_occ_take_step(s, m - 1, k);
            vstd::arithmetic::div_mod::lemma_small_mod((m - 1) as nat, (n * (n - 1)) as nat);
            if s[m - 1] as int != k {
                self.lemma_distinct_keys(s[m - 1] as int, k);
            }
        }
    }

    /// Law: every member leads the same number of rounds, `n - 1` of any
    /// `n * (n - 1)` consecutive rounds (`n` members).
    pub proof fn lemma_equal_turns(&self, start: int, k: int)
        requires
            self.wf(),
            self.entries().len() >= 1,
            0 <= k < self.entries().len(),
            start >= 0,
        ensures
            self.turns(
                start,
                (self.entries().len() * (self.entries().len() - 1)) as nat,
                self.entries()[k].1@,
            ) == self.entries().len() - 1,
        decreases start,
    {
        let n = self.entries().len() as int;
        let len = (n * (n - 1)) as nat;
        let key = self.entries()[k].1@;
        if n == 1 {
            assert(len == 0) by (nonlinear_arith)
                requires
                    n == 1,
                    len == (n * (n - 1)) as nat,
            ;
        } else if start == 0 {
            lemma_schedule_turns(n);
            self.lemma_turns_first_pass(len, k);
            assert(fair_schedule(n).take(len as int) =~= fair_schedule(n));
        } else {
            self.lemma_equal_turns(start - 1, k);
            self.lemma_turns_front(start - 1, len, key);
            self.lemma_leaders_repeat(start - 1);
        }
    }

    /// Law: the leaders depend only on the members' keys and consensus
    /// addresses: electors built from two committees with the same members
    /// (whatever else differs, such as stakes) hold the same entries and elect
    /// the same leader in every round.
    pub proof fn lemma_same_members_same_leaders(e1: &Self, c1: Committee, e2: &Self, c2: Committee)
        requires
            e1.built_from(c1),
            e2.built_from(c2),
            forall|x: (Address, PublicKey)|
                #![trigger member_entry(c1, x)]
                #![trigger member_entry(c2, x)]
                member_entry(c1, x) <==> member_entry(c2, x),
        ensures
            e1.entries() == e2.entries(),
            forall|r: int| #[trigger] e1.leader_at(r) == e2.leader_at(r),
    {
        assert forall|x: (Address, PublicKey)| e1.entries().contains(x) <==> e2.entries().contains(x) by {
            assert(member_entry(c1, x) <==> member_entry(c2, x));
        }
        lemma_sorted_unique(e1.entries(), e2.entries());
    }

    /// Law: the entries are in the order of their socket addresses: IPv4
    /// addresses before IPv6 ones; between two IPv4 or two IPv6 addresses, the
    /// smaller IP address first whatever the ports; the port only between equal
    /// IP addresses; for IPv6, then the flow label and the scope id.
    pub proof fn lemma_entries_in_socket_order(&self, committee: Committee)
        requires
            self.built_from(committee),
        ensures
            forall|i: int, j: int|
                0 <= i < j < self.entries().len() ==> {
                    let a = (#[trigger] self.entries()[i]).0;
                    let b = (#[trigger] self.entries()[j]).0;
                    &&& !(a.host is V6 && b.host is V4)
            &&& a.host matches Host::V4(x) ==> (b.host matches Host::V4(y) ==> (x <= y && (x == y
                ==> a.port <= b.port)))
            &&& a.host matches Host::V6 { ip: x, flowinfo: f, scope_id: s } ==> (
            b.host matches Host::V6 { ip: y, flowinfo: g, scope_id: t } ==> (x <= y && (x == y
                ==> a.port <= b.port) && (x == y && a.port == b.port ==> f <= g) && (x == y && a.port
                == b.port && f == g ==> s <= t)))
                },
    {
        assert forall|i: int, j: int| 0 <= i < j < self.entries().len() implies {
            let a = (#[trigger] self.entries()[i]).0;
            let b = (#[trigger] self.entries()[j]).0;
            &&& !(a.host is V6 && b.host is V4)
            &&& a.host matches Host::V4(x) ==> (b.host matches Host::V4(y) ==> (x <= y && (x == y
                ==> a.port <= b.port)))
            &&& a.host matches Host::V6 { ip: x, flowinfo: f, scope_id: s } ==> (
            b.host matches Host::V6 { ip: y, flowinfo: g, scope_id: t } ==> (x <= y && (x == y
                ==> a.port <= b.port) && (x == y && a.port == b.port ==> f <= g) && (x == y && a.port
                == b.port && f == g ==> s <= t)))
        } by {
            assert(entry_lt(self.entries()[i], self.entries()[j]));
        }
    }

    /// The number of entries, one per committee member.
    pub fn size(&self) -> (n: usize)
        ensures
            n == self.entries().len(),
    {
        self.addresses.len()
    }

    /// The leader of `round`: the member at the position that the schedule
    /// gives for `round`, read cyclically.
    pub fn get_leader(&self, round: u64) -> (leader: PublicKey)
        requires
            self.wf(),
            self.entries().len() > 0,
        ensures
            leader == self.entries()[slot(self.entries().len() as int, round as int)].1,
            leader@ == self.leader_at(round as int),
    {
        proof {
            self.lemma_slot_in_range(round as int);
        }
        let n = self.addresses.len();
        if n == 1 {
            return self.addresses[0].1;
        }
        let period = self.schedule.len();
        proof {
            lemma_schedule_turns(n as int);
            assert(period > 0) by (nonlinear_arith)
                requires
                    n >= 2,
                    period == n * (n - 1),
            ;
        }
        let position = (round % (period as u64)) as usize;
        let index = self.schedule[position];
        self.addresses[index].1
    }
}

} // verus!
