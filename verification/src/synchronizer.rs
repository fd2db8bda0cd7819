//! The synchronizer: fetching missing blocks from other nodes, and handing a
//! waiting block back to the core once what it was missing is stored.
use vstd::prelude::*;
use crate::committee::{Address, Committee};
use crate::crypto::{Digest, PublicKey};
use crate::keyed::{DigestMap, distinct_digests};
use crate::messages::{Block, QC, genesis_digest};

verus! {

/// `v` holds the digest `d`.
pub open spec fn lists_digest(v: Seq<Digest>, d: Seq<u8>) -> bool {
    exists|t: int| 0 <= t < v.len() && #[trigger] v[t]@ == d
}

/// Among the first `i` entries of `es`, `d` has a request older than `delay` at `now`.
pub open spec fn due_among(es: Seq<(Digest, u128)>, i: int, d: Seq<u8>, delay: u64, now: u128) -> bool {
    exists|k: int| 0 <= k < i && (#[trigger] es[k]).0@ == d && es[k].1 + delay < now
}

/// How often, in milliseconds, outstanding requests are looked at.
pub const TIMER_ACCURACY: u64 = 5_000;

/// The synchronizer's state: the blocks requested (with when the request was
/// made, in milliseconds) and the block to hand back to the core once each of
/// them is stored. The store, the network and the waiting stay with the task
/// that runs it.
pub struct Synchronizer {
    pub name: PublicKey,
    pub committee: Committee,
    pub sync_retry_delay: u64,
    pub requests: DigestMap<u128>,
    pub loopbacks: DigestMap<Block>,
}

impl Synchronizer {
    /// Every request time leaves room to add the retry delay.
    pub open spec fn wf(&self) -> bool {
        &&& self.committee.wf()
        &&& self.requests.wf()
        &&& self.loopbacks.wf()
        &&& forall|d: Seq<u8>| #[trigger] self.requests.view().dom().contains(d) ==> self.requests.view()[d] + self.sync_retry_delay <= u128::MAX
    }

    /// A synchronizer with nothing requested.
    pub fn new(name: PublicKey, committee: Committee, sync_retry_delay: u64) -> (s: Self)
        requires
            committee.wf(),
        ensures
            s.wf(),
            s.name == name,
            s.committee == committee,
            s.sync_retry_delay == sync_retry_delay,
            s.requests.view().dom() == Set::<Seq<u8>>::empty(),
            s.loopbacks.view().dom() == Set::<Seq<u8>>::empty(),
    {
        let s = Synchronizer { name, committee, sync_retry_delay, requests: DigestMap::new(), loopbacks: DigestMap::new() };
        assert(s.requests.view().dom() =~= Set::<Seq<u8>>::empty());
        assert(s.loopbacks.view().dom() =~= Set::<Seq<u8>>::empty());
        s
    }

    /// The block with `digest` when it needs no store: the genesis block for the
    /// genesis digest; for any other digest, `None`, and the store is to be read
    /// (and the block requested if it is not there).
    pub fn get_block(digest: &Digest) -> (b: Option<Block>)
        ensures
            digest@ == genesis_digest() ==> (b matches Some(g) && crate::consensus_core::is_genesis_block(g)),
            digest@ != genesis_digest() ==> b is None,
    {
        if *digest == QC::genesis().hash {
            Some(Block::genesis())
        } else {
            None
        }
    }

    /// A request to sync the block `to_sync` from `server`, made at `now`, with
    /// `resume_from` to hand back once it is stored. A block requested before only
    /// gets its hand-back updated (a new one, or one of a higher round, replaces
    /// it); a new request also drops any request for `resume_from` itself and
    /// returns the address of `server`, where the request goes first.
    pub fn on_request(&mut self, to_sync: Digest, server: &PublicKey, resume_from: Option<Block>, now: u128) -> (a: Option<Address>)
        requires
            old(self).wf(),
            now + old(self).sync_retry_delay <= u128::MAX,
            !old(self).requests.view().dom().contains(to_sync@) ==> old(self).committee.has(server@),
        ensures
            final(self).wf(),
            final(self).name == old(self).name,
            final(self).committee == old(self).committee,
            final(self).sync_retry_delay == old(self).sync_retry_delay,
            old(self).requests.view().dom().contains(to_sync@) ==> {
                &&& a is None
                &&& final(self).requests.view() == old(self).requests.view()
                &&& final(self).loopbacks.view() == match resume_from {
                    None => old(self).loopbacks.view(),
                    Some(new) => if old(self).loopbacks.view().dom().contains(to_sync@) && new.round <= old(self).loopbacks.view()[to_sync@].round {
                        old(self).loopbacks.view()
                    } else {
                        old(self).loopbacks.view().insert(to_sync@, new)
                    },
                }
            },
            !old(self).requests.view().dom().contains(to_sync@) ==> {
                &&& a == old(self).committee.address_of(server@)
                &&& final(self).requests.view() == match resume_from {
                    None => old(self).requests.view(),
                    Some(y) => old(self).requests.view().remove(y.digest_view()),
                }.insert(to_sync@, now)
                &&& final(self).loopbacks.view() == match resume_from {
                    None => old(self).loopbacks.view(),
                    Some(y) => old(self).loopbacks.view().insert(to_sync@, y),
                }
            },
    {
        if self.requests.contains(&to_sync) {
            // Already requested.
            if let Some(to_yield_new) = resume_from {
                match self.loopbacks.get(&to_sync) {
                    Some(to_yield_old) => {
                        // Keep the hand-back of the highest round.
                        if to_yield_new.round > to_yield_old.round {
                            self.loopbacks.insert(to_sync, to_yield_new);
                        }
                    },
                    None => {
                        self.loopbacks.insert(to_sync, to_yield_new);
                    },
                }
            }
            None
        } else {
            // A new request.
            if let Some(to_yield) = resume_from {
                // `to_yield` is here now: stop requesting it, hand it back later.
                let d = to_yield.digest();
                let _ = self.requests.remove(&d);
                self.loopbacks.insert(to_sync, to_yield);
            }
            self.requests.insert(to_sync, now);
            proof {
                assert forall|d: Seq<u8>| #[trigger] self.requests.view().dom().contains(d) implies self.requests.view()[d] + self.sync_retry_delay <= u128::MAX by {
                    if d != to_sync@ {
                        assert(old(self).requests.view().dom().contains(d));
                    }
                }
            }
            match self.committee.consensus(server) {
                Some(address) => Some(address),
                None => {
                    assert(false);
                    None
                },
            }
        }
    }

    /// The block `requested` is now stored: stop requesting it, and return the
    /// block to hand back to the core, if any.
    pub fn on_stored(&mut self, requested: &Digest) -> (b: Option<Block>)
        requires
            old(self).wf(),
        ensures
            final(self).wf(),
            final(self).committee == old(self).committee,
            final(self).sync_retry_delay == old(self).sync_retry_delay,
            final(self).requests.view() == old(self).requests.view().remove(requested@),
            final(self).loopbacks.view() == old(self).loopbacks.view().remove(requested@),
            b is Some <==> old(self).loopbacks.view().dom().contains(requested@),
            b matches Some(x) ==> x == old(self).loopbacks.view()[requested@],
    {
        let _ = self.requests.remove(requested);
        proof {
            assert forall|d: Seq<u8>| #[trigger] self.requests.view().dom().contains(d) implies self.requests.view()[d] + self.sync_retry_delay <= u128::MAX by {
                assert(old(self).requests.view().dom().contains(d));
            }
        }
        self.loopbacks.remove(requested)
    }

    /// The timer went off at `now`: the blocks whose request is older than the
    /// retry delay, to be requested again from every other node.
    pub fn on_timer(&self, now: u128) -> (due: Vec<Digest>)
        requires
            self.wf(),
        ensures
            forall|d: Seq<u8>| #[trigger] lists_digest(due@, d) <==> (self.requests.view().dom().contains(d) && self.requests.view()[d] + self.sync_retry_delay < now),
            forall|i: int, j: int| 0 <= i < j < due@.len() ==> (#[trigger] due@[i])@ != (#[trigger] due@[j])@,
    {
        let es = self.requests.entries();
        let mut due: Vec<Digest> = Vec::new();
        let mut i: usize = 0;
        while i < es.len()
            invariant
                self.wf(),
                distinct_digests(es@),
                crate::keyed::digest_map_of(es@) == self.requests.view(),
                forall|k: int| 0 <= k < es@.len() ==> self.requests.view().dom().contains((#[trigger] es@[k]).0@) && self.requests.view()[es@[k].0@] == es@[k].1,
                i <= es@.len(),
                forall|d: Seq<u8>| #[trigger] lists_digest(due@, d) <==> due_among(es@, i as int, d, self.sync_retry_delay, now),
                forall|a: int| 0 <= a < due@.len() ==> exists|k: int| 0 <= k < i && (#[trigger] es@[k]).0@ == (#[trigger] due@[a])@,
                forall|a: int, b: int| 0 <= a < b < due@.len() ==> (#[trigger] due@[a])@ != (#[trigger] due@[b])@,
            decreases es@.len() - i,
        {
            let (digest, timestamp) = es[i];
            let ghost before = due@;
            if timestamp + (self.sync_retry_delay as u128) < now {
                due.push(digest);
            }
            proof {
                assert forall|d: Seq<u8>| #[trigger] lists_digest(due@, d) <==> due_among(es@, i + 1, d, self.sync_retry_delay, now) by {
                    if lists_digest(due@, d) {
                        let t = choose|t: int| 0 <= t < due@.len() && #[trigger] due@[t]@ == d;
                        if t < before.len() {
                            assert(before[t]@ == d);
                            assert(lists_digest(before, d));
                        } else {
                            assert(es@[i as int].0@ == d);
                        }
                    }
                    if due_among(es@, i + 1, d, self.sync_retry_delay, now) {
                        let k = choose|k: int| 0 <= k < i + 1 && (#[trigger] es@[k]).0@ == d && es@[k].1 + self.sync_retry_delay < now;
                        if k < i {
                            assert(due_among(es@, i as int, d, self.sync_retry_delay, now));
                            assert(lists_digest(before, d));
                            let t = choose|t: int| 0 <= t < before.len() && #[trigger] before[t]@ == d;
                            assert(due@[t] == before[t]);
                        } else {
                            assert(due@[due@.len() - 1]@ == d);
                        }
                    }
                }
                assert forall|a: int| 0 <= a < due@.len() implies exists|k: int| 0 <= k < i + 1 && (#[trigger] es@[k]).0@ == (#[trigger] due@[a])@ by {
                    if a < before.len() {
                        assert(due@[a] == before[a]);
                        let k = choose|k: int| 0 <= k < i && (#[trigger] es@[k]).0@ == (#[trigger] before[a])@;
                    } else {
                        assert(es@[i as int].0@ == due@[a]@);
                    }
                }
                assert forall|a: int, b: int| 0 <= a < b < due@.len() implies (#[trigger] due@[a])@ != (#[trigger] due@[b])@ by {
                    if b == before.len() && due@.len() > before.len() {
                        assert(due@[a] == before[a]);
                        let k = choose|k: int| 0 <= k < i && (#[trigger] es@[k]).0@ == (#[trigger] before[a])@;
                        assert(es@[k].0@ != es@[i as int].0@);
                    } else {
                        assert(due@[a] == before[a] && due@[b] == before[b]);
                    }
                }
            }
            i = i + 1;
        }
        proof {
            assert forall|d: Seq<u8>| #[trigger] lists_digest(due@, d) <==> (self.requests.view().dom().contains(d) && self.requests.view()[d] + self.sync_retry_delay < now) by {
                if self.requests.view().dom().contains(d) {
                    let k = choose|k: int| 0 <= k < es@.len() && (#[trigger] es@[k]).0@ == d;
                    assert(self.requests.view()[es@[k].0@] == es@[k].1);
                }
                if due_among(es@, es@.len() as int, d, self.sync_retry_delay, now) {
                    let k = choose|k: int| 0 <= k < es@.len() && (#[trigger] es@[k]).0@ == d && es@[k].1 + self.sync_retry_delay < now;
                    assert(self.requests.view()[es@[k].0@] == es@[k].1);
                }
            }
        }
        due
    }

    /// The addresses of every other node, where repeated requests go.
    pub fn retry_addresses(&self) -> (a: Vec<Address>)
        ensures
            a@ == self.committee.others(self.name@).map_values(|p: (PublicKey, Address)| p.1),
    {
        self.committee.others_consensus_sockets(&self.name)
    }
}

} // verus!
