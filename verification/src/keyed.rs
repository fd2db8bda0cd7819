//! Keyed state: dropping old rounds from a `HashMap` keyed by round, and a small
//! map keyed by digest, kept as a list of entries with distinct digests.
use vstd::prelude::*;
use crate::crypto::Digest;
use std::collections::HashMap;
use vstd::std_specs::iter::IteratorSpec;

verus! {

broadcast use vstd::std_specs::hash::group_hash_axioms;

/// The entries of `m` for rounds after `r`.
pub open spec fn rounds_after_of<V>(m: Map<u64, V>, r: u64) -> Map<u64, V> {
    m.restrict(m.dom().filter(|k: u64| k > r))
}

/// Drops the entries of `m` for rounds up to `r`.
pub fn retain_rounds_after<V>(m: &mut HashMap<u64, V>, r: u64)
    ensures
        final(m)@ == rounds_after_of(old(m)@, r),
{
    let ghost orig = m@;
    // the rounds to drop
    let mut stale: Vec<u64> = Vec::new();
    let keys = m.keys();
    proof {
        assert(keys.remaining().unref().to_set() == orig.dom());
    }
    for k in it: keys
        invariant
            it.seq() == keys.remaining(),
            keys.remaining().unref().to_set() == orig.dom(),
            forall|i: int| 0 <= i < stale@.len() ==> #[trigger] stale@[i] <= r,
            forall|i: int|
                0 <= i < it.index() && *it.seq()[i] <= r ==> stale@.contains(*it.seq()[i]),
            forall|x: u64| stale@.contains(x) ==> orig.dom().contains(x),
    {
        let ghost before = stale@;
        proof {
            assert(*it.seq()[it.index()] == *k);
            assert(it.seq().unref()[it.index()] == *k);
            assert(it.seq().unref().to_set().contains(*k));
        }
        if *k <= r {
            stale.push(*k);
            proof {
                assert(stale@[stale@.len() - 1] == *k);
            }
        }
        proof {
            assert(orig.dom().contains(*k));
            assert forall|i: int|
                0 <= i <= it.index() && *it.seq()[i] <= r implies stale@.contains(*it.seq()[i]) by {
                if i < it.index() {
                    let j = choose|j: int| 0 <= j < before.len() && before[j] == *it.seq()[i];
                    assert(stale@[j] == before[j]);
                } else {
                    assert(stale@[stale@.len() - 1] == *it.seq()[i]);
                }
            }
            assert forall|x: u64| stale@.contains(x) implies orig.dom().contains(x) by {
                let j = choose|j: int| 0 <= j < stale@.len() && stale@[j] == x;
                if j < before.len() {
                    assert(before[j] == x);
                    assert(before.contains(x));
                } else {
                    assert(x == *k);
                }
            }
        }
    }
    let mut i: usize = 0;
    while i < stale.len()
        invariant
            i <= stale@.len(),
            forall|j: int| 0 <= j < stale@.len() ==> #[trigger] stale@[j] <= r,
            forall|x: u64| stale@.contains(x) ==> orig.dom().contains(x),
            forall|x: u64| orig.dom().contains(x) && x <= r ==> stale@.contains(x),
            forall|x: u64|
                #[trigger] m@.dom().contains(x) <==> (orig.dom().contains(x) && !stale@.take(
                    i as int,
                ).contains(x)),
            forall|x: u64| #[trigger] m@.dom().contains(x) ==> m@[x] == orig[x],
        decreases stale@.len() - i,
    {
        let k = stale[i];
        m.remove(&k);
        proof {
            let before = stale@.take(i as int);
            let after = stale@.take(i + 1);
            assert(after =~= before.push(k));
            assert forall|x: u64| after.contains(x) <==> (before.contains(x) || x == k) by {
                if after.contains(x) && x != k {
                    let j = choose|j: int| 0 <= j < after.len() && after[j] == x;
                    assert(before[j] == x);
                }
                if before.contains(x) {
                    let j = choose|j: int| 0 <= j < before.len() && before[j] == x;
                    assert(after[j] == x);
                }
                if x == k {
                    assert(after[i as int] == x);
                }
            }
        }
        i = i + 1;
    }
    proof {
        assert(stale@.take(i as int) =~= stale@);
        assert(m@ =~= rounds_after_of(orig, r)) by {
            assert forall|x: u64| m@.dom().contains(x) <==> rounds_after_of(orig, r).dom().contains(x) by {
                if orig.dom().contains(x) && x <= r {
                    assert(stale@.contains(x));
                }
                if stale@.contains(x) {
                    let j = choose|j: int| 0 <= j < stale@.len() && stale@[j] == x;
                    assert(stale@[j] <= r);
                }
            }
        }
    }
}

/// A map from digests to values. Its contents are kept as plain entries, since
/// `HashMap`'s contract in vstd covers only keys whose hashing and equality it
/// knows (integers and the like), not a digest struct.
pub struct DigestMap<V> {
    entries: Vec<(Digest, V)>,
}

/// No key occurs twice in `es`.
pub open spec fn distinct_digests<V>(es: Seq<(Digest, V)>) -> bool {
    forall|i: int, j: int| 0 <= i < j < es.len() ==> (#[trigger] es[i]).0@ != (#[trigger] es[j]).0@
}

/// The entries `es` as a map.
pub open spec fn digest_map_of<V>(es: Seq<(Digest, V)>) -> Map<Seq<u8>, V> {
    Map::new(
        |k: Seq<u8>| exists|i: int| 0 <= i < es.len() && (#[trigger] es[i]).0@ == k,
        |k: Seq<u8>| es[choose|i: int| 0 <= i < es.len() && (#[trigger] es[i]).0@ == k].1,
    )
}

proof fn lemma_digest_map_at<V>(es: Seq<(Digest, V)>, i: int)
    requires
        distinct_digests(es),
        0 <= i < es.len(),
    ensures
        digest_map_of(es).dom().contains(es[i].0@),
        digest_map_of(es)[es[i].0@] == es[i].1,
{
    let k = es[i].0@;
    assert(digest_map_of(es).dom().contains(k));
    let j = choose|j: int| 0 <= j < es.len() && (#[trigger] es[j]).0@ == k;
    if j < i {
        assert(es[j].0@ != es[i].0@);
    } else if i < j {
        assert(es[i].0@ != es[j].0@);
    }
}

impl<V> DigestMap<V> {
    pub closed spec fn view(&self) -> Map<Seq<u8>, V> {
        digest_map_of(self.entries@)
    }

    pub closed spec fn wf(&self) -> bool {
        distinct_digests(self.entries@)
    }

    pub fn new() -> (m: Self)
        ensures
            m.wf(),
            m.view() == Map::<Seq<u8>, V>::empty(),
    {
        let m = DigestMap { entries: Vec::new() };
        assert(m.view() =~= Map::<Seq<u8>, V>::empty());
        m
    }

    fn find(&self, k: &Digest) -> (p: Option<usize>)
        requires
            self.wf(),
        ensures
            p is None <==> !self.view().dom().contains(k@),
            p matches Some(i) ==> i < self.entries@.len() && self.entries@[i as int].0@ == k@,
    {
        let mut i: usize = 0;
        while i < self.entries.len()
            invariant
                i <= self.entries@.len(),
                forall|j: int| 0 <= j < i ==> (#[trigger] self.entries@[j]).0@ != k@,
            decreases self.entries@.len() - i,
        {
            if self.entries[i].0 == *k {
                return Some(i);
            }
            i = i + 1;
        }
        None
    }

    pub fn contains(&self, k: &Digest) -> (b: bool)
        requires
            self.wf(),
        ensures
            b == self.view().dom().contains(k@),
    {
        self.find(k).is_some()
    }

    pub fn get(&self, k: &Digest) -> (v: Option<&V>)
        requires
            self.wf(),
        ensures
            v is Some <==> self.view().dom().contains(k@),
            v matches Some(x) ==> *x == self.view()[k@],
    {
        match self.find(&k) {
            Some(i) => {
                proof {
                    lemma_digest_map_at(self.entries@, i as int);
                }
                Some(&self.entries[i].1)
            },
            None => None,
        }
    }

    /// Puts `v` under `k`, replacing what was there.
    pub fn insert(&mut self, k: Digest, v: V)
        requires
            old(self).wf(),
        ensures
            final(self).wf(),
            final(self).view() == old(self).view().insert(k@, v),
    {
        let ghost old_es = self.entries@;
        match self.find(&k) {
            Some(i) => {
                self.entries.set(i, (k, v));
                proof {
                    let es = self.entries@;
                    assert(es == old_es.update(i as int, (k, v)));
                    assert forall|a: int, b: int| 0 <= a < b < es.len() implies (#[trigger] es[a]).0@ != (#[trigger] es[b]).0@ by {
                        assert(es[a].0@ == old_es[a].0@ && es[b].0@ == old_es[b].0@);
                    }
                    assert forall|key: Seq<u8>| #[trigger] digest_map_of(es).dom().contains(key) <==> digest_map_of(old_es).insert(k@, v).dom().contains(key) by {
                        if digest_map_of(es).dom().contains(key) {
                            let a = choose|a: int| 0 <= a < es.len() && (#[trigger] es[a]).0@ == key;
                            assert(old_es[a].0@ == key);
                        }
                        if digest_map_of(old_es).dom().contains(key) {
                            let a = choose|a: int| 0 <= a < old_es.len() && (#[trigger] old_es[a]).0@ == key;
                            assert(es[a].0@ == key);
                        }
                    }
                    assert forall|key: Seq<u8>| #[trigger] digest_map_of(es).dom().contains(key) implies digest_map_of(es)[key] == digest_map_of(old_es).insert(k@, v)[key] by {
                        let a = choose|a: int| 0 <= a < es.len() && (#[trigger] es[a]).0@ == key;
                        lemma_digest_map_at(es, a);
                        if a != i {
                            lemma_digest_map_at(old_es, a);
                        }
                    }
                    assert(digest_map_of(es) =~= digest_map_of(old_es).insert(k@, v));
                }
            },
            None => {
                self.entries.push((k, v));
                proof {
                    let es = self.entries@;
                    assert forall|a: int, b: int| 0 <= a < b < es.len() implies (#[trigger] es[a]).0@ != (#[trigger] es[b]).0@ by {
                        if b == es.len() - 1 {
                            assert(es[a] == old_es[a]);
                        } else {
                            assert(es[a] == old_es[a] && es[b] == old_es[b]);
                        }
                    }
                    assert forall|key: Seq<u8>| #[trigger] digest_map_of(es).dom().contains(key) <==> digest_map_of(old_es).insert(k@, v).dom().contains(key) by {
                        if digest_map_of(es).dom().contains(key) {
                            let a = choose|a: int| 0 <= a < es.len() && (#[trigger] es[a]).0@ == key;
                            if a < old_es.len() {
                                assert(old_es[a].0@ == key);
                            }
                        }
                        if digest_map_of(old_es).dom().contains(key) {
                            let a = choose|a: int| 0 <= a < old_es.len() && (#[trigger] old_es[a]).0@ == key;
                            assert(es[a].0@ == key);
                        }
                        if key == k@ {
                            assert(es[es.len() - 1].0@ == key);
                        }
                    }
                    assert forall|key: Seq<u8>| #[trigger] digest_map_of(es).dom().contains(key) implies digest_map_of(es)[key] == digest_map_of(old_es).insert(k@, v)[key] by {
                        let a = choose|a: int| 0 <= a < es.len() && (#[trigger] es[a]).0@ == key;
                        lemma_digest_map_at(es, a);
                        if a < old_es.len() {
                            assert(es[a] == old_es[a]);
                            lemma_digest_map_at(old_es, a);
                        }
                    }
                    assert(digest_map_of(es) =~= digest_map_of(old_es).insert(k@, v));
                }
            },
        }
    }

    /// Takes the value under `k` out of the map.
    pub fn remove(&mut self, k: &Digest) -> (v: Option<V>)
        requires
            old(self).wf(),
        ensures
            final(self).wf(),
            final(self).view() == old(self).view().remove(k@),
            v is Some <==> old(self).view().dom().contains(k@),
            v matches Some(x) ==> x == old(self).view()[k@],
    {
        let ghost old_es = self.entries@;
        match self.find(k) {
            Some(i) => {
                proof {
                    lemma_digest_map_at(old_es, i as int);
                }
                let (_, v) = self.entries.remove(i);
                proof {
                    let es = self.entries@;
                    assert(es == old_es.remove(i as int));
                    assert forall|a: int, b: int| 0 <= a < b < es.len() implies (#[trigger] es[a]).0@ != (#[trigger] es[b]).0@ by {
                        let oa = if a < i { a } else { a + 1 };
                        let ob = if b < i { b } else { b + 1 };
                        assert(es[a] == old_es[oa] && es[b] == old_es[ob]);
                    }
                    assert forall|key: Seq<u8>| #[trigger] digest_map_of(es).dom().contains(key) <==> digest_map_of(old_es).remove(k@).dom().contains(key) by {
                        if digest_map_of(es).dom().contains(key) {
                            let a = choose|a: int| 0 <= a < es.len() && (#[trigger] es[a]).0@ == key;
                            let oa = if a < i { a } else { a + 1 };
                            assert(es[a] == old_es[oa]);
                            assert(old_es[oa].0@ != old_es[i as int].0@);
                        }
                        if digest_map_of(old_es).dom().contains(key) && key != k@ {
                            let a = choose|a: int| 0 <= a < old_es.len() && (#[trigger] old_es[a]).0@ == key;
                            let na = if a < i { a } else { a - 1 };
                            assert(es[na] == old_es[a]);
                        }
                    }
                    assert forall|key: Seq<u8>| #[trigger] digest_map_of(es).dom().contains(key) implies digest_map_of(es)[key] == digest_map_of(old_es).remove(k@)[key] by {
                        let a = choose|a: int| 0 <= a < es.len() && (#[trigger] es[a]).0@ == key;
                        let oa = if a < i { a } else { a + 1 };
                        assert(es[a] == old_es[oa]);
                        lemma_digest_map_at(es, a);
                        lemma_digest_map_at(old_es, oa);
                    }
                    assert(digest_map_of(es) =~= digest_map_of(old_es).remove(k@));
                }
                Some(v)
            },
            None => {
                assert(self.view() =~= old(self).view().remove(k@));
                None
            },
        }
    }

    /// The entries, one per key, in no particular order.
    pub fn entries(&self) -> (es: &Vec<(Digest, V)>)
        requires
            self.wf(),
        ensures
            distinct_digests(es@),
            digest_map_of(es@) == self.view(),
            forall|i: int| 0 <= i < es@.len() ==> self.view().dom().contains((#[trigger] es@[i]).0@) && self.view()[es@[i].0@] == es@[i].1,
    {
        proof {
            assert forall|i: int| 0 <= i < self.entries@.len() implies self.view().dom().contains((#[trigger] self.entries@[i]).0@) && self.view()[self.entries@[i].0@] == self.entries@[i].1 by {
                lemma_digest_map_at(self.entries@, i);
            }
        }
        &self.entries
    }
}

} // verus!
