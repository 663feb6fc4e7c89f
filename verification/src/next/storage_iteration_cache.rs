//! A bounded cache of per-account storage-key listings, keyed by account
//! address and validated against the mutation generation. An over-full
//! cache drops the account refreshed longest ago.

use vstd::prelude::*;

use crate::entries::{bytes_eq, clone_bytes};

verus! {

pub const DEFAULT_CAPACITY: usize = 256;

struct CacheEntry {
    generation: u64,
    keys: Vec<Vec<u8>>,
    packed: Vec<u8>,
}

pub struct StorageIterationCache {
    capacity: usize,
    order: Vec<Vec<u8>>,
    entries: Vec<(Vec<u8>, CacheEntry)>,
}

/// The first cached tuple carrying `addr`: its generation, keys and packed
/// bytes.
pub open spec fn first_entry(
    s: Seq<(Seq<u8>, u64, Seq<Seq<u8>>, Seq<u8>)>,
    addr: Seq<u8>,
) -> Option<(u64, Seq<Seq<u8>>, Seq<u8>)>
    decreases s.len(),
{
    if s.len() == 0 {
        None
    } else if s[0].0 == addr {
        Some((s[0].1, s[0].2, s[0].3))
    } else {
        first_entry(s.skip(1), addr)
    }
}

proof fn lemma_first_entry_skip(
    s: Seq<(Seq<u8>, u64, Seq<Seq<u8>>, Seq<u8>)>,
    addr: Seq<u8>,
    i: int,
)
    requires
        0 <= i <= s.len(),
        forall|j: int| 0 <= j < i ==> (#[trigger] s[j]).0 != addr,
    ensures
        first_entry(s, addr) == first_entry(s.skip(i), addr),
    decreases i,
{
    if i > 0 {
        assert((#[trigger] s[0]).0 != addr);
        assert forall|j: int| 0 <= j < i - 1 implies (#[trigger] s.skip(1)[j]).0 != addr by {
            assert(s.skip(1)[j] == s[j + 1]);
        };
        lemma_first_entry_skip(s.skip(1), addr, i - 1);
        assert(s.skip(1).skip(i - 1) =~= s.skip(i));
    } else {
        assert(s.skip(0) =~= s);
    }
}

/// A found tuple is one of the cached tuples.
pub proof fn lemma_first_entry_member(
    s: Seq<(Seq<u8>, u64, Seq<Seq<u8>>, Seq<u8>)>,
    addr: Seq<u8>,
)
    ensures
        first_entry(s, addr) matches Some(t) ==> exists|i: int|
            0 <= i < s.len() && #[trigger] s[i] == (addr, t.0, t.1, t.2),
    decreases s.len(),
{
    if s.len() > 0 {
        if s[0].0 == addr {
            assert(s[0] == (addr, s[0].1, s[0].2, s[0].3));
        } else {
            lemma_first_entry_member(s.skip(1), addr);
            match first_entry(s.skip(1), addr) {
                Some(t) => {
                    let i = choose|i: int|
                        0 <= i < s.skip(1).len() && #[trigger] s.skip(1)[i] == (
                            addr,
                            t.0,
                            t.1,
                            t.2,
                        );
                    assert(s[i + 1] == (addr, t.0, t.1, t.2));
                },
                None => {},
            }
        }
    }
}

/// A cached address is found.
pub proof fn lemma_first_entry_exists(
    s: Seq<(Seq<u8>, u64, Seq<Seq<u8>>, Seq<u8>)>,
    addr: Seq<u8>,
)
    ensures
        (exists|i: int| 0 <= i < s.len() && (#[trigger] s[i]).0 == addr) ==> first_entry(
            s,
            addr,
        ) is Some,
    decreases s.len(),
{
    if s.len() > 0 && (exists|i: int| 0 <= i < s.len() && (#[trigger] s[i]).0 == addr) {
        if s[0].0 != addr {
            let i = choose|i: int| 0 <= i < s.len() && (#[trigger] s[i]).0 == addr;
            assert((#[trigger] s.skip(1)[i - 1]).0 == addr);
            lemma_first_entry_exists(s.skip(1), addr);
        }
    }
}

/// Clones a list of byte vectors.
pub fn clone_vecs(v: &Vec<Vec<u8>>) -> (r: Vec<Vec<u8>>)
    ensures
        crate::core_trie::vecs_view(r@) == crate::core_trie::vecs_view(v@),
{
    let mut out: Vec<Vec<u8>> = Vec::new();
    let mut i: usize = 0;
    while i < v.len()
        invariant
            i <= v@.len(),
            out@.len() == i,
            forall|k: int| 0 <= k < i ==> (#[trigger] out@[k])@ == v@[k]@,
        decreases v@.len() - i,
    {
        out.push(clone_bytes(&v[i]));
        i += 1;
    }
    proof {
        assert(crate::core_trie::vecs_view(out@) =~= crate::core_trie::vecs_view(v@));
    }
    out
}

impl StorageIterationCache {
    /// The cached tuples: address, generation, keys, packed bytes.
    pub closed spec fn entries_view(&self) -> Seq<(Seq<u8>, u64, Seq<Seq<u8>>, Seq<u8>)> {
        Seq::new(
            self.entries@.len(),
            |i: int|
                (
                    self.entries@[i].0@,
                    self.entries@[i].1.generation,
                    crate::core_trie::vecs_view(self.entries@[i].1.keys@),
                    self.entries@[i].1.packed@,
                ),
        )
    }

    /// The accounts in eviction order, least recently refreshed first.
    pub closed spec fn eviction_order(&self) -> Seq<Seq<u8>> {
        crate::core_trie::vecs_view(self.order@)
    }

    pub closed spec fn cap(&self) -> nat {
        self.capacity as nat
    }

    /// The cached listing for an account, if any.
    pub open spec fn lookup(&self, addr: Seq<u8>) -> Option<(u64, Seq<Seq<u8>>, Seq<u8>)> {
        first_entry(self.entries_view(), addr)
    }

    /// Each account is cached at most once, the eviction order repeats no
    /// account, and an account is cached exactly when it stands in the
    /// eviction order.
    pub closed spec fn sync_wf(&self) -> bool {
        &&& forall|i: int, j: int|
            0 <= i < j < self.entries_view().len() ==> (#[trigger] self.entries_view()[i]).0 != (
            #[trigger] self.entries_view()[j]).0
        &&& forall|i: int, j: int|
            0 <= i < j < self.eviction_order().len() ==> self.eviction_order()[i]
                != self.eviction_order()[j]
        &&& forall|a: Seq<u8>|
            #[trigger] self.eviction_order().contains(a) <==> (exists|i: int|
                0 <= i < self.entries_view().len() && (#[trigger] self.entries_view()[i]).0 == a)
    }

    /// The sync conditions, and the cache never over its capacity.
    pub closed spec fn wf(&self) -> bool {
        &&& self.sync_wf()
        &&& self.entries_view().len() <= self.cap()
    }

    pub fn new(capacity: usize) -> (r: Self)
        ensures
            r.wf(),
            r.cap() == capacity,
            r.entries_view() == Seq::<(Seq<u8>, u64, Seq<Seq<u8>>, Seq<u8>)>::empty(),
    {
        let r = StorageIterationCache { capacity, order: Vec::new(), entries: Vec::new() };
        proof {
            assert(r.entries_view() =~= Seq::<(Seq<u8>, u64, Seq<Seq<u8>>, Seq<u8>)>::empty());
            assert(r.eviction_order() =~= Seq::<Seq<u8>>::empty());
            assert forall|a: Seq<u8>| #[trigger]
                r.eviction_order().contains(a) implies (exists|i: int|
                0 <= i < r.entries_view().len() && (#[trigger] r.entries_view()[i]).0 == a) by {
                let i = choose|i: int|
                    0 <= i < r.eviction_order().len() && r.eviction_order()[i] == a;
            };
        }
        r
    }

    /// The cached listing, when the account is cached at this generation.
    pub fn get_keys(&self, account_address: &[u8], generation: u64) -> (r: Option<Vec<Vec<u8>>>)
        ensures
            r is Some <==> (self.lookup(account_address@) matches Some(t) && t.0 == generation),
            r matches Some(v) ==> (self.lookup(account_address@) matches Some(t) && t.0
                == generation && t.1 == crate::core_trie::vecs_view(v@)),
    {
        let ghost ev = self.entries_view();
        let mut i: usize = 0;
        while i < self.entries.len()
            invariant
                ev == self.entries_view(),
                i <= ev.len(),
                forall|j: int| 0 <= j < i ==> (#[trigger] ev[j]).0 != account_address@,
            decreases ev.len() - i,
        {
            if bytes_eq(self.entries[i].0.as_slice(), account_address) {
                proof {
                    lemma_first_entry_skip(ev, account_address@, i as int);
                    assert(ev.skip(i as int)[0] == ev[i as int]);
                }
                if self.entries[i].1.generation == generation {
                    let out = clone_vecs(&self.entries[i].1.keys);
                    return Some(out);
                }
                return None;
            }
            i += 1;
        }
        proof {
            lemma_first_entry_skip(ev, account_address@, ev.len() as int);
            assert(ev.skip(ev.len() as int) =~= Seq::<
                (Seq<u8>, u64, Seq<Seq<u8>>, Seq<u8>),
            >::empty());
        }
        None
    }

    /// The cached packed listing, under the same condition as `get_keys`.
    pub fn get_packed(&self, account_address: &[u8], generation: u64) -> (r: Option<Vec<u8>>)
        ensures
            r is Some <==> (self.lookup(account_address@) matches Some(t) && t.0 == generation),
            r matches Some(v) ==> (self.lookup(account_address@) matches Some(t) && t.0
                == generation && t.2 == v@),
    {
        let ghost ev = self.entries_view();
        let mut i: usize = 0;
        while i < self.entries.len()
            invariant
                ev == self.entries_view(),
                i <= ev.len(),
                forall|j: int| 0 <= j < i ==> (#[trigger] ev[j]).0 != account_address@,
            decreases ev.len() - i,
        {
            if bytes_eq(self.entries[i].0.as_slice(), account_address) {
                proof {
                    lemma_first_entry_skip(ev, account_address@, i as int);
                    assert(ev.skip(i as int)[0] == ev[i as int]);
                }
                if self.entries[i].1.generation == generation {
                    let out = clone_bytes(&self.entries[i].1.packed);
                    return Some(out);
                }
                return None;
            }
            i += 1;
        }
        proof {
            lemma_first_entry_skip(ev, account_address@, ev.len() as int);
            assert(ev.skip(ev.len() as int) =~= Seq::<
                (Seq<u8>, u64, Seq<Seq<u8>>, Seq<u8>),
            >::empty());
        }
        None
    }

    /// Stores a listing and returns a copy of it. With capacity 0 nothing
    /// is stored; otherwise the listing is cached under the account
    /// (replacing any prior listing and making the account the newest in
    /// the eviction order), and the account refreshed longest ago is
    /// dropped if the cache would overflow. Every surviving tuple either
    /// was cached before or is the tuple just inserted.
    pub fn insert(
        &mut self,
        account_address: Vec<u8>,
        generation: u64,
        keys: Vec<Vec<u8>>,
        packed: Vec<u8>,
    ) -> (r: (Vec<Vec<u8>>, Vec<u8>))
        requires
            old(self).wf(),
        ensures
            final(self).wf(),
            final(self).cap() == old(self).cap(),
            crate::core_trie::vecs_view(r.0@) == crate::core_trie::vecs_view(keys@),
            r.1@ == packed@,
            old(self).cap() == 0 ==> final(self).entries_view() == old(self).entries_view(),
            old(self).cap() > 0 ==> final(self).lookup(account_address@) == Some(
                (generation, crate::core_trie::vecs_view(keys@), packed@),
            ),
            old(self).cap() > 0 ==> final(self).entries_view().len() <= old(self).cap(),
            (old(self).cap() > 0 && old(self).lookup(account_address@) is Some)
                ==> final(self).entries_view().len() == old(self).entries_view().len(),
            old(self).cap() > 0 ==> (final(self).eviction_order().len() > 0
                && final(self).eviction_order().last() == account_address@),
            (old(self).cap() > 0 && old(self).lookup(account_address@) is None
                && old(self).entries_view().len() == old(self).cap())
                ==> final(self).eviction_order() == old(self).eviction_order().skip(1).push(
                account_address@,
            ),
            forall|i: int|
                0 <= i < final(self).entries_view().len() ==> ((#[trigger] final(self).entries_view()[i])
                    == (account_address@, generation, crate::core_trie::vecs_view(keys@), packed@)
                    || (exists|j: int|
                        0 <= j < old(self).entries_view().len()
                            && old(self).entries_view()[j] == final(self).entries_view()[i])),
    {
        let out = (clone_vecs(&keys), clone_bytes(&packed));
        if self.capacity == 0 {
            return out;
        }

        self.touch(&account_address);
        let ghost mid = self.entries_view();
        proof {
            assert(mid == old(self).entries_view());
        }
        let ghost new_tuple = (
            account_address@,
            generation,
            crate::core_trie::vecs_view(keys@),
            packed@,
        );
        let ghost addr = account_address@;
        let entry = CacheEntry { generation, keys, packed };
        let mut replaced: bool = false;
        let mut i: usize = 0;
        let mut slot: usize = 0;
        while i < self.entries.len() && !replaced
            invariant
                self.entries_view() == mid,
                addr == account_address@,
                i <= mid.len(),
                !replaced ==> forall|j: int| 0 <= j < i ==> (#[trigger] mid[j]).0 != addr,
                replaced ==> slot < mid.len() && mid[slot as int].0 == addr && (forall|j: int|
                    0 <= j < slot ==> (#[trigger] mid[j]).0 != addr),
            decreases mid.len() - i + (if replaced {
                0int
            } else {
                1int
            }),
        {
            if bytes_eq(self.entries[i].0.as_slice(), account_address.as_slice()) {
                proof {
                    assert((#[trigger] mid[i as int]).0 == self.entries@[i as int].0@);
                }
                replaced = true;
                slot = i;
            } else {
                proof {
                    assert((#[trigger] mid[i as int]).0 == self.entries@[i as int].0@);
                }
                i += 1;
            }
        }
        let ghost upserted: Seq<(Seq<u8>, u64, Seq<Seq<u8>>, Seq<u8>)>;
        if replaced {
            self.entries[slot] = (account_address, entry);
            proof {
                upserted = self.entries_view();
                assert(upserted =~= mid.update(slot as int, new_tuple));
            }
        } else {
            self.entries.push((account_address, entry));
            proof {
                upserted = self.entries_view();
                assert(upserted =~= mid.push(new_tuple));
                lemma_first_entry_skip(mid, addr, mid.len() as int);
                assert(mid.skip(mid.len() as int) =~= Seq::<
                    (Seq<u8>, u64, Seq<Seq<u8>>, Seq<u8>),
                >::empty());
                assert(old(self).lookup(addr) is None);
            }
        }
        proof {
            assert(upserted.len() <= mid.len() + 1);
            assert forall|p: int, q: int|
                0 <= p < q < upserted.len() implies (#[trigger] upserted[p]).0 != (
                #[trigger] upserted[q]).0 by {
                if replaced {
                    if p != slot && q != slot {
                        assert(mid[p].0 != mid[q].0);
                    } else if p == slot {
                        assert(mid[slot as int].0 == addr);
                        assert(mid[p].0 != mid[q].0);
                    } else {
                        assert(mid[slot as int].0 == addr);
                        assert(mid[p].0 != mid[q].0);
                    }
                } else {
                    if q < mid.len() {
                        assert(mid[p].0 != mid[q].0);
                    } else {
                        assert((#[trigger] mid[p]).0 != addr);
                    }
                }
            };
            if replaced {
                assert forall|j: int| 0 <= j < slot implies (#[trigger] upserted[j]).0
                    != addr by {
                    assert(upserted[j] == mid[j]);
                };
                lemma_first_entry_skip(upserted, addr, slot as int);
            } else {
                assert forall|j: int| 0 <= j < mid.len() implies (#[trigger] upserted[j]).0
                    != addr by {
                    assert(upserted[j] == mid[j]);
                };
                lemma_first_entry_skip(upserted, addr, mid.len() as int);
            }
            assert(first_entry(upserted, addr) == Some(
                (new_tuple.1, new_tuple.2, new_tuple.3),
            )) by {
                if replaced {
                    assert(upserted.skip(slot as int)[0] == upserted[slot as int]);
                } else {
                    assert(upserted.skip(mid.len() as int)[0] == upserted[mid.len() as int]);
                }
            };
            assert forall|a: Seq<u8>| #[trigger]
                self.eviction_order().contains(a) implies (exists|i2: int|
                0 <= i2 < upserted.len() && (#[trigger] upserted[i2]).0 == a) by {
                if a == addr {
                    if replaced {
                        assert(upserted[slot as int].0 == a);
                    } else {
                        assert(upserted[mid.len() as int].0 == a);
                    }
                } else {
                    assert(exists|i2: int| 0 <= i2 < mid.len() && (#[trigger] mid[i2]).0 == a);
                    let i2 = choose|i2: int| 0 <= i2 < mid.len() && (#[trigger] mid[i2]).0 == a;
                    if replaced {
                        assert(upserted[i2].0 == a);
                    } else {
                        assert(upserted[i2].0 == a);
                    }
                }
            };
            assert forall|a: Seq<u8>|
                (exists|i2: int| 0 <= i2 < upserted.len() && (#[trigger] upserted[i2]).0 == a)
                implies #[trigger] self.eviction_order().contains(a) by {
                let i2 = choose|i2: int|
                    0 <= i2 < upserted.len() && (#[trigger] upserted[i2]).0 == a;
                if replaced {
                    if i2 == slot {
                        assert(mid[slot as int].0 == addr);
                    }
                    assert(mid[i2].0 == a);
                } else {
                    if i2 < mid.len() {
                        assert(mid[i2].0 == a);
                    }
                }
            };
        }

        proof {
            if replaced {
                assert(upserted.len() == mid.len());
                assert(mid.len() <= old(self).cap());
            } else {
                assert(old(self).lookup(addr) is None);
            }
        }
        let ghost was_replaced = replaced;
        let ghost oafter = self.eviction_order();
        let ghost overflowing = !was_replaced && mid.len() == old(self).cap();
        proof {
            assert(self.eviction_order() =~= oafter.skip(0));
        }
        while self.entries.len() > self.capacity && self.order.len() > 0
            invariant
                self.capacity == old(self).capacity,
                old(self).capacity > 0,
                was_replaced ==> self.entries_view() == upserted && self.eviction_order()
                    == oafter && upserted.len() == mid.len() && mid.len() <= old(self).cap(),
                overflowing == (!was_replaced && mid.len() == old(self).cap()),
                !was_replaced ==> upserted.len() == mid.len() + 1,
                oafter.len() >= self.eviction_order().len(),
                self.eviction_order() == oafter.skip(
                    oafter.len() - self.eviction_order().len(),
                ),
                self.entries_view().len() + oafter.len() - self.eviction_order().len()
                    == upserted.len(),
                overflowing ==> self.entries_view().len() >= old(self).cap(),
                self.sync_wf(),
                first_entry(self.entries_view(), addr) == Some(
                    (new_tuple.1, new_tuple.2, new_tuple.3),
                ),
                self.eviction_order().len() > 0 ==> self.eviction_order().last() == addr,
                self.entries_view().len() > 0,
                forall|i2: int|
                    0 <= i2 < self.entries_view().len() ==> ((#[trigger] self.entries_view()[i2])
                        == new_tuple || (exists|j: int|
                            0 <= j < mid.len() && mid[j] == self.entries_view()[i2])),
            decreases self.eviction_order().len(),
        {
            let ghost before = self.entries_view();
            let ghost border = self.eviction_order();
            proof {
                assert(self.entries_view().len() > self.capacity >= 1);
                lemma_first_entry_member(self.entries_view(), addr);
            }
            let evicted = self.order.remove(0);
            proof {
                assert(self.eviction_order() =~= border.skip(1));
                assert(border.skip(1) =~= oafter.skip(
                    oafter.len() - border.len() + 1,
                ));
                assert(border[0] == evicted@);
                assert(evicted@ != addr) by {
                    assert(border.last() == addr);
                    if border.len() == 1 {
                        assert(before.len() >= 2);
                        assert(before[0].0 != before[1].0);
                        let other: Seq<u8> = if before[0].0 == addr {
                            before[1].0
                        } else {
                            before[0].0
                        };
                        assert(other != addr);
                        if before[0].0 == addr {
                            assert((#[trigger] before[1]).0 == other);
                        } else {
                            assert((#[trigger] before[0]).0 == other);
                        }
                        assert(border.contains(other));
                        let oi = choose|oi: int|
                            0 <= oi < border.len() && border[oi] == other;
                        assert(border[oi] == border[0]);
                        assert(false);
                    } else {
                        assert(border[0] != border[border.len() - 1]);
                    }
                };
            }
            let mut e: usize = 0;
            let mut found: bool = false;
            let mut fslot: usize = 0;
            while e < self.entries.len() && !found
                invariant
                    e <= self.entries@.len(),
                    found ==> fslot < self.entries@.len() && self.entries_view()[fslot as int].0
                        == evicted@ && (forall|j: int|
                        0 <= j < fslot ==> (#[trigger] self.entries_view()[j]).0 != evicted@),
                    !found ==> forall|j: int|
                        0 <= j < e ==> (#[trigger] self.entries_view()[j]).0 != evicted@,
                    self.entries_view() == before,
                decreases self.entries@.len() - e + (if found {
                    0int
                } else {
                    1int
                }),
            {
                if bytes_eq(self.entries[e].0.as_slice(), evicted.as_slice()) {
                    found = true;
                    fslot = e;
                } else {
                    e += 1;
                }
            }
            if found {
                self.entries.remove(fslot);
                proof {
                    let after = self.entries_view();
                    assert(after =~= before.remove(fslot as int));
                    assert(forall|j: int| 0 <= j < fslot ==> #[trigger] after[j] == before[j]);
                    assert(forall|j: int|
                        fslot <= j < after.len() ==> #[trigger] after[j] == before[j + 1]);
                    assert forall|p: int, q: int|
                        0 <= p < q < after.len() implies (#[trigger] after[p]).0 != (
                        #[trigger] after[q]).0 by {
                        let pp = if p < fslot {
                            p
                        } else {
                            p + 1
                        };
                        let qq = if q < fslot {
                            q
                        } else {
                            q + 1
                        };
                        assert(before[pp].0 != before[qq].0);
                    };
                    assert forall|a: Seq<u8>| #[trigger]
                        self.eviction_order().contains(a) implies (exists|i2: int|
                        0 <= i2 < after.len() && (#[trigger] after[i2]).0 == a) by {
                        let oi = choose|oi: int|
                            0 <= oi < self.eviction_order().len() && self.eviction_order()[oi]
                                == a;
                        assert(border[oi + 1] == a);
                        assert(a != evicted@) by {
                            if a == evicted@ {
                                assert(border[0] == border[oi + 1]);
                            }
                        };
                        assert(border.contains(a));
                        let i2 = choose|i2: int|
                            0 <= i2 < before.len() && (#[trigger] before[i2]).0 == a;
                        assert(i2 != fslot);
                        if i2 < fslot {
                            assert(after[i2].0 == a);
                        } else {
                            assert(after[i2 - 1].0 == a);
                        }
                    };
                    assert forall|a: Seq<u8>|
                        (exists|i2: int| 0 <= i2 < after.len() && (#[trigger] after[i2]).0 == a)
                        implies #[trigger] self.eviction_order().contains(a) by {
                        let i2 = choose|i2: int|
                            0 <= i2 < after.len() && (#[trigger] after[i2]).0 == a;
                        let pp = if i2 < fslot {
                            i2
                        } else {
                            i2 + 1
                        };
                        assert(before[pp].0 == a);
                        assert(a != evicted@) by {
                            if pp != fslot && a == evicted@ {
                                assert(before[pp].0 != before[fslot as int].0 || pp
                                    == fslot);
                            }
                        };
                        assert(border.contains(a));
                        let oi = choose|oi: int| 0 <= oi < border.len() && border[oi] == a;
                        assert(oi != 0);
                        assert(self.eviction_order()[oi - 1] == a);
                    };
                    assert(first_entry(after, addr) == Some(
                        (new_tuple.1, new_tuple.2, new_tuple.3),
                    )) by {
                        lemma_first_entry_member(after, addr);
                        let w = choose|w: int|
                            0 <= w < before.len() && #[trigger] before[w] == (
                                addr,
                                new_tuple.1,
                                new_tuple.2,
                                new_tuple.3,
                            );
                        assert(w != fslot);
                        let w2: int = if w < fslot {
                            w
                        } else {
                            w - 1
                        };
                        assert(after[w2].0 == addr);
                        assert forall|j: int| 0 <= j < w2 implies (#[trigger] after[j]).0
                            != addr by {
                            let jj = if j < fslot {
                                j
                            } else {
                                j + 1
                            };
                            assert(before[jj].0 != before[w].0 || jj == w);
                        };
                        lemma_first_entry_skip(after, addr, w2);
                        assert(after.skip(w2)[0] == after[w2]);
                        assert(after[w2] == before[w]);
                    };
                    assert(self.entries_view().len() > 0) by {
                        let w = choose|w: int|
                            0 <= w < before.len() && #[trigger] before[w] == (
                                addr,
                                new_tuple.1,
                                new_tuple.2,
                                new_tuple.3,
                            );
                    };
                }
            } else {
                proof {
                    assert(border.contains(evicted@)) by {
                        assert(border[0] == evicted@);
                    };
                    assert(exists|i2: int|
                        0 <= i2 < before.len() && (#[trigger] before[i2]).0 == evicted@);
                    let i2 = choose|i2: int|
                        0 <= i2 < before.len() && (#[trigger] before[i2]).0 == evicted@;
                    assert((#[trigger] before[i2]).0 != evicted@);
                    assert(false);
                }
            }
        }
        proof {
            if self.entries_view().len() > self.capacity {
                assert(self.eviction_order().len() == 0);
                assert(self.entries_view().len() > 0);
                assert(self.eviction_order().contains(self.entries_view()[0].0)) by {
                    assert((#[trigger] self.entries_view()[0]).0 == self.entries_view()[0].0);
                };
                assert(false);
            }
            assert(self.eviction_order().len() > 0) by {
                assert(self.entries_view().len() > 0);
                assert(self.eviction_order().contains(self.entries_view()[0].0)) by {
                    assert((#[trigger] self.entries_view()[0]).0 == self.entries_view()[0].0);
                };
                let oi = choose|oi: int|
                    0 <= oi < self.eviction_order().len() && self.eviction_order()[oi]
                        == self.entries_view()[0].0;
            };
            if old(self).lookup(addr) is Some {
                assert(was_replaced);
                assert(self.entries_view().len() == old(self).entries_view().len());
            }
            if old(self).lookup(addr) is None && mid.len() == old(self).cap() {
                assert(!was_replaced) by {
                    if replaced {
                        lemma_first_entry_exists(mid, addr);
                    }
                };
                assert(self.entries_view().len() == old(self).cap());
                assert(oafter.len() - self.eviction_order().len() == 1);
                assert(self.eviction_order() == oafter.skip(1));
                assert(!old(self).eviction_order().contains(addr)) by {
                    if old(self).eviction_order().contains(addr) {
                        lemma_first_entry_exists(mid, addr);
                    }
                };
                assert(oafter == old(self).eviction_order().push(addr));
                assert(oafter.skip(1) =~= old(self).eviction_order().skip(1).push(addr));
            }
        }
        out
    }

    /// Forgets every cached listing.
    pub fn clear_all(&mut self)
        ensures
            final(self).wf(),
            final(self).cap() == old(self).cap(),
            final(self).entries_view() == Seq::<(Seq<u8>, u64, Seq<Seq<u8>>, Seq<u8>)>::empty(),
    {
        self.entries.clear();
        self.order.clear();
        proof {
            assert(self.entries_view() =~= Seq::<(Seq<u8>, u64, Seq<Seq<u8>>, Seq<u8>)>::empty());
            assert(self.eviction_order() =~= Seq::<Seq<u8>>::empty());
            assert forall|a: Seq<u8>| #[trigger]
                self.eviction_order().contains(a) implies (exists|i: int|
                0 <= i < self.entries_view().len() && (#[trigger] self.entries_view()[i]).0
                    == a) by {
                let i = choose|i: int|
                    0 <= i < self.eviction_order().len() && self.eviction_order()[i] == a;
            };
        }
    }

    /// Moves the account to the back of the eviction order, so that after
    /// the caller stores its entry the order and the entries agree again.
    fn touch(&mut self, account_address: &Vec<u8>)
        requires
            old(self).wf(),
        ensures
            final(self).entries_view() == old(self).entries_view(),
            final(self).capacity == old(self).capacity,
            final(self).eviction_order().len() > 0,
            final(self).eviction_order().last() == account_address@,
            forall|i: int, j: int|
                0 <= i < j < final(self).eviction_order().len() ==> final(self).eviction_order()[i]
                    != final(self).eviction_order()[j],
            forall|a: Seq<u8>|
                #[trigger] final(self).eviction_order().contains(a) <==> (a == account_address@
                    || old(self).eviction_order().contains(a)),
            !old(self).eviction_order().contains(account_address@)
                ==> final(self).eviction_order() == old(self).eviction_order().push(
                account_address@,
            ),
    {
        let ghost addr = account_address@;
        let ghost oview = self.eviction_order();
        let mut position: Option<usize> = None;
        let mut i: usize = 0;
        while i < self.order.len() && position.is_none()
            invariant
                self == old(self),
                self.eviction_order() == oview,
                addr == account_address@,
                i <= oview.len(),
                position is None ==> forall|j: int| 0 <= j < i ==> oview[j] != addr,
                position matches Some(p) ==> p < oview.len() && oview[p as int] == addr,
            decreases oview.len() - i + (if position is None {
                1int
            } else {
                0int
            }),
        {
            if bytes_eq(self.order[i].as_slice(), account_address.as_slice()) {
                proof {
                    assert(oview[i as int] == self.order@[i as int]@);
                }
                position = Some(i);
            } else {
                proof {
                    assert(oview[i as int] == self.order@[i as int]@);
                }
                i += 1;
            }
        }
        let ghost mid: Seq<Seq<u8>>;
        match position {
            Some(p) => {
                self.order.remove(p);
                proof {
                    mid = self.eviction_order();
                    assert(mid =~= oview.remove(p as int));
                    assert(forall|j: int| 0 <= j < p ==> #[trigger] mid[j] == oview[j]);
                    assert(forall|j: int|
                        p <= j < mid.len() ==> #[trigger] mid[j] == oview[j + 1]);
                    assert forall|j: int| 0 <= j < mid.len() implies (#[trigger] mid[j])
                        != addr by {
                        let jj = if j < p {
                            j
                        } else {
                            j + 1
                        };
                        assert(oview[jj] != oview[p as int] || jj == p);
                    };
                }
            },
            None => {
                proof {
                    mid = self.eviction_order();
                    assert(forall|j: int| 0 <= j < mid.len() ==> (#[trigger] mid[j]) != addr);
                }
            },
        }
        self.order.push(clone_bytes(account_address));
        proof {
            let fin = self.eviction_order();
            assert(fin =~= mid.push(addr));
            assert(fin.last() == addr);
            assert forall|p2: int, q2: int| 0 <= p2 < q2 < fin.len() implies fin[p2]
                != fin[q2] by {
                if q2 < mid.len() {
                    match position {
                        Some(p) => {
                            let pp = if p2 < p {
                                p2
                            } else {
                                p2 + 1
                            };
                            let qq = if q2 < p {
                                q2
                            } else {
                                q2 + 1
                            };
                            assert(oview[pp] != oview[qq]);
                        },
                        None => {
                            assert(oview[p2] != oview[q2]);
                        },
                    }
                } else {
                    assert(fin[q2] == addr);
                    assert(mid[p2] != addr);
                }
            };
            assert forall|a: Seq<u8>| #[trigger]
                fin.contains(a) implies (a == addr || oview.contains(a)) by {
                let j = choose|j: int| 0 <= j < fin.len() && fin[j] == a;
                if j < mid.len() {
                    match position {
                        Some(p) => {
                            let jj = if j < p {
                                j
                            } else {
                                j + 1
                            };
                            assert(oview[jj] == a);
                        },
                        None => {
                            assert(oview[j] == a);
                        },
                    }
                }
            };
            assert forall|a: Seq<u8>|
                (a == addr || oview.contains(a)) implies #[trigger] fin.contains(a) by {
                if a == addr {
                    assert(fin[fin.len() - 1] == a);
                } else {
                    let j = choose|j: int| 0 <= j < oview.len() && oview[j] == a;
                    match position {
                        Some(p) => {
                            if j == p {
                                assert(oview[j] == addr);
                            } else {
                                let jj = if j < p {
                                    j
                                } else {
                                    j - 1
                                };
                                assert(mid[jj] == a);
                                assert(fin[jj] == a);
                            }
                        },
                        None => {
                            assert(fin[j] == a);
                        },
                    }
                }
            };
        }
    }
}

} // verus!
