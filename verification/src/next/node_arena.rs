//! Tracking of dirty keys between saves: every key is assigned a stable
//! node id on first sight, and the ids marked since the last save are kept
//! without duplicates.

use vstd::prelude::*;

use crate::entries::bytes_eq;

verus! {

#[derive(Debug, Clone, Copy, PartialEq, Eq, Structural)]
pub struct NodeId(u64);

impl NodeId {
    pub closed spec fn value(&self) -> u64 {
        self.0
    }
}

pub struct NodeArena {
    next_id: u64,
    key_to_node: Vec<(Vec<u8>, u64)>,
    dirty_nodes: Vec<u64>,
}

/// The id of the first pair carrying `k`, if any.
pub open spec fn key_id_seq(s: Seq<(Seq<u8>, u64)>, k: Seq<u8>) -> Option<u64>
    decreases s.len(),
{
    if s.len() == 0 {
        None
    } else if s[0].0 == k {
        Some(s[0].1)
    } else {
        key_id_seq(s.skip(1), k)
    }
}

proof fn lemma_key_id_skip(s: Seq<(Seq<u8>, u64)>, k: Seq<u8>, i: int)
    requires
        0 <= i <= s.len(),
        forall|j: int| 0 <= j < i ==> (#[trigger] s[j]).0 != k,
    ensures
        key_id_seq(s, k) == key_id_seq(s.skip(i), k),
    decreases i,
{
    if i > 0 {
        assert((#[trigger] s[0]).0 != k);
        assert forall|j: int| 0 <= j < i - 1 implies (#[trigger] s.skip(1)[j]).0 != k by {
            assert(s.skip(1)[j] == s[j + 1]);
        };
        lemma_key_id_skip(s.skip(1), k, i - 1);
        assert(s.skip(1).skip(i - 1) =~= s.skip(i));
    } else {
        assert(s.skip(0) =~= s);
    }
}

proof fn lemma_key_id_push(s: Seq<(Seq<u8>, u64)>, e: (Seq<u8>, u64), k: Seq<u8>)
    ensures
        key_id_seq(s.push(e), k) == (match key_id_seq(s, k) {
            Some(id) => Some(id),
            None => if e.0 == k {
                Some(e.1)
            } else {
                None
            },
        }),
    decreases s.len(),
{
    if s.len() == 0 {
        assert(s.push(e)[0] == e);
        assert(s.push(e).skip(1) =~= Seq::<(Seq<u8>, u64)>::empty());
        assert(key_id_seq(s, k) is None);
        assert(key_id_seq(s.push(e).skip(1), k) is None);
    } else {
        assert(s.push(e)[0] == s[0]);
        lemma_key_id_push(s.skip(1), e, k);
        assert(s.push(e).skip(1) =~= s.skip(1).push(e));
        if s[0].0 == k {
            assert(key_id_seq(s.push(e), k) == Some(s[0].1));
            assert(key_id_seq(s, k) == Some(s[0].1));
        } else {
            assert(key_id_seq(s, k) == key_id_seq(s.skip(1), k));
            assert(key_id_seq(s.push(e), k) == key_id_seq(s.push(e).skip(1), k));
            assert(key_id_seq(s.push(e).skip(1), k) == key_id_seq(s.skip(1).push(e), k));
        }
    }
}

impl NodeArena {
    /// The key/id assignments, in order of first sight.
    pub closed spec fn assigned(&self) -> Seq<(Seq<u8>, u64)> {
        Seq::new(self.key_to_node@.len(), |i: int| (self.key_to_node@[i].0@, self.key_to_node@[i].1))
    }

    /// The id assigned to `k`, if the key has been seen.
    pub open spec fn key_id(&self, k: Seq<u8>) -> Option<u64> {
        key_id_seq(self.assigned(), k)
    }

    /// The ids marked dirty since the last save, without duplicates.
    pub closed spec fn dirty_ids(&self) -> Seq<u64> {
        self.dirty_nodes@
    }

    /// How many distinct keys are marked dirty.
    pub open spec fn dirty_len(&self) -> nat {
        self.dirty_ids().len()
    }

    /// Keys are assigned at most once; ids are the assignment positions,
    /// so equal keys share an id and distinct keys never do; the dirty
    /// list holds assigned ids without repetition.
    pub closed spec fn wf(&self) -> bool {
        &&& forall|i: int|
            0 <= i < self.assigned().len() ==> (#[trigger] self.assigned()[i]).1 == i
        &&& forall|i: int, j: int|
            0 <= i < j < self.assigned().len() ==> (#[trigger] self.assigned()[i]).0 != (
            #[trigger] self.assigned()[j]).0
        &&& forall|i: int, j: int|
            0 <= i < j < self.dirty_ids().len() ==> self.dirty_ids()[i] != self.dirty_ids()[j]
        &&& forall|i: int|
            0 <= i < self.dirty_ids().len() ==> (#[trigger] self.dirty_ids()[i]) < self.assigned().len()
    }

    pub fn new() -> (r: Self)
        ensures
            r.wf(),
            r.dirty_len() == 0,
            r.assigned() == Seq::<(Seq<u8>, u64)>::empty(),
    {
        let r = NodeArena { next_id: 0, key_to_node: Vec::new(), dirty_nodes: Vec::new() };
        proof {
            assert(r.assigned() =~= Seq::<(Seq<u8>, u64)>::empty());
        }
        r
    }

    /// Marks the key's node dirty, assigning an id to a key seen for the
    /// first time. Marking an already dirty key changes nothing.
    pub fn mark_dirty_key(&mut self, key: &[u8])
        requires
            old(self).wf(),
        ensures
            final(self).wf(),
            final(self).key_id(key@) is Some,
            forall|k: Seq<u8>|
                (#[trigger] old(self).key_id(k)) is Some ==> final(self).key_id(k) == old(
                    self,
                ).key_id(k),
            final(self).dirty_ids() == (if old(self).dirty_ids().contains(
                final(self).key_id(key@).unwrap(),
            ) {
                old(self).dirty_ids()
            } else {
                old(self).dirty_ids().push(final(self).key_id(key@).unwrap())
            }),
            final(self).dirty_len() >= 1,
            final(self).dirty_len() >= old(self).dirty_len(),
    {
        let ghost old_assigned = self.assigned();
        let mut node_id: Option<u64> = None;
        let mut i: usize = 0;
        while i < self.key_to_node.len() && node_id.is_none()
            invariant
                self == old(self),
                self.wf(),
                self.assigned() == old_assigned,
                i <= old_assigned.len(),
                node_id is None ==> forall|j: int|
                    0 <= j < i ==> (#[trigger] old_assigned[j]).0 != key@,
                node_id matches Some(id) ==> key_id_seq(old_assigned, key@) == Some(id) && id
                    < old_assigned.len(),
            decreases old_assigned.len() - i + (if node_id is None {
                1int
            } else {
                0int
            }),
        {
            if bytes_eq(self.key_to_node[i].0.as_slice(), key) {
                proof {
                    lemma_key_id_skip(old_assigned, key@, i as int);
                    assert(old_assigned.skip(i as int)[0] == old_assigned[i as int]);
                    assert((#[trigger] self.assigned()[i as int]).1 == i as int);
                }
                node_id = Some(self.key_to_node[i].1);
            } else {
                i += 1;
            }
        }
        let ghost found = node_id is Some;
        let id = match node_id {
            Some(id) => id,
            None => {
                proof {
                    lemma_key_id_skip(old_assigned, key@, old_assigned.len() as int);
                    assert(old_assigned.skip(old_assigned.len() as int) =~= Seq::<
                        (Seq<u8>, u64),
                    >::empty());
                }
                let current = self.key_to_node.len() as u64;
                self.next_id = self.next_id.saturating_add(1);
                let pair = (vstd::slice::slice_to_vec(key), current);
                self.key_to_node.push(pair);
                proof {
                    assert(self.assigned() =~= old_assigned.push((key@, current)));
                    lemma_key_id_push(old_assigned, (key@, current), key@);
                    assert forall|k: Seq<u8>| (#[trigger] old(self).key_id(k)) is Some
                        implies key_id_seq(self.assigned(), k) == old(self).key_id(k) by {
                        lemma_key_id_push(old_assigned, (key@, current), k);
                    };
                }
                current
            },
        };
        proof {
            assert(self.key_id(key@) == Some(id));
            assert(id < self.assigned().len());
            if found {
                assert(self.assigned() == old_assigned);
            } else {
                assert(self.assigned() =~= old_assigned.push((key@, id)));
                assert forall|p: int, q: int|
                    0 <= p < q < self.assigned().len() implies (#[trigger] self.assigned()[p]).0
                    != (#[trigger] self.assigned()[q]).0 by {
                    if q < old_assigned.len() {
                        assert(old_assigned[p].0 != old_assigned[q].0);
                    } else {
                        assert(self.assigned()[q].0 == key@);
                        assert((#[trigger] old_assigned[p]).0 != key@);
                    }
                };
                assert forall|p: int|
                    0 <= p < self.assigned().len() implies (#[trigger] self.assigned()[p]).1
                    == p by {
                    if p < old_assigned.len() {
                        assert(old_assigned[p].1 == p);
                    }
                };
            }
        }
        let ghost mid_dirty = self.dirty_nodes@;
        let mut already: bool = false;
        let mut j: usize = 0;
        while j < self.dirty_nodes.len() && !already
            invariant
                self.dirty_nodes@ == mid_dirty,
                j <= mid_dirty.len(),
                !already ==> forall|m: int| 0 <= m < j ==> mid_dirty[m] != id,
                already ==> mid_dirty.contains(id),
            decreases mid_dirty.len() - j + (if already {
                0int
            } else {
                1int
            }),
        {
            if self.dirty_nodes[j] == id {
                proof {
                    assert(mid_dirty[j as int] == id);
                }
                already = true;
            } else {
                j += 1;
            }
        }
        if !already {
            proof {
                assert(!mid_dirty.contains(id)) by {
                    if mid_dirty.contains(id) {
                        let m = choose|m: int| 0 <= m < mid_dirty.len() && mid_dirty[m] == id;
                    }
                };
            }
            self.dirty_nodes.push(id);
            proof {
                assert(mid_dirty == old(self).dirty_ids());
                assert forall|p: int, q: int|
                    0 <= p < q < self.dirty_ids().len() implies self.dirty_ids()[p]
                    != self.dirty_ids()[q] by {
                    if q < mid_dirty.len() {
                        assert(old(self).dirty_ids()[p] != old(self).dirty_ids()[q]);
                    } else {
                        assert(self.dirty_ids()[q] == id);
                        assert(mid_dirty[p] != id);
                    }
                };
            }
        }
        proof {
            if already {
                assert(self.dirty_ids() == old(self).dirty_ids());
                assert forall|p: int, q: int|
                    0 <= p < q < self.dirty_ids().len() implies self.dirty_ids()[p]
                    != self.dirty_ids()[q] by {
                    assert(old(self).dirty_ids()[p] != old(self).dirty_ids()[q]);
                };
            }
            assert forall|p: int|
                0 <= p < self.dirty_ids().len() implies (#[trigger] self.dirty_ids()[p])
                < self.assigned().len() by {
                if p < mid_dirty.len() {
                    assert(old(self).dirty_ids()[p] < old_assigned.len());
                }
            };
        }
    }

    pub fn dirty_count(&self) -> (r: usize)
        ensures
            r == self.dirty_len(),
    {
        self.dirty_nodes.len()
    }

    /// Forgets the dirty marks; the key/id assignments stay.
    pub fn clear_dirty(&mut self)
        requires
            old(self).wf(),
        ensures
            final(self).wf(),
            final(self).dirty_len() == 0,
            final(self).assigned() == old(self).assigned(),
    {
        self.dirty_nodes.clear();
        proof {
            assert(final(self).assigned() =~= old(self).assigned());
        }
    }
}

} // verus!
