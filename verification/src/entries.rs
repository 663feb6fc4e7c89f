//! The flat ordered byte-key/byte-value mapping that is the authoritative
//! state of a trie, kept as a vector sorted by strict lexicographic key
//! order. A sorted vector is a canonical representation: two maps with the
//! same contents are the same vector, which is what makes the root hash a
//! function of the contents alone.

use vstd::prelude::*;

verus! {

/// Strict lexicographic order on byte strings.
pub open spec fn lex_lt(a: Seq<u8>, b: Seq<u8>) -> bool
    decreases a.len(),
{
    if b.len() == 0 {
        false
    } else if a.len() == 0 {
        true
    } else if a[0] < b[0] {
        true
    } else if a[0] > b[0] {
        false
    } else {
        lex_lt(a.skip(1), b.skip(1))
    }
}

/// Exactly one of `a < b`, `a == b`, `b < a` holds.
pub proof fn lemma_lex_trichotomy(a: Seq<u8>, b: Seq<u8>)
    ensures
        lex_lt(a, b) || a == b || lex_lt(b, a),
        lex_lt(a, b) ==> !lex_lt(b, a),
        lex_lt(a, b) ==> a != b,
    decreases a.len(),
{
    if a.len() == 0 && b.len() == 0 {
        assert(a =~= b);
    } else if a.len() > 0 && b.len() > 0 && a[0] == b[0] {
        lemma_lex_trichotomy(a.skip(1), b.skip(1));
        if a.skip(1) == b.skip(1) {
            assert(a.len() == b.len());
            assert forall|i: int| 0 <= i < a.len() implies a[i] == b[i] by {
                if i >= 1 {
                    assert(a.skip(1)[i - 1] == a[i]);
                    assert(b.skip(1)[i - 1] == b[i]);
                }
            };
            assert(a =~= b);
        }
        if a == b {
            assert(a.skip(1) == b.skip(1));
        }
    }
}

pub proof fn lemma_lex_transitive(a: Seq<u8>, b: Seq<u8>, c: Seq<u8>)
    requires
        lex_lt(a, b),
        lex_lt(b, c),
    ensures
        lex_lt(a, c),
    decreases a.len(),
{
    if a.len() > 0 {
        if a[0] == b[0] && b[0] == c[0] {
            lemma_lex_transitive(a.skip(1), b.skip(1), c.skip(1));
        }
    }
}

/// How a shared prefix determines the order.
pub proof fn lemma_lex_from_prefix(a: Seq<u8>, b: Seq<u8>, i: int)
    requires
        0 <= i <= a.len(),
        i <= b.len(),
        forall|k: int| 0 <= k < i ==> a[k] == b[k],
    ensures
        (i < a.len() && i < b.len() && a[i] < b[i]) ==> lex_lt(a, b),
        (i == a.len() && i < b.len()) ==> lex_lt(a, b),
    decreases i,
{
    if i > 0 {
        lemma_lex_from_prefix(a.skip(1), b.skip(1), i - 1);
        assert(forall|k: int| 0 <= k < i - 1 ==> a.skip(1)[k] == b.skip(1)[k]);
    }
}

/// Three-way lexicographic comparison: -1, 0 or 1.
pub fn compare_bytes(a: &[u8], b: &[u8]) -> (r: i8)
    ensures
        -1 <= r <= 1,
        (r == -1) <==> lex_lt(a@, b@),
        (r == 0) <==> a@ == b@,
        (r == 1) <==> lex_lt(b@, a@),
{
    proof {
        lemma_lex_trichotomy(a@, b@);
    }
    let shorter = if a.len() < b.len() {
        a.len()
    } else {
        b.len()
    };
    let mut i: usize = 0;
    while i < shorter
        invariant
            shorter <= a@.len(),
            shorter <= b@.len(),
            i <= shorter,
            forall|k: int| 0 <= k < i ==> a@[k] == b@[k],
        decreases shorter - i,
    {
        if a[i] < b[i] {
            proof {
                lemma_lex_from_prefix(a@, b@, i as int);
                lemma_lex_trichotomy(a@, b@);
            }
            return -1;
        }
        if a[i] > b[i] {
            proof {
                lemma_lex_from_prefix(b@, a@, i as int);
                lemma_lex_trichotomy(a@, b@);
            }
            return 1;
        }
        i += 1;
    }
    if a.len() == b.len() {
        proof {
            assert(a@ =~= b@);
            lemma_lex_trichotomy(a@, b@);
        }
        0
    } else if a.len() < b.len() {
        proof {
            lemma_lex_from_prefix(a@, b@, shorter as int);
            lemma_lex_trichotomy(a@, b@);
        }
        -1
    } else {
        proof {
            lemma_lex_from_prefix(b@, a@, shorter as int);
            lemma_lex_trichotomy(a@, b@);
        }
        1
    }
}

pub fn bytes_eq(a: &[u8], b: &[u8]) -> (r: bool)
    ensures
        r == (a@ == b@),
{
    compare_bytes(a, b) == 0
}

pub fn bytes_starts_with(key: &[u8], prefix: &[u8]) -> (r: bool)
    ensures
        r == prefix@.is_prefix_of(key@),
{
    if key.len() < prefix.len() {
        return false;
    }
    let mut i: usize = 0;
    while i < prefix.len()
        invariant
            prefix@.len() <= key@.len(),
            i <= prefix@.len(),
            forall|k: int| 0 <= k < i ==> key@[k] == prefix@[k],
        decreases prefix@.len() - i,
    {
        if key[i] != prefix[i] {
            proof {
                assert(key@.subrange(0, prefix@.len() as int)[i as int] != prefix@[i as int]);
            }
            return false;
        }
        i += 1;
    }
    proof {
        assert(prefix@ =~= key@.subrange(0, prefix@.len() as int));
    }
    true
}

pub fn clone_bytes(v: &Vec<u8>) -> (r: Vec<u8>)
    ensures
        r@ == v@,
{
    let r = v.clone();
    proof {
        assert(r@ =~= v@);
    }
    r
}

/// Keeps the pairs whose key does not start with `p`.
pub open spec fn not_prefixed_pred(p: Seq<u8>) -> spec_fn((Seq<u8>, Seq<u8>)) -> bool {
    |e: (Seq<u8>, Seq<u8>)| !p.is_prefix_of(e.0)
}

/// The mapping restricted to keys that do not start with `p`.
pub open spec fn prefix_removed(m: Map<Seq<u8>, Seq<u8>>, p: Seq<u8>) -> Map<Seq<u8>, Seq<u8>> {
    Map::new(|k: Seq<u8>| m.contains_key(k) && !p.is_prefix_of(k), |k: Seq<u8>| m[k])
}

/// Filtering a sorted vector keeps it sorted, and every kept pair is one of
/// the original pairs.
pub proof fn lemma_filter_sorted(kvs: Seq<(Seq<u8>, Seq<u8>)>, pred: spec_fn((Seq<u8>, Seq<u8>)) -> bool)
    requires
        sorted_kvs(kvs),
    ensures
        sorted_kvs(kvs.filter(pred)),
        forall|i: int|
            0 <= i < kvs.filter(pred).len() ==> kvs.contains(#[trigger] kvs.filter(pred)[i]),
    decreases kvs.len(),
{
    reveal(Seq::filter);
    if kvs.len() > 0 {
        let prefix = kvs.drop_last();
        assert(sorted_kvs(prefix)) by {
            assert(forall|i: int, j: int|
                0 <= i < j < prefix.len() ==> lex_lt(
                    (#[trigger] prefix[i]).0,
                    (#[trigger] prefix[j]).0,
                ));
        };
        lemma_filter_sorted(prefix, pred);
        let f = prefix.filter(pred);
        let out = kvs.filter(pred);
        assert(forall|i: int| 0 <= i < prefix.len() ==> kvs.contains(#[trigger] prefix[i])) by {
            assert(forall|i: int| 0 <= i < prefix.len() ==> #[trigger] prefix[i] == kvs[i]);
        };
        assert forall|i: int| 0 <= i < out.len() implies kvs.contains(#[trigger] out[i]) by {
            if i < f.len() {
                assert(out[i] == f[i]);
                assert(prefix.contains(f[i]));
            } else {
                assert(out[i] == kvs.last());
                assert(kvs[kvs.len() - 1] == kvs.last());
            }
        };
        assert forall|p: int, q: int| 0 <= p < q < out.len() implies lex_lt(
            (#[trigger] out[p]).0,
            (#[trigger] out[q]).0,
        ) by {
            if q < f.len() {
                assert(out[p] == f[p] && out[q] == f[q]);
            } else {
                assert(out[q] == kvs.last());
                assert(out[p] == f[p]);
                assert(prefix.contains(f[p]));
                let w = choose|w: int| 0 <= w < prefix.len() && prefix[w] == f[p];
                assert(lex_lt(kvs[w].0, kvs.last().0));
            }
        };
    }
}

/// A filter that kept the whole length kept the whole vector.
pub proof fn lemma_filter_full(kvs: Seq<(Seq<u8>, Seq<u8>)>, pred: spec_fn((Seq<u8>, Seq<u8>)) -> bool)
    requires
        kvs.filter(pred).len() == kvs.len(),
    ensures
        kvs.filter(pred) == kvs,
    decreases kvs.len(),
{
    reveal(Seq::filter);
    if kvs.len() > 0 {
        let prefix = kvs.drop_last();
        prefix.lemma_filter_len(pred);
        assert(pred(kvs.last()));
        lemma_filter_full(prefix, pred);
        assert(kvs.filter(pred) =~= kvs);
    }
}

/// The views of a vector of byte-vector pairs.
pub open spec fn pairs_view(s: Seq<(Vec<u8>, Vec<u8>)>) -> Seq<(Seq<u8>, Seq<u8>)> {
    Seq::new(s.len(), |i: int| (s[i].0@, s[i].1@))
}

/// Every pair kept by a filter is one of the original pairs.
pub proof fn lemma_filter_members(s: Seq<(Seq<u8>, Seq<u8>)>, pred: spec_fn((Seq<u8>, Seq<u8>)) -> bool)
    ensures
        forall|i: int| 0 <= i < s.filter(pred).len() ==> s.contains(#[trigger] s.filter(pred)[i]),
    decreases s.len(),
{
    reveal(Seq::filter);
    if s.len() > 0 {
        let prefix = s.drop_last();
        lemma_filter_members(prefix, pred);
        let f = prefix.filter(pred);
        let out = s.filter(pred);
        assert(forall|i: int| 0 <= i < prefix.len() ==> s.contains(#[trigger] prefix[i])) by {
            assert(forall|i: int| 0 <= i < prefix.len() ==> #[trigger] prefix[i] == s[i]);
        };
        assert forall|i: int| 0 <= i < out.len() implies s.contains(#[trigger] out[i]) by {
            if i < f.len() {
                assert(out[i] == f[i]);
                assert(prefix.contains(f[i]));
            } else {
                assert(out[i] == s.last());
                assert(s[s.len() - 1] == s.last());
            }
        };
    }
}

/// The keys of an association vector, in order.
pub open spec fn keys_of(s: Seq<(Seq<u8>, Seq<u8>)>) -> Seq<Seq<u8>> {
    Seq::new(s.len(), |i: int| s[i].0)
}

/// A filter whose predicate holds everywhere keeps the whole vector.
pub proof fn lemma_filter_all(kvs: Seq<(Seq<u8>, Seq<u8>)>, pred: spec_fn((Seq<u8>, Seq<u8>)) -> bool)
    requires
        forall|i: int| 0 <= i < kvs.len() ==> pred(#[trigger] kvs[i]),
    ensures
        kvs.filter(pred) == kvs,
    decreases kvs.len(),
{
    reveal(Seq::filter);
    if kvs.len() > 0 {
        let prefix = kvs.drop_last();
        assert(forall|i: int| 0 <= i < prefix.len() ==> pred(#[trigger] prefix[i])) by {
            assert(forall|i: int| 0 <= i < prefix.len() ==> #[trigger] prefix[i] == kvs[i]);
        };
        lemma_filter_all(prefix, pred);
        assert(pred(kvs.last()));
        assert(kvs.filter(pred) =~= kvs);
    }
}

/// Keys strictly increase along the vector.
pub open spec fn sorted_kvs(kvs: Seq<(Seq<u8>, Seq<u8>)>) -> bool {
    forall|i: int, j: int|
        0 <= i < j < kvs.len() ==> lex_lt(#[trigger] kvs[i].0, #[trigger] kvs[j].0)
}

/// The mapping that an association list denotes; later pairs win.
pub open spec fn map_of(kvs: Seq<(Seq<u8>, Seq<u8>)>) -> Map<Seq<u8>, Seq<u8>>
    decreases kvs.len(),
{
    if kvs.len() == 0 {
        Map::empty()
    } else {
        map_of(kvs.drop_last()).insert(kvs.last().0, kvs.last().1)
    }
}

pub proof fn lemma_map_of_contains(kvs: Seq<(Seq<u8>, Seq<u8>)>)
    ensures
        forall|k: Seq<u8>|
            map_of(kvs).contains_key(k) <==> exists|i: int|
                0 <= i < kvs.len() && (#[trigger] kvs[i]).0 == k,
    decreases kvs.len(),
{
    if kvs.len() > 0 {
        let prefix = kvs.drop_last();
        lemma_map_of_contains(prefix);
        assert(forall|i: int| 0 <= i < prefix.len() ==> #[trigger] prefix[i] == kvs[i]);
        assert forall|k: Seq<u8>| map_of(kvs).contains_key(k) implies exists|i: int|
            0 <= i < kvs.len() && (#[trigger] kvs[i]).0 == k by {
            if k == kvs.last().0 {
                assert((#[trigger] kvs[kvs.len() - 1]).0 == k);
            } else {
                assert(map_of(prefix).contains_key(k));
                let i = choose|i: int| 0 <= i < prefix.len() && (#[trigger] prefix[i]).0 == k;
                assert((#[trigger] kvs[i]).0 == k);
            }
        };
        assert forall|k: Seq<u8>|
            (exists|i: int| 0 <= i < kvs.len() && (#[trigger] kvs[i]).0 == k) implies map_of(
            kvs,
        ).contains_key(k) by {
            let i = choose|i: int| 0 <= i < kvs.len() && (#[trigger] kvs[i]).0 == k;
            if i < kvs.len() - 1 {
                assert((#[trigger] prefix[i]).0 == k);
                assert(map_of(prefix).contains_key(k));
            }
        };
    }
}

pub proof fn lemma_map_of_index(kvs: Seq<(Seq<u8>, Seq<u8>)>)
    requires
        sorted_kvs(kvs),
    ensures
        forall|i: int|
            0 <= i < kvs.len() ==> map_of(kvs).contains_key((#[trigger] kvs[i]).0) && map_of(
                kvs,
            )[kvs[i].0] == kvs[i].1,
    decreases kvs.len(),
{
    if kvs.len() > 0 {
        let prefix = kvs.drop_last();
        assert(sorted_kvs(prefix)) by {
            assert(forall|i: int, j: int|
                0 <= i < j < prefix.len() ==> lex_lt(
                    (#[trigger] prefix[i]).0,
                    (#[trigger] prefix[j]).0,
                ));
        };
        lemma_map_of_index(prefix);
        assert forall|i: int| 0 <= i < kvs.len() implies map_of(kvs).contains_key(
            (#[trigger] kvs[i]).0,
        ) && map_of(kvs)[kvs[i].0] == kvs[i].1 by {
            if i < kvs.len() - 1 {
                assert(prefix[i] == kvs[i]);
                assert(lex_lt(kvs[i].0, kvs.last().0));
                lemma_lex_trichotomy(kvs[i].0, kvs.last().0);
            }
        };
    }
}

pub proof fn lemma_map_of_dom(kvs: Seq<(Seq<u8>, Seq<u8>)>)
    ensures
        map_of(kvs).dom().finite(),
        sorted_kvs(kvs) ==> map_of(kvs).dom().len() == kvs.len(),
    decreases kvs.len(),
{
    if kvs.len() > 0 {
        let prefix = kvs.drop_last();
        lemma_map_of_dom(prefix);
        if sorted_kvs(kvs) {
            assert(sorted_kvs(prefix)) by {
                assert(forall|i: int, j: int|
                    0 <= i < j < prefix.len() ==> lex_lt(
                        (#[trigger] prefix[i]).0,
                        (#[trigger] prefix[j]).0,
                    ));
            };
            lemma_map_of_contains(prefix);
            assert(!map_of(prefix).contains_key(kvs.last().0)) by {
                if map_of(prefix).contains_key(kvs.last().0) {
                    let i = choose|i: int|
                        0 <= i < prefix.len() && (#[trigger] prefix[i]).0 == kvs.last().0;
                    assert(lex_lt(kvs[i].0, kvs.last().0));
                    lemma_lex_trichotomy(kvs[i].0, kvs.last().0);
                }
            };
        }
    }
}

/// A characterization by membership and lookups pins `map_of` down.
pub proof fn lemma_map_of_eq(kvs: Seq<(Seq<u8>, Seq<u8>)>, m: Map<Seq<u8>, Seq<u8>>)
    requires
        sorted_kvs(kvs),
        forall|k: Seq<u8>|
            m.contains_key(k) <==> exists|i: int| 0 <= i < kvs.len() && (#[trigger] kvs[i]).0 == k,
        forall|i: int| 0 <= i < kvs.len() ==> m[(#[trigger] kvs[i]).0] == kvs[i].1,
    ensures
        map_of(kvs) == m,
{
    lemma_map_of_contains(kvs);
    lemma_map_of_index(kvs);
    assert forall|k: Seq<u8>| m.contains_key(k) implies map_of(kvs).contains_key(k) && map_of(
        kvs,
    )[k] == m[k] by {
        let i = choose|i: int| 0 <= i < kvs.len() && (#[trigger] kvs[i]).0 == k;
        assert(map_of(kvs)[kvs[i].0] == kvs[i].1);
    };
    assert(map_of(kvs) =~= m);
}

/// Two sorted association vectors denoting the same mapping are equal:
/// the representation is canonical.
pub proof fn lemma_sorted_canonical(s1: Seq<(Seq<u8>, Seq<u8>)>, s2: Seq<(Seq<u8>, Seq<u8>)>)
    requires
        sorted_kvs(s1),
        sorted_kvs(s2),
        map_of(s1) == map_of(s2),
    ensures
        s1 == s2,
    decreases s1.len(),
{
    lemma_map_of_dom(s1);
    lemma_map_of_dom(s2);
    assert(s1.len() == s2.len());
    if s1.len() == 0 {
        assert(s1 =~= s2);
    } else {
        lemma_map_of_contains(s1);
        lemma_map_of_contains(s2);
        lemma_map_of_index(s1);
        lemma_map_of_index(s2);
        let k1 = s1.last().0;
        let k2 = s2.last().0;
        assert(map_of(s2).contains_key(k1));
        assert(map_of(s1).contains_key(k2));
        if k1 != k2 {
            let i = choose|i: int| 0 <= i < s2.len() && (#[trigger] s2[i]).0 == k1;
            assert(i < s2.len() - 1);
            assert(lex_lt(k1, k2));
            let j = choose|j: int| 0 <= j < s1.len() && (#[trigger] s1[j]).0 == k2;
            assert(j < s1.len() - 1);
            assert(lex_lt(k2, k1));
            lemma_lex_trichotomy(k1, k2);
            assert(false);
        }
        assert(s1.last().1 == map_of(s1)[k1]);
        assert(s2.last().1 == map_of(s2)[k1]);
        let p1 = s1.drop_last();
        let p2 = s2.drop_last();
        assert(sorted_kvs(p1)) by {
            assert(forall|i: int, j: int|
                0 <= i < j < p1.len() ==> lex_lt((#[trigger] p1[i]).0, (#[trigger] p1[j]).0));
        };
        assert(sorted_kvs(p2)) by {
            assert(forall|i: int, j: int|
                0 <= i < j < p2.len() ==> lex_lt((#[trigger] p2[i]).0, (#[trigger] p2[j]).0));
        };
        lemma_map_of_contains(p1);
        lemma_map_of_contains(p2);
        assert(!map_of(p1).contains_key(k1)) by {
            if map_of(p1).contains_key(k1) {
                let i = choose|i: int| 0 <= i < p1.len() && (#[trigger] p1[i]).0 == k1;
                assert(lex_lt(s1[i].0, k1));
                lemma_lex_trichotomy(s1[i].0, k1);
            }
        };
        assert(!map_of(p2).contains_key(k1)) by {
            if map_of(p2).contains_key(k1) {
                let i = choose|i: int| 0 <= i < p2.len() && (#[trigger] p2[i]).0 == k1;
                assert(lex_lt(s2[i].0, k1));
                lemma_lex_trichotomy(s2[i].0, k1);
            }
        };
        assert(map_of(p1) =~= map_of(s1).remove(k1));
        assert(map_of(p2) =~= map_of(s2).remove(k1));
        lemma_sorted_canonical(p1, p2);
        assert forall|i: int| 0 <= i < s1.len() implies s1[i] == s2[i] by {
            if i < s1.len() - 1 {
                assert(p1[i] == s1[i]);
                assert(p2[i] == s2[i]);
                assert(p1[i] == p2[i]);
            } else {
                assert(s1[i] == s1.last());
                assert(s2[i] == s2.last());
                assert(s1.last().0 == s2.last().0);
                assert(s1.last().1 == s2.last().1);
            }
        };
        assert(s1 =~= s2);
    }
}

/// The ordered entries map.
pub struct EntryMap {
    items: Vec<(Vec<u8>, Vec<u8>)>,
}

impl EntryMap {
    /// The entries as a sequence of key/value pairs, in key order.
    pub closed spec fn kvs(&self) -> Seq<(Seq<u8>, Seq<u8>)> {
        Seq::new(self.items@.len(), |i: int| (self.items@[i].0@, self.items@[i].1@))
    }

    pub open spec fn wf(&self) -> bool {
        sorted_kvs(self.kvs())
    }

    /// The mapping the entries denote.
    pub open spec fn as_map(&self) -> Map<Seq<u8>, Seq<u8>> {
        map_of(self.kvs())
    }

    pub fn new() -> (r: Self)
        ensures
            r.wf(),
            r.as_map() == Map::<Seq<u8>, Seq<u8>>::empty(),
            r.kvs() == Seq::<(Seq<u8>, Seq<u8>)>::empty(),
    {
        let r = EntryMap { items: Vec::new() };
        proof {
            assert(r.kvs() =~= Seq::<(Seq<u8>, Seq<u8>)>::empty());
        }
        r
    }

    pub fn len(&self) -> (r: usize)
        ensures
            r == self.kvs().len(),
    {
        self.items.len()
    }

    pub fn is_empty(&self) -> (r: bool)
        ensures
            r == (self.kvs().len() == 0),
    {
        self.items.is_empty()
    }

    pub fn key_at(&self, i: usize) -> (r: &Vec<u8>)
        requires
            i < self.kvs().len(),
        ensures
            r@ == self.kvs()[i as int].0,
    {
        &self.items[i].0
    }

    pub fn value_at(&self, i: usize) -> (r: &Vec<u8>)
        requires
            i < self.kvs().len(),
        ensures
            r@ == self.kvs()[i as int].1,
    {
        &self.items[i].1
    }

    pub fn get(&self, key: &[u8]) -> (r: Option<&Vec<u8>>)
        requires
            self.wf(),
        ensures
            r matches Some(v) ==> self.as_map().contains_key(key@) && v@ == self.as_map()[key@],
            r is None ==> !self.as_map().contains_key(key@),
    {
        proof {
            lemma_map_of_contains(self.kvs());
            lemma_map_of_index(self.kvs());
        }
        let mut i: usize = 0;
        while i < self.items.len()
            invariant
                self.wf(),
                i <= self.kvs().len(),
                forall|k: int| 0 <= k < i ==> (#[trigger] self.kvs()[k]).0 != key@,
            decreases self.kvs().len() - i,
        {
            if bytes_eq(self.items[i].0.as_slice(), key) {
                proof {
                    lemma_map_of_contains(self.kvs());
                    lemma_map_of_index(self.kvs());
                    assert((#[trigger] self.kvs()[i as int]).0 == key@);
                }
                return Some(&self.items[i].1);
            }
            i += 1;
        }
        proof {
            lemma_map_of_contains(self.kvs());
        }
        None
    }

    pub fn contains_key(&self, key: &[u8]) -> (r: bool)
        requires
            self.wf(),
        ensures
            r == self.as_map().contains_key(key@),
    {
        match self.get(key) {
            Some(_) => true,
            None => false,
        }
    }

    /// Inserts or replaces; keeps the vector sorted.
    pub fn insert(&mut self, key: Vec<u8>, value: Vec<u8>)
        requires
            old(self).wf(),
        ensures
            final(self).wf(),
            final(self).as_map() == old(self).as_map().insert(key@, value@),
    {
        let ghost old_kvs = self.kvs();
        proof {
            lemma_map_of_contains(old_kvs);
            lemma_map_of_index(old_kvs);
        }
        let mut i: usize = 0;
        let mut state: u8 = 0;
        while state == 0 && i < self.items.len()
            invariant
                old(self).wf(),
                self.wf(),
                self.kvs() == old_kvs,
                i <= old_kvs.len(),
                forall|k: int| 0 <= k < i ==> lex_lt((#[trigger] old_kvs[k]).0, key@),
                state == 1 ==> i < old_kvs.len() && old_kvs[i as int].0 == key@,
                state == 2 ==> i < old_kvs.len() && lex_lt(key@, old_kvs[i as int].0),
                state <= 2,
            decreases old_kvs.len() - i + if state == 0 { 1int } else { 0int },
        {
            let c = compare_bytes(self.items[i].0.as_slice(), key.as_slice());
            if c == 0 {
                state = 1;
            } else if c == 1 {
                state = 2;
            } else {
                i += 1;
            }
        }
        let ghost gi = i as int;
        let ghost target = map_of(old_kvs).insert(key@, value@);
        if state == 1 {
            self.items[i] = (key, value);
            proof {
                let new_kvs = self.kvs();
                assert(old_kvs[gi].0 == key@);
                assert(new_kvs.len() == old_kvs.len());
                assert(forall|j: int|
                    0 <= j < new_kvs.len() && j != gi ==> #[trigger] new_kvs[j] == old_kvs[j]);
                assert(new_kvs[gi].0 == key@ && new_kvs[gi].1 == value@);
                assert forall|p: int, q: int| 0 <= p < q < new_kvs.len() implies lex_lt(
                    (#[trigger] new_kvs[p]).0,
                    (#[trigger] new_kvs[q]).0,
                ) by {
                    assert(lex_lt(old_kvs[p].0, old_kvs[q].0));
                    assert(new_kvs[p].0 == old_kvs[p].0);
                    assert(new_kvs[q].0 == old_kvs[q].0);
                };
                assert forall|k: Seq<u8>|
                    target.contains_key(k) <==> exists|j: int|
                        0 <= j < new_kvs.len() && (#[trigger] new_kvs[j]).0 == k by {
                    if target.contains_key(k) {
                        if k == key@ {
                            assert((#[trigger] new_kvs[gi]).0 == k);
                        } else {
                            let j = choose|j: int|
                                0 <= j < old_kvs.len() && (#[trigger] old_kvs[j]).0 == k;
                            assert(j != gi);
                            assert((#[trigger] new_kvs[j]).0 == k);
                        }
                    }
                    if exists|j: int| 0 <= j < new_kvs.len() && (#[trigger] new_kvs[j]).0 == k {
                        let j = choose|j: int|
                            0 <= j < new_kvs.len() && (#[trigger] new_kvs[j]).0 == k;
                        if j != gi {
                            assert((#[trigger] old_kvs[j]).0 == k);
                        }
                    }
                };
                assert forall|j: int| 0 <= j < new_kvs.len() implies target[(
                #[trigger] new_kvs[j]).0] == new_kvs[j].1 by {
                    if j != gi {
                        assert(new_kvs[j] == old_kvs[j]);
                        if j < gi {
                            assert(lex_lt(old_kvs[j].0, old_kvs[gi].0));
                        } else {
                            assert(lex_lt(old_kvs[gi].0, old_kvs[j].0));
                        }
                        lemma_lex_trichotomy(old_kvs[j].0, old_kvs[gi].0);
                        assert(old_kvs[j].0 != key@);
                        assert(target[old_kvs[j].0] == map_of(old_kvs)[old_kvs[j].0]);
                    }
                };
                lemma_map_of_eq(new_kvs, target);
            }
        } else {
            proof {
                assert(state == 0 ==> gi == old_kvs.len());
                assert forall|j: int| gi <= j < old_kvs.len() implies lex_lt(
                    key@,
                    (#[trigger] old_kvs[j]).0,
                ) by {
                    assert(lex_lt(key@, old_kvs[gi].0));
                    if j > gi {
                        assert(lex_lt(old_kvs[gi].0, old_kvs[j].0));
                        lemma_lex_transitive(key@, old_kvs[gi].0, old_kvs[j].0);
                    }
                };
                assert forall|j: int| 0 <= j < old_kvs.len() implies (#[trigger] old_kvs[j]).0
                    != key@ by {
                    if j < gi {
                        lemma_lex_trichotomy(old_kvs[j].0, key@);
                    } else {
                        lemma_lex_trichotomy(key@, old_kvs[j].0);
                    }
                };
            }
            self.items.insert(i, (key, value));
            proof {
                let new_kvs = self.kvs();
                assert(new_kvs.len() == old_kvs.len() + 1);
                assert(forall|j: int| 0 <= j < gi ==> #[trigger] new_kvs[j] == old_kvs[j]);
                assert(new_kvs[gi].0 == key@ && new_kvs[gi].1 == value@);
                assert(forall|j: int|
                    gi < j < new_kvs.len() ==> #[trigger] new_kvs[j] == old_kvs[j - 1]);
                assert forall|p: int, q: int| 0 <= p < q < new_kvs.len() implies lex_lt(
                    (#[trigger] new_kvs[p]).0,
                    (#[trigger] new_kvs[q]).0,
                ) by {
                    if q < gi {
                        assert(lex_lt(old_kvs[p].0, old_kvs[q].0));
                    } else if q == gi {
                        assert(lex_lt(old_kvs[p].0, key@));
                    } else if p < gi {
                        assert(lex_lt(old_kvs[p].0, key@));
                        assert(lex_lt(key@, old_kvs[q - 1].0));
                        lemma_lex_transitive(old_kvs[p].0, key@, old_kvs[q - 1].0);
                    } else if p == gi {
                        assert(lex_lt(key@, old_kvs[q - 1].0));
                    } else {
                        assert(lex_lt(old_kvs[p - 1].0, old_kvs[q - 1].0));
                    }
                };
                assert forall|k: Seq<u8>|
                    target.contains_key(k) <==> exists|j: int|
                        0 <= j < new_kvs.len() && (#[trigger] new_kvs[j]).0 == k by {
                    if target.contains_key(k) {
                        if k == key@ {
                            assert((#[trigger] new_kvs[gi]).0 == k);
                        } else {
                            let j = choose|j: int|
                                0 <= j < old_kvs.len() && (#[trigger] old_kvs[j]).0 == k;
                            if j < gi {
                                assert((#[trigger] new_kvs[j]).0 == k);
                            } else {
                                assert((#[trigger] new_kvs[j + 1]).0 == k);
                            }
                        }
                    }
                    if exists|j: int| 0 <= j < new_kvs.len() && (#[trigger] new_kvs[j]).0 == k {
                        let j = choose|j: int|
                            0 <= j < new_kvs.len() && (#[trigger] new_kvs[j]).0 == k;
                        if j < gi {
                            assert((#[trigger] old_kvs[j]).0 == k);
                        } else if j > gi {
                            assert((#[trigger] old_kvs[j - 1]).0 == k);
                        }
                    }
                };
                assert forall|j: int| 0 <= j < new_kvs.len() implies target[(
                #[trigger] new_kvs[j]).0] == new_kvs[j].1 by {
                    if j != gi {
                        let jj = if j < gi {
                            j
                        } else {
                            j - 1
                        };
                        assert(new_kvs[j] == old_kvs[jj]);
                        assert(old_kvs[jj].0 != key@);
                        assert(target[old_kvs[jj].0] == map_of(old_kvs)[old_kvs[jj].0]);
                    }
                };
                lemma_map_of_eq(new_kvs, target);
            }
        }
    }

    /// Removes a key; reports whether it was present.
    pub fn remove(&mut self, key: &[u8]) -> (r: bool)
        requires
            old(self).wf(),
        ensures
            final(self).wf(),
            final(self).as_map() == old(self).as_map().remove(key@),
            r == old(self).as_map().contains_key(key@),
    {
        let ghost old_kvs = self.kvs();
        proof {
            lemma_map_of_contains(old_kvs);
            lemma_map_of_index(old_kvs);
        }
        let mut i: usize = 0;
        while i < self.items.len()
            invariant
                old(self).wf(),
                old(self).kvs() == old_kvs,
                self.wf(),
                self.kvs() == old_kvs,
                i <= old_kvs.len(),
                forall|k: int| 0 <= k < i ==> (#[trigger] old_kvs[k]).0 != key@,
            decreases old_kvs.len() - i,
        {
            if bytes_eq(self.items[i].0.as_slice(), key) {
                let ghost gi = i as int;
                let ghost target = map_of(old_kvs).remove(key@);
                self.items.remove(i);
                proof {
                    lemma_map_of_contains(old_kvs);
                    lemma_map_of_index(old_kvs);
                    let new_kvs = self.kvs();
                    assert(old_kvs[gi].0 == key@);
                    assert(new_kvs.len() == old_kvs.len() - 1);
                    assert(forall|j: int| 0 <= j < gi ==> #[trigger] new_kvs[j] == old_kvs[j]);
                    assert(forall|j: int|
                        gi <= j < new_kvs.len() ==> #[trigger] new_kvs[j] == old_kvs[j + 1]);
                    assert forall|j: int| 0 <= j < old_kvs.len() && j != gi implies (
                    #[trigger] old_kvs[j]).0 != key@ by {
                        if j < gi {
                            assert(lex_lt(old_kvs[j].0, old_kvs[gi].0));
                        } else {
                            assert(lex_lt(old_kvs[gi].0, old_kvs[j].0));
                        }
                        lemma_lex_trichotomy(old_kvs[j].0, old_kvs[gi].0);
                    };
                    assert forall|p: int, q: int| 0 <= p < q < new_kvs.len() implies lex_lt(
                        (#[trigger] new_kvs[p]).0,
                        (#[trigger] new_kvs[q]).0,
                    ) by {
                        if q < gi {
                            assert(lex_lt(old_kvs[p].0, old_kvs[q].0));
                        } else if p < gi {
                            assert(lex_lt(old_kvs[p].0, old_kvs[q + 1].0));
                        } else {
                            assert(lex_lt(old_kvs[p + 1].0, old_kvs[q + 1].0));
                        }
                    };
                    assert forall|k: Seq<u8>|
                        target.contains_key(k) <==> exists|j: int|
                            0 <= j < new_kvs.len() && (#[trigger] new_kvs[j]).0 == k by {
                        if target.contains_key(k) {
                            let j = choose|j: int|
                                0 <= j < old_kvs.len() && (#[trigger] old_kvs[j]).0 == k;
                            assert(j != gi);
                            if j < gi {
                                assert((#[trigger] new_kvs[j]).0 == k);
                            } else {
                                assert((#[trigger] new_kvs[j - 1]).0 == k);
                            }
                        }
                        if exists|j: int| 0 <= j < new_kvs.len() && (#[trigger] new_kvs[j]).0
                            == k {
                            let j = choose|j: int|
                                0 <= j < new_kvs.len() && (#[trigger] new_kvs[j]).0 == k;
                            let jj = if j < gi {
                                j
                            } else {
                                j + 1
                            };
                            assert((#[trigger] old_kvs[jj]).0 == k);
                            assert(k != key@);
                        }
                    };
                    assert forall|j: int| 0 <= j < new_kvs.len() implies target[(
                    #[trigger] new_kvs[j]).0] == new_kvs[j].1 by {
                        let jj = if j < gi {
                            j
                        } else {
                            j + 1
                        };
                        assert(new_kvs[j] == old_kvs[jj]);
                        assert(old_kvs[jj].0 != key@);
                        assert(target[old_kvs[jj].0] == map_of(old_kvs)[old_kvs[jj].0]);
                    };
                    lemma_map_of_eq(new_kvs, target);
                }
                return true;
            }
            i += 1;
        }
        proof {
            assert(!map_of(old_kvs).contains_key(key@));
            assert(map_of(old_kvs).remove(key@) =~= map_of(old_kvs));
        }
        false
    }


    /// Removes every key that starts with `prefix`; reports whether any
    /// key was removed. The empty prefix clears the map.
    pub fn remove_prefixed(&mut self, prefix: &[u8]) -> (r: bool)
        requires
            old(self).wf(),
        ensures
            final(self).wf(),
            final(self).kvs() == old(self).kvs().filter(not_prefixed_pred(prefix@)),
            final(self).as_map() == prefix_removed(old(self).as_map(), prefix@),
            r == (final(self).kvs().len() != old(self).kvs().len()),
            !r ==> final(self).kvs() == old(self).kvs(),
    {
        let ghost old_kvs = self.kvs();
        let ghost pred = not_prefixed_pred(prefix@);
        let old_len = self.items.len();
        let mut kept: Vec<(Vec<u8>, Vec<u8>)> = Vec::new();
        let mut j: usize = 0;
        while j < self.items.len()
            invariant
                old(self).wf(),
                old(self).kvs() == old_kvs,
                self.kvs() == old_kvs,
                pred == not_prefixed_pred(prefix@),
                j <= old_kvs.len(),
                Seq::new(kept@.len(), |i: int| (kept@[i].0@, kept@[i].1@)) == old_kvs.take(
                    j as int,
                ).filter(pred),
            decreases old_kvs.len() - j,
        {
            let ghost kept_kvs = Seq::new(kept@.len(), |i: int| (kept@[i].0@, kept@[i].1@));
            proof {
                reveal(Seq::filter);
                assert(old_kvs.take(j as int + 1).drop_last() =~= old_kvs.take(j as int));
                assert(old_kvs.take(j as int + 1).last() == old_kvs[j as int]);
            }
            if !bytes_starts_with(self.items[j].0.as_slice(), prefix) {
                let pair = (clone_bytes(&self.items[j].0), clone_bytes(&self.items[j].1));
                kept.push(pair);
                proof {
                    assert(Seq::new(kept@.len(), |i: int| (kept@[i].0@, kept@[i].1@)) =~= kept_kvs.push(
                        old_kvs[j as int],
                    ));
                }
            }
            j += 1;
            proof {
                assert(Seq::new(kept@.len(), |i: int| (kept@[i].0@, kept@[i].1@)) =~= old_kvs.take(
                    j as int,
                ).filter(pred));
            }
        }
        proof {
            assert(old_kvs.take(old_kvs.len() as int) =~= old_kvs);
        }
        self.items = kept;
        let new_len = self.items.len();
        proof {
            let new_kvs = self.kvs();
            let m = map_of(old_kvs);
            let target = prefix_removed(m, prefix@);
            lemma_map_of_contains(old_kvs);
            lemma_map_of_index(old_kvs);
            lemma_filter_sorted(old_kvs, pred);
            assert forall|k: Seq<u8>|
                target.contains_key(k) <==> exists|i: int|
                    0 <= i < new_kvs.len() && (#[trigger] new_kvs[i]).0 == k by {
                if target.contains_key(k) {
                    let j2 = choose|j2: int|
                        0 <= j2 < old_kvs.len() && (#[trigger] old_kvs[j2]).0 == k;
                    assert(pred(old_kvs[j2]));
                    old_kvs.lemma_filter_contains(pred, j2);
                    assert(new_kvs.contains(old_kvs[j2]));
                    let i = choose|i: int| 0 <= i < new_kvs.len() && new_kvs[i] == old_kvs[j2];
                    assert((#[trigger] new_kvs[i]).0 == k);
                }
                if exists|i: int| 0 <= i < new_kvs.len() && (#[trigger] new_kvs[i]).0 == k {
                    let i = choose|i: int| 0 <= i < new_kvs.len() && (#[trigger] new_kvs[i]).0 == k;
                    assert(old_kvs.contains(new_kvs[i]));
                    let j2 = choose|j2: int| 0 <= j2 < old_kvs.len() && old_kvs[j2] == new_kvs[i];
                    assert((#[trigger] old_kvs[j2]).0 == k);
                    old_kvs.lemma_filter_pred(pred, i);
                }
            };
            assert forall|i: int| 0 <= i < new_kvs.len() implies target[(
            #[trigger] new_kvs[i]).0] == new_kvs[i].1 by {
                assert(old_kvs.contains(new_kvs[i]));
                let j2 = choose|j2: int| 0 <= j2 < old_kvs.len() && old_kvs[j2] == new_kvs[i];
                assert(m[old_kvs[j2].0] == old_kvs[j2].1);
                old_kvs.lemma_filter_pred(pred, i);
            };
            lemma_map_of_eq(new_kvs, target);
            if new_kvs.len() == old_kvs.len() {
                lemma_filter_full(old_kvs, pred);
            }
        }
        new_len != old_len
    }

    pub fn clear(&mut self)
        ensures
            final(self).wf(),
            final(self).as_map() == Map::<Seq<u8>, Seq<u8>>::empty(),
            final(self).kvs() == Seq::<(Seq<u8>, Seq<u8>)>::empty(),
    {
        self.items.clear();
        proof {
            assert(self.kvs() =~= Seq::<(Seq<u8>, Seq<u8>)>::empty());
        }
    }
}

} // verus!
