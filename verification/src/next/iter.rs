//! Key filtering by exact byte size.

use vstd::prelude::*;

use crate::core_trie::{collect_keys_model, collect_pred, vecs_view};
use crate::entries::{clone_bytes, keys_of};

verus! {

/// Keys kept by size, or all of them for the sentinel.
pub open spec fn size_pred(byte_size: nat) -> spec_fn(Seq<u8>) -> bool {
    |k: Seq<u8>| byte_size == 0x7fffffff || k.len() == byte_size
}

/// Keeps the keys with exactly `byte_size` bytes; the sentinel
/// 2 147 483 647 keeps every key.
pub fn collect_exact_size_keys(keys: &Vec<Vec<u8>>, byte_size: usize) -> (r: Vec<Vec<u8>>)
    ensures
        vecs_view(r@) == vecs_view(keys@).filter(size_pred(byte_size as nat)),
{
    let ghost kv = vecs_view(keys@);
    let ghost pred = size_pred(byte_size as nat);
    let mut out: Vec<Vec<u8>> = Vec::new();
    let mut i: usize = 0;
    while i < keys.len()
        invariant
            kv == vecs_view(keys@),
            pred == size_pred(byte_size as nat),
            i <= kv.len(),
            vecs_view(out@) == kv.take(i as int).filter(pred),
        decreases kv.len() - i,
    {
        let ghost prev = vecs_view(out@);
        proof {
            reveal(Seq::filter);
            assert(kv.take(i as int + 1).drop_last() =~= kv.take(i as int));
            assert(kv.take(i as int + 1).last() == kv[i as int]);
        }
        if byte_size == 0x7fffffff || keys[i].len() == byte_size {
            out.push(clone_bytes(&keys[i]));
            proof {
                assert(vecs_view(out@) =~= prev.push(kv[i as int]));
            }
        }
        i += 1;
        proof {
            assert(vecs_view(out@) =~= kv.take(i as int).filter(pred));
        }
    }
    proof {
        assert(kv.take(kv.len() as int) =~= kv);
    }
    out
}


/// Filtering the key list by size selects the same keys as filtering the
/// entries first.
pub proof fn lemma_size_filter_commute(kvs: Seq<(Seq<u8>, Seq<u8>)>, byte_size: nat)
    ensures
        keys_of(kvs).filter(size_pred(byte_size)) == collect_keys_model(kvs, byte_size),
    decreases kvs.len(),
{
    reveal(Seq::filter);
    let sp = size_pred(byte_size);
    let cp = collect_pred(byte_size);
    if kvs.len() == 0 {
        assert(keys_of(kvs) =~= Seq::<Seq<u8>>::empty());
        assert(kvs.filter(cp) =~= Seq::<(Seq<u8>, Seq<u8>)>::empty());
        assert(keys_of(kvs.filter(cp)) =~= Seq::<Seq<u8>>::empty());
    } else {
        let p = kvs.drop_last();
        lemma_size_filter_commute(p, byte_size);
        assert(keys_of(kvs).drop_last() =~= keys_of(p));
        assert(keys_of(kvs).last() == kvs.last().0);
        assert(sp(kvs.last().0) == cp(kvs.last()));
        if cp(kvs.last()) {
            assert(keys_of(kvs).filter(sp) == keys_of(kvs).drop_last().filter(sp).push(
                kvs.last().0,
            ));
            assert(kvs.filter(cp) == p.filter(cp).push(kvs.last()));
            assert(keys_of(p.filter(cp).push(kvs.last())) =~= keys_of(p.filter(cp)).push(
                kvs.last().0,
            ));
        } else {
            assert(keys_of(kvs).filter(sp) == keys_of(kvs).drop_last().filter(sp));
            assert(kvs.filter(cp) == p.filter(cp));
        }
    }
}

} // verus!
