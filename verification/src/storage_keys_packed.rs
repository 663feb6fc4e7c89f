//! Length-prefixed packing of a list of storage keys: a varint count, then
//! each key as a varint length followed by its bytes.

use vstd::prelude::*;

use crate::varint;

verus! {

/// The packed bytes of the values after the count prefix.
pub open spec fn packed_tail(values: Seq<Seq<u8>>) -> Seq<u8>
    decreases values.len(),
{
    if values.len() == 0 {
        Seq::<u8>::empty()
    } else {
        packed_tail(values.drop_last()) + varint::encode_spec(values.last().len() as u64)
            + values.last()
    }
}

/// The whole packed form.
pub open spec fn encode_model(values: Seq<Seq<u8>>) -> Seq<u8> {
    varint::encode_spec(values.len() as u64) + packed_tail(values)
}

pub fn encode(values: &[Vec<u8>]) -> (r: Vec<u8>)
    ensures
        r@ == encode_model(crate::core_trie::vecs_view(values@)),
{
    let ghost vv = crate::core_trie::vecs_view(values@);
    let mut output: Vec<u8> = Vec::new();
    varint::encode_into(values.len() as u64, &mut output);
    proof {
        assert(vv.take(0) =~= Seq::<Seq<u8>>::empty());
        assert(output@ =~= varint::encode_spec(values@.len() as u64) + packed_tail(vv.take(0)));
    }
    let mut i: usize = 0;
    while i < values.len()
        invariant
            vv == crate::core_trie::vecs_view(values@),
            i <= values@.len(),
            output@ == varint::encode_spec(values@.len() as u64) + packed_tail(vv.take(i as int)),
        decreases values@.len() - i,
    {
        let ghost prev = output@;
        varint::encode_into(values[i].len() as u64, &mut output);
        varint::append_bytes(&mut output, &values[i]);
        i += 1;
        proof {
            assert(vv.take(i as int).drop_last() =~= vv.take(i - 1));
            assert(vv.take(i as int).last() == vv[i - 1]);
            assert(output@ =~= varint::encode_spec(values@.len() as u64) + packed_tail(
                vv.take(i as int),
            ));
        }
    }
    proof {
        assert(vv.take(values@.len() as int) =~= vv);
    }
    output
}

} // verus!
