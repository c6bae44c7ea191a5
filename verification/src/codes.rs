//! Maps from character codes.

use std::collections::HashMap;
use vstd::prelude::*;
use vstd::std_specs::iter::IteratorSpec;

verus! {

broadcast use vstd::std_specs::hash::group_hash_axioms;

/// Whether a list holds each code of a map once, and no other.
pub open spec fn lists<V>(codes: Seq<u32>, m: Map<u32, V>) -> bool {
    &&& codes.no_duplicates()
    &&& codes.to_set() == m.dom()
}

/// The codes of a map, in no particular order.
pub(crate) fn codes_of<V>(m: &HashMap<u32, V>) -> (r: Vec<u32>)
    ensures
        lists(r@, m@),
{
    let mut out: Vec<u32> = Vec::new();
    let keys = m.keys();
    let ghost order = keys.remaining();
    for code in it: keys
        invariant
            it.seq() == order,
            out@ == order.unref().take(it.index()),
    {
        out.push(*code);
        assert(out@ =~= order.unref().take(it.index() + 1));
    }
    proof {
        assert(out@ =~= order.unref());
        assert forall|i: int, j: int| 0 <= i < out@.len() && 0 <= j < out@.len() && i
            != j implies out@[i] != out@[j] by {
            assert(order[i] != order[j]);
        }
    }
    out
}

/// Enter a value for a code that has none.
pub(crate) fn insert_absent<V>(m: &mut HashMap<u32, V>, code: u32, value: V)
    ensures
        final(m)@ == if old(m)@.dom().contains(code) {
            old(m)@
        } else {
            old(m)@.insert(code, value)
        },
{
    if !m.contains_key(&code) {
        m.insert(code, value);
    }
}

} // verus!
