//! Lookup by key in a sequence of entries: the last entry whose key matches.
use vstd::prelude::*;

verus! {

/// The index of the last occurrence of `k` in `keys`, or -1 when there is none.
pub open spec fn last_index_of(keys: Seq<Seq<u8>>, k: Seq<u8>) -> int
    decreases keys.len(),
{
    if keys.len() == 0 {
        -1
    } else if keys.last() == k {
        keys.len() - 1
    } else {
        last_index_of(keys.drop_last(), k)
    }
}

pub proof fn lemma_last_index_of_bounds(keys: Seq<Seq<u8>>, k: Seq<u8>)
    ensures
        -1 <= last_index_of(keys, k) < keys.len(),
        last_index_of(keys, k) >= 0 ==> keys[last_index_of(keys, k)] == k,
        last_index_of(keys, k) == -1 ==> forall|j: int| 0 <= j < keys.len() ==> keys[j] != k,
        forall|j: int| last_index_of(keys, k) < j < keys.len() ==> keys[j] != k,
    decreases keys.len(),
{
    if keys.len() > 0 && keys.last() != k {
        let rest = keys.drop_last();
        lemma_last_index_of_bounds(rest, k);
        assert forall|j: int| last_index_of(keys, k) < j < keys.len() implies keys[j] != k by {
            if j < keys.len() - 1 {
                assert(keys[j] == rest[j]);
            }
        }
    }
}

/// Appending a key moves only that key's lookup.
pub proof fn lemma_last_index_of_push(keys: Seq<Seq<u8>>, k: Seq<u8>, q: Seq<u8>)
    ensures
        last_index_of(keys.push(k), q) == if q == k {
            keys.len() as int
        } else {
            last_index_of(keys, q)
        },
{
    assert(keys.push(k).drop_last() =~= keys);
}

} // verus!
