//! The queue's semantics over mathematical maps: the data namespace decoded
//! as a log keyed by offset, the next surviving entry at or after a cursor,
//! trimming, and a consumer's read position in the offsets table.

use vstd::prelude::*;
use crate::codec::{encoded, lemma_encoded_injective};

verus! {

/// The data namespace read as a log: the entries whose keys are well-formed
/// 8-byte offset encodings, keyed by offset.
pub open spec fn decoded_log(m: Map<Seq<u8>, Seq<u8>>) -> Map<u64, Seq<u8>> {
    Map::new(|o: u64| m.contains_key(encoded(o)), |o: u64| m[encoded(o)])
}

/// Entry k is the next surviving entry at or after the cursor: it is present,
/// at or after the cursor, and nothing between the cursor and k survives.
pub open spec fn is_next(log: Map<u64, Seq<u8>>, cursor: u64, k: u64) -> bool {
    &&& log.contains_key(k)
    &&& cursor <= k
    &&& forall|j: u64| #[trigger] log.contains_key(j) && cursor <= j ==> k <= j
}

/// No entry at or after the cursor survives: the log is exhausted relative to
/// this cursor.
pub open spec fn exhausted(log: Map<u64, Seq<u8>>, cursor: u64) -> bool {
    forall|j: u64| #[trigger] log.contains_key(j) ==> j < cursor
}

/// The byte keys that trimming at this cutoff deletes: the well-formed
/// encodings of every offset at or below the cutoff.
pub open spec fn trim_keys(cutoff: u64) -> Set<Seq<u8>> {
    Set::new(|k: Seq<u8>| exists|o: u64| o <= cutoff && k == encoded(o))
}

/// The log after trimming at a cutoff: exactly the entries above it remain.
pub open spec fn trimmed(log: Map<u64, Seq<u8>>, cutoff: u64) -> Map<u64, Seq<u8>> {
    log.remove_keys(Set::new(|o: u64| o <= cutoff))
}

/// A consumer's read position given the offsets table: its committed offset,
/// or the start of the log if it has never committed.
pub open spec fn read_position(offsets: Map<Seq<u8>, u64>, name: Seq<u8>) -> u64 {
    if offsets.contains_key(name) {
        offsets[name]
    } else {
        0
    }
}

/// An offset's key is trimmed exactly when the offset is at or below the
/// cutoff.
pub proof fn lemma_trim_keys_contains(cutoff: u64, o: u64)
    ensures
        trim_keys(cutoff).contains(encoded(o)) <==> o <= cutoff,
{
    if o <= cutoff {
        assert(o <= cutoff && encoded(o) == encoded(o));
    }
    if trim_keys(cutoff).contains(encoded(o)) {
        let o2 = choose|o2: u64| o2 <= cutoff && encoded(o) == encoded(o2);
        lemma_encoded_injective(o, o2);
    }
}

/// At most one entry is the next one: polling is deterministic.
pub proof fn lemma_next_unique(log: Map<u64, Seq<u8>>, cursor: u64, k1: u64, k2: u64)
    requires
        is_next(log, cursor, k1),
        is_next(log, cursor, k2),
    ensures
        k1 == k2,
{
}

/// Storing an entry under an offset's key is, decoded, inserting it into the
/// log at that offset.
pub proof fn lemma_decoded_insert(m: Map<Seq<u8>, Seq<u8>>, off: u64, v: Seq<u8>)
    ensures
        decoded_log(m.insert(encoded(off), v)) == decoded_log(m).insert(off, v),
{
    assert forall|o: u64| o != off implies encoded(o) != encoded(off) by {
        if encoded(o) == encoded(off) {
            lemma_encoded_injective(o, off);
        }
    }
    assert(decoded_log(m.insert(encoded(off), v)) =~= decoded_log(m).insert(off, v));
}

/// Deleting exactly the keys at or below a cutoff is, decoded, trimming the
/// log at that cutoff.
pub proof fn lemma_decoded_trim(m: Map<Seq<u8>, Seq<u8>>, cutoff: u64)
    ensures
        decoded_log(m.remove_keys(trim_keys(cutoff))) == trimmed(decoded_log(m), cutoff),
{
    assert forall|o: u64| #[trigger] trim_keys(cutoff).contains(encoded(o)) implies o <= cutoff by {
        let o2 = choose|o2: u64| o2 <= cutoff && encoded(o) == encoded(o2);
        lemma_encoded_injective(o, o2);
    }
    assert forall|o: u64| o <= cutoff implies trim_keys(cutoff).contains(encoded(o)) by {
        assert(o <= cutoff && encoded(o) == encoded(o));
    }
    assert(decoded_log(m.remove_keys(trim_keys(cutoff))) =~= trimmed(decoded_log(m), cutoff));
}

} // verus!
