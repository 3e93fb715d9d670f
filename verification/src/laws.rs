//! The queue's laws, stated and proved over the model: first-in-first-out
//! delivery, re-delivery without commit, progression with commit, session
//! progression, independence of consumer groups, trim correctness, and what
//! enumeration and clearing reflect. The exec operations' contracts speak in
//! the same terms: poll_in yields the is_next entry of its snapshot, trim_in
//! removes exactly the trim_keys, append_in inserts at the allocated offset.

use vstd::prelude::*;
use crate::model::{exhausted, is_next, lemma_next_unique, read_position, trimmed};

verus! {

/// The log holding the given payloads in append order: payload i at offset i.
pub open spec fn log_of(payloads: Seq<Seq<u8>>) -> Map<u64, Seq<u8>> {
    Map::new(|o: u64| (o as int) < payloads.len(), |o: u64| payloads[o as int])
}

/// First-in-first-out: over the log of payloads appended in order, a cursor
/// at i next receives entry i carrying payload i — so a fresh consumer
/// polling repeatedly sees payload 0, then 1, and so on.
pub proof fn lemma_fifo_order(payloads: Seq<Seq<u8>>, i: u64)
    requires
        (i as int) < payloads.len(),
    ensures
        is_next(log_of(payloads), i, i),
        log_of(payloads)[i] == payloads[i as int],
{
}

/// First-in-first-out, exhaustion: a cursor past the last appended payload
/// finds nothing.
pub proof fn lemma_fifo_exhausted(payloads: Seq<Seq<u8>>, cursor: u64)
    requires
        payloads.len() <= cursor as int,
    ensures
        exhausted(log_of(payloads), cursor),
{
}

/// At-least-once without commit: polling persists nothing, so a consumer
/// rebuilt with the same name reads from the same committed position and the
/// entry it next receives is the same one again.
pub proof fn lemma_redelivery_without_commit(
    log: Map<u64, Seq<u8>>,
    offsets: Map<Seq<u8>, u64>,
    name: Seq<u8>,
    k: u64,
)
    requires
        is_next(log, read_position(offsets, name), k),
    ensures
        forall|k2: u64| #[trigger] is_next(log, read_position(offsets, name), k2) ==> k2 == k,
{
    assert forall|k2: u64| is_next(log, read_position(offsets, name), k2) implies k2 == k by {
        lemma_next_unique(log, read_position(offsets, name), k, k2);
    }
}

/// Exactly-once progression with commit: committing entry k sets the name's
/// read position to k + 1, and whatever a rebuilt consumer next receives lies
/// strictly after the committed entry.
pub proof fn lemma_progression_with_commit(
    log: Map<u64, Seq<u8>>,
    offsets: Map<Seq<u8>, u64>,
    name: Seq<u8>,
    k: u64,
)
    requires
        k < u64::MAX,
    ensures
        read_position(offsets.insert(name, (k + 1) as u64), name) == k + 1,
        forall|k2: u64| #[trigger] is_next(log, (k + 1) as u64, k2) ==> k2 > k,
{
}

/// Session progression without commit: within one live session, a poll that
/// returned entry k leaves the cursor at k + 1, so the next poll returns a
/// strictly later entry — distinct entries, in order, with no re-delivery.
pub proof fn lemma_session_progression(log: Map<u64, Seq<u8>>, c: u64, k: u64, k2: u64)
    requires
        is_next(log, c, k),
        k < u64::MAX,
        is_next(log, (k + 1) as u64, k2),
    ensures
        c <= k,
        k < k2,
{
}

/// Independent consumer groups: committing to one name, or clearing it, never
/// moves another name's read position.
pub proof fn lemma_independent_groups(
    offsets: Map<Seq<u8>, u64>,
    a: Seq<u8>,
    b: Seq<u8>,
    off: u64,
)
    requires
        a != b,
    ensures
        read_position(offsets.insert(a, off), b) == read_position(offsets, b),
        read_position(offsets.remove(a), b) == read_position(offsets, b),
{
}

/// Trim correctness: trimming a dense log (offsets 0 through top) at a cutoff
/// below its top removes exactly the entries at or below the cutoff, and a
/// session cursor at or below cutoff + 1 next receives the first surviving
/// entry, cutoff + 1 — not nothing, and nothing earlier.
pub proof fn lemma_trim_correct(log: Map<u64, Seq<u8>>, top: u64, cutoff: u64, s: u64)
    requires
        forall|o: u64| #[trigger] log.contains_key(o) <==> o <= top,
        cutoff < top,
        s as int <= cutoff as int + 1,
    ensures
        forall|o: u64| #[trigger] trimmed(log, cutoff).contains_key(o) <==> (cutoff < o <= top),
        is_next(trimmed(log, cutoff), s, (cutoff + 1) as u64),
{
    assert(trimmed(log, cutoff).contains_key((cutoff + 1) as u64));
}

/// Trim is safe when there is nothing to trim: with every surviving offset
/// above the cutoff, trimming changes nothing.
pub proof fn lemma_trim_noop(log: Map<u64, Seq<u8>>, cutoff: u64)
    requires
        forall|o: u64| #[trigger] log.contains_key(o) ==> o > cutoff,
    ensures
        trimmed(log, cutoff) == log,
{
    assert(trimmed(log, cutoff) =~= log);
}

/// Trim is safe on an empty log.
pub proof fn lemma_trim_empty(cutoff: u64)
    ensures
        trimmed(Map::<u64, Seq<u8>>::empty(), cutoff) == Map::<u64, Seq<u8>>::empty(),
{
    assert(trimmed(Map::<u64, Seq<u8>>::empty(), cutoff) =~= Map::<u64, Seq<u8>>::empty());
}

/// Enumeration reflects only committed groups: a name that never committed is
/// absent from the offsets table, and after one commit it is present with
/// exactly the committed offset.
pub proof fn lemma_enumeration_reflects_commits(
    offsets: Map<Seq<u8>, u64>,
    name: Seq<u8>,
    off: u64,
)
    ensures
        offsets.insert(name, off).contains_key(name),
        offsets.insert(name, off)[name] == off,
{
}

/// Clearing an offset record removes the name from the enumeration and sends
/// a fresh consumer of that name back to the start of the log; clearing a
/// name with no record changes nothing.
pub proof fn lemma_clear_offset(offsets: Map<Seq<u8>, u64>, name: Seq<u8>)
    ensures
        !offsets.remove(name).contains_key(name),
        read_position(offsets.remove(name), name) == 0,
        !offsets.contains_key(name) ==> offsets.remove(name) == offsets,
{
    if !offsets.contains_key(name) {
        assert(offsets.remove(name) =~= offsets);
    }
}

} // verus!
