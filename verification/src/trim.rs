//! Trim driver: computes the cutoff — an explicit value, or the end of the
//! fully-consumed prefix derived from every group's committed offset — and
//! discards the log up to it. With no explicit cutoff and nothing fully
//! consumed, trimming is skipped, not an error.

use vstd::prelude::*;
use crate::queue::Consumer;
use crate::store::QueueError;

verus! {

/// The minimum committed offset in an enumeration, or None when it is empty.
pub fn min_offset(items: &Vec<(String, u64)>) -> (r: Option<u64>)
    ensures
        match r {
            Some(m) => (exists|i: int| 0 <= i < items@.len() && items@[i].1 == m) && (forall|
                i: int,
            | 0 <= i < items@.len() ==> m <= #[trigger] items@[i].1),
            None => items@.len() == 0,
        },
{
    if items.len() == 0 {
        return None;
    }
    let mut m: u64 = items[0].1;
    let mut i: usize = 1;
    let n = items.len();
    while i < n
        invariant
            1 <= i <= n,
            n == items@.len(),
            exists|j: int| 0 <= j < i && items@[j].1 == m,
            forall|j: int| 0 <= j < i ==> m <= #[trigger] items@[j].1,
        decreases n - i,
    {
        if items[i].1 < m {
            m = items[i].1;
        }
        i = i + 1;
    }
    Some(m)
}

/// The cutoff the driver derives from an enumeration: one below the minimum
/// committed offset. A committed offset is the next offset to read, so the
/// entries strictly below the minimum are exactly the prefix every group has
/// consumed. None — skip trimming — when no group has committed, or when the
/// slowest group has consumed nothing.
pub fn derived_cutoff(items: &Vec<(String, u64)>) -> (r: Option<u64>)
    ensures
        match r {
            Some(c) => (exists|i: int| 0 <= i < items@.len() && items@[i].1 == c + 1) && (forall|
                i: int,
            | 0 <= i < items@.len() ==> c + 1 <= #[trigger] items@[i].1),
            None => items@.len() == 0 || exists|i: int|
                0 <= i < items@.len() && items@[i].1 == 0,
        },
{
    match min_offset(items) {
        None => None,
        Some(m) => {
            if m == 0 {
                None
            } else {
                Some(m - 1)
            }
        },
    }
}

/// Discards the log up to the explicit cutoff if one is supplied, else up to
/// the derived cutoff — one below the minimum committed offset across
/// consumers(). Returns the cutoff used, or None when there was none to use
/// and trimming was skipped.
pub fn process_trim(place: &str, upto: Option<u64>) -> (r: Result<Option<u64>, QueueError>)
    ensures
        upto matches Some(u) ==> (r matches Ok(c2) ==> c2 == Some(u)),
        r matches Ok(None) ==> upto is None,
{
    let consumer = Consumer::new(place, "default")?;
    let cutoff = match upto {
        Some(c) => Some(c),
        None => {
            let offsets = consumer.consumers()?;
            derived_cutoff(&offsets)
        },
    };
    match cutoff {
        Some(c) => {
            consumer.discard_upto(c)?;
            Ok(Some(c))
        },
        None => Ok(None),
    }
}

} // verus!
