//! The queue engine: offset allocation and atomic append (Producer), session
//! cursors with poll/commit/enumerate/clear (Consumer), and trimming of
//! consumed entries. Every operation runs inside one engine transaction and
//! is verified against the transaction-view contracts of the store adapter.

use vstd::prelude::*;
use vstd::utf8::encode_utf8;
use crate::codec::{decode_key, encode_key, encoded, lemma_encoded_injective, lemma_encoded_order};
use crate::model::{
    decoded_log,
    exhausted,
    is_next,
    lemma_decoded_insert,
    lemma_decoded_trim,
    lemma_trim_keys_contains,
    trim_keys,
    trimmed,
};
use crate::order::{
    lex_le,
    lex_lt,
    lemma_lex_le_antisym,
    lemma_lex_le_lt_trans,
    lemma_lex_le_refl,
    lemma_lex_le_total,
    lemma_lex_lt_le_trans,
    lemma_lex_push_gt,
    lemma_lex_successor,
};
use crate::store::{
    begin_snapshot,
    begin_write,
    commit_write,
    open_databases,
    open_env,
    snap_view,
    snapshot_first,
    snapshot_get,
    snapshot_seek,
    write_del,
    write_first,
    write_get,
    write_put,
    write_put_new,
    write_view,
    QueueError,
    Snapshot,
    WriteTxn,
};

verus! {

/// Configuration of the storage environment: the upper bound on total mapped
/// size (a sparse reservation, not a commitment) and the maximum number of
/// named namespaces.
pub struct Config {
    pub map_size: usize,
    pub max_namespaces: u32,
}

impl Default for Config {
    /// A gigabyte of sparse address-space reservation — a ceiling, not a
    /// commitment, since the engine allocates lazily — and room for the
    /// queue's three namespaces: producer cursor, consumer offsets, data.
    /// The default is deliberately modest: it must fit a 32-bit usize, and
    /// every open handle maps the full reservation, so several handles must
    /// fit side by side. Deployments expecting a larger log raise it through
    /// with_config.
    fn default() -> (c: Config)
        ensures
            c.map_size == 0x4000_0000,
            c.max_namespaces == 3,
    {
        Config { map_size: 0x4000_0000, max_namespaces: 3 }
    }
}

/// One payload together with the offset it was stored at.
#[derive(Debug, Clone)]
pub struct Entry {
    pub offset: u64,
    pub data: Vec<u8>,
}

/// Byte-for-byte equality of two slices.
pub(crate) fn bytes_equal(a: &[u8], b: &[u8]) -> (r: bool)
    ensures
        r <==> a@ == b@,
{
    if a.len() != b.len() {
        return false;
    }
    let n = a.len();
    let mut i: usize = 0;
    while i < n
        invariant
            0 <= i <= n,
            a@.len() == n,
            b@.len() == n,
            forall|j: int| 0 <= j < i ==> a@[j] == b@[j],
        decreases n - i,
    {
        if a[i] != b[i] {
            return false;
        }
        i = i + 1;
    }
    proof {
        assert(a@ =~= b@);
    }
    true
}

impl PartialEq for Entry {
    fn eq(&self, other: &Entry) -> (r: bool) {
        self.offset == other.offset && bytes_equal(self.data.as_slice(), other.data.as_slice())
    }
}

impl vstd::std_specs::cmp::PartialEqSpecImpl for Entry {
    open spec fn obeys_eq_spec() -> bool {
        true
    }

    open spec fn eq_spec(&self, other: &Entry) -> bool {
        self.offset == other.offset && self.data@ == other.data@
    }
}

impl Eq for Entry {
}

/// The key of the single entry in the producer's namespace that holds the
/// next offset to allocate (the bytes of "writer-next").
pub open spec fn writer_key() -> Seq<u8> {
    seq![119u8, 114u8, 105u8, 116u8, 101u8, 114u8, 45u8, 110u8, 101u8, 120u8, 116u8]
}

fn writer_key_bytes() -> (r: Vec<u8>)
    ensures
        r@ == writer_key(),
{
    let r: Vec<u8> = vec![119u8, 114u8, 105u8, 116u8, 101u8, 114u8, 45u8, 110u8, 101u8, 120u8, 116u8];
    proof {
        assert(r@ =~= writer_key());
    }
    r
}

/// Reads an offset entry from a snapshot: the decoded value, or 0 when the
/// key is absent ("not found" means "never set", not a fault).
pub fn read_offset(s: &Snapshot, db: lmdb::Database, key: &[u8]) -> (r: Result<u64, QueueError>)
    ensures
        r matches Ok(v) ==> {
            ||| (snap_view(*s, db).contains_key(key@) && snap_view(*s, db)[key@] == encoded(v))
            ||| (!snap_view(*s, db).contains_key(key@) && v == 0)
        },
        r matches Err(QueueError::Codec) ==> snap_view(*s, db).contains_key(key@) && snap_view(
            *s,
            db,
        )[key@].len() != 8,
{
    match snapshot_get(s, db, key)? {
        Some(bytes) => decode_key(bytes.as_slice()),
        None => Ok(0),
    }
}

/// Reads an offset entry within a write transaction, as read_offset does.
pub fn txn_read_offset(t: &WriteTxn, db: lmdb::Database, key: &[u8]) -> (r: Result<
    u64,
    QueueError,
>)
    ensures
        r matches Ok(v) ==> {
            ||| (write_view(*t, db).contains_key(key@) && write_view(*t, db)[key@] == encoded(v))
            ||| (!write_view(*t, db).contains_key(key@) && v == 0)
        },
        r matches Err(QueueError::Codec) ==> write_view(*t, db).contains_key(key@) && write_view(
            *t,
            db,
        )[key@].len() != 8,
{
    match write_get(t, db, key)? {
        Some(bytes) => decode_key(bytes.as_slice()),
        None => Ok(0),
    }
}

/// Stores an offset under the given key, overwriting any prior value.
pub fn write_offset(t: &mut WriteTxn, db: lmdb::Database, key: &[u8], off: u64) -> (r: Result<
    (),
    QueueError,
>)
    ensures
        r is Ok ==> write_view(*final(t), db) == write_view(*old(t), db).insert(
            key@,
            encoded(off),
        ),
        r is Err ==> write_view(*final(t), db) == write_view(*old(t), db),
        forall|d2: lmdb::Database|
            d2 != db ==> write_view(*final(t), d2) == write_view(*old(t), d2),
{
    let k = encode_key(off);
    write_put(t, db, key, k.as_slice())
}

/// Allocates the next offset and appends the payload, both inside the given
/// write transaction: reads the writer cursor (0 when unset), stores the
/// payload under the offset's key — failing loudly rather than overwriting if
/// an entry is already there — and advances the cursor in the same
/// transaction, so that either both writes commit or neither does.
pub fn append_in(
    t: &mut WriteTxn,
    data_db: lmdb::Database,
    meta_db: lmdb::Database,
    msg: &[u8],
) -> (r: Result<u64, QueueError>)
    requires
        data_db != meta_db,
    ensures
        r matches Ok(off) ==> {
            let data0 = write_view(*old(t), data_db);
            let meta0 = write_view(*old(t), meta_db);
            &&& (if meta0.contains_key(writer_key()) {
                meta0[writer_key()] == encoded(off)
            } else {
                off == 0
            })
            &&& off < u64::MAX
            &&& !data0.contains_key(encoded(off))
            &&& write_view(*final(t), data_db) == data0.insert(encoded(off), msg@)
            &&& write_view(*final(t), meta_db) == meta0.insert(
                writer_key(),
                encoded((off + 1) as u64),
            )
            &&& decoded_log(write_view(*final(t), data_db)) == decoded_log(data0).insert(
                off,
                msg@,
            )
        },
        forall|d2: lmdb::Database|
            d2 != data_db && d2 != meta_db ==> write_view(*final(t), d2) == write_view(
                *old(t),
                d2,
            ),
{
    let wkey = writer_key_bytes();
    let off = txn_read_offset(t, meta_db, wkey.as_slice())?;
    if off == u64::MAX {
        return Err(QueueError::Codec);
    }
    let key = encode_key(off);
    write_put_new(t, data_db, key.as_slice(), msg)?;
    write_offset(t, meta_db, wkey.as_slice(), off + 1)?;
    proof {
        lemma_decoded_insert(write_view(*old(t), data_db), off, msg@);
    }
    Ok(off)
}

/// Persists a group's progress inside the given write transaction: stores
/// the entry's offset plus one ("everything up to and including this entry is
/// done; resume after it") under the group's name, overwriting any prior
/// record. No other record and no other namespace is touched.
pub fn commit_in(
    t: &mut WriteTxn,
    offsets_db: lmdb::Database,
    name: &[u8],
    entry: &Entry,
) -> (r: Result<(), QueueError>)
    requires
        entry.offset < u64::MAX,
    ensures
        r is Ok ==> write_view(*final(t), offsets_db) == write_view(*old(t), offsets_db).insert(
            name@,
            encoded((entry.offset + 1) as u64),
        ),
        r is Err ==> write_view(*final(t), offsets_db) == write_view(*old(t), offsets_db),
        forall|d2: lmdb::Database|
            d2 != offsets_db ==> write_view(*final(t), d2) == write_view(*old(t), d2),
{
    write_offset(t, offsets_db, name, entry.offset + 1)
}

/// Polls the next surviving entry at or after the cursor, against one
/// snapshot: seeks the first key at or after the cursor's encoding, so that
/// gaps left by trimming are skipped. Returns None when the log is exhausted
/// relative to the cursor.
pub fn poll_in(s: &Snapshot, data_db: lmdb::Database, cursor: u64) -> (r: Result<
    Option<Entry>,
    QueueError,
>)
    ensures
        r matches Ok(Some(e)) ==> {
            &&& is_next(decoded_log(snap_view(*s, data_db)), cursor, e.offset)
            &&& e.data@ == decoded_log(snap_view(*s, data_db))[e.offset]
        },
        r matches Ok(None) ==> exhausted(decoded_log(snap_view(*s, data_db)), cursor),
        r matches Err(QueueError::Codec) ==> exists|j: Seq<u8>|
            #[trigger] snap_view(*s, data_db).contains_key(j) && j.len() != 8,
{
    let key = encode_key(cursor);
    match snapshot_seek(s, data_db, key.as_slice())? {
        None => {
            proof {
                let log = decoded_log(snap_view(*s, data_db));
                assert forall|j: u64| #[trigger] log.contains_key(j) implies j < cursor by {
                    if cursor <= j {
                        lemma_encoded_order(cursor, j);
                        assert(snap_view(*s, data_db).contains_key(encoded(j)));
                    }
                }
            }
            Ok(None)
        },
        Some((k, v)) => {
            let off = decode_key(k.as_slice())?;
            proof {
                let m = snap_view(*s, data_db);
                let log = decoded_log(m);
                lemma_encoded_order(cursor, off);
                assert(log.contains_key(off));
                assert forall|j: u64| #[trigger] log.contains_key(j) && cursor <= j implies off
                    <= j by {
                    lemma_encoded_order(cursor, j);
                    assert(m.contains_key(encoded(j)));
                    lemma_encoded_order(off, j);
                }
            }
            Ok(Some(Entry { offset: off, data: v }))
        },
    }
}

/// Deletes every log entry whose offset is at or below the cutoff, inside the
/// given write transaction: one forward scan from the namespace's first key,
/// stopping at the first entry whose offset exceeds the cutoff. A key that is
/// not an 8-byte offset encoding fails the scan with a codec error; nothing
/// outside the data namespace is touched either way.
pub fn trim_in(t: &mut WriteTxn, data_db: lmdb::Database, cutoff: u64) -> (r: Result<
    (),
    QueueError,
>)
    ensures
        r is Ok ==> write_view(*final(t), data_db) == write_view(*old(t), data_db).remove_keys(
            trim_keys(cutoff),
        ),
        r is Ok ==> decoded_log(write_view(*final(t), data_db)) == trimmed(
            decoded_log(write_view(*old(t), data_db)),
            cutoff,
        ),
        forall|d2: lmdb::Database|
            d2 != data_db ==> write_view(*final(t), d2) == write_view(*old(t), d2),
{
    let ghost t0 = *t;
    let ghost mut removed: Set<Seq<u8>> = Set::empty();
    let mut lo: u64 = 0;
    proof {
        assert(write_view(*t, data_db) =~= write_view(t0, data_db).remove_keys(removed));
    }
    loop
        invariant
            t0 == *old(t),
            write_view(*t, data_db) == write_view(t0, data_db).remove_keys(removed),
            removed.subset_of(trim_keys(cutoff)),
            forall|d2: lmdb::Database| d2 != data_db ==> write_view(*t, d2) == write_view(t0, d2),
            forall|o: u64|
                #[trigger] write_view(*t, data_db).contains_key(encoded(o)) ==> lo <= o,
            lo as int <= cutoff as int + 1,
        ensures
            write_view(*t, data_db) == write_view(t0, data_db).remove_keys(trim_keys(cutoff)),
            forall|d2: lmdb::Database| d2 != data_db ==> write_view(*t, d2) == write_view(t0, d2),
        decreases cutoff as int + 1 - lo as int,
    {
        let nxt = match write_first(t, data_db) {
            Ok(x) => x,
            Err(e) => return Err(e),
        };
        match nxt {
            None => {
                proof {
                    let d0 = write_view(t0, data_db);
                    assert forall|key: Seq<u8>|
                        #[trigger] d0.contains_key(key) && !trim_keys(cutoff).contains(
                            key,
                        ) implies removed.contains(key) by {
                        if !removed.contains(key) {
                            assert(write_view(*t, data_db).contains_key(key));
                        }
                    }
                    assert(write_view(*t, data_db) =~= d0.remove_keys(trim_keys(cutoff)));
                }
                break ;
            },
            Some((k, v)) => {
                let off = match decode_key(k.as_slice()) {
                    Ok(o) => o,
                    Err(e) => return Err(e),
                };
                if off > cutoff {
                    proof {
                        let d0 = write_view(t0, data_db);
                        let cur = write_view(*t, data_db);
                        assert forall|key: Seq<u8>|
                            #[trigger] d0.contains_key(key) && !removed.contains(key)
                                && trim_keys(cutoff).contains(key) implies false by {
                            assert(cur.contains_key(key));
                            let o = choose|o: u64| o <= cutoff && key == encoded(o);
                            lemma_encoded_order(off, o);
                        }
                        assert(cur =~= d0.remove_keys(trim_keys(cutoff)));
                    }
                    break ;
                }
                let ghost before = write_view(*t, data_db);
                match write_del(t, data_db, k.as_slice()) {
                    Ok(()) => (),
                    Err(e) => return Err(e),
                }
                proof {
                    lemma_trim_keys_contains(cutoff, off);
                    removed = removed.insert(k@);
                    assert(write_view(*t, data_db) =~= write_view(t0, data_db).remove_keys(
                        removed,
                    ));
                    assert forall|o: u64|
                        #[trigger] write_view(*t, data_db).contains_key(
                            encoded(o),
                        ) implies off as int + 1 <= o by {
                        assert(before.contains_key(encoded(o)));
                        if encoded(o) == encoded(off) {
                            lemma_encoded_injective(o, off);
                            assert(false);
                        }
                        lemma_encoded_order(off, o);
                    }
                }
                if off == u64::MAX {
                    proof {
                        let d0 = write_view(t0, data_db);
                        let cur = write_view(*t, data_db);
                        assert forall|key: Seq<u8>|
                            #[trigger] d0.contains_key(key) && !removed.contains(key)
                                && trim_keys(cutoff).contains(key) implies false by {
                            assert(cur.contains_key(key));
                            let o = choose|o: u64| o <= cutoff && key == encoded(o);
                            assert(cur.contains_key(encoded(o)));
                        }
                        assert(cur =~= d0.remove_keys(trim_keys(cutoff)));
                    }
                    break ;
                }
                lo = off + 1;
            },
        }
    }
    proof {
        lemma_decoded_trim(write_view(t0, data_db), cutoff);
    }
    Ok(())
}

/// The first record of a namespace, or the first strictly after a given key:
/// the step of every forward scan.
fn seek_after(s: &Snapshot, db: lmdb::Database, after: &Option<Vec<u8>>) -> (r: Result<
    Option<(Vec<u8>, Vec<u8>)>,
    QueueError,
>)
    ensures
        r matches Ok(Some(kv)) ==> {
            &&& snap_view(*s, db).contains_key(kv.0@)
            &&& snap_view(*s, db)[kv.0@] == kv.1@
            &&& (after matches Some(p) ==> lex_lt(p@, kv.0@))
            &&& forall|j: Seq<u8>|
                #[trigger] snap_view(*s, db).contains_key(j) && (after matches Some(p) ==> lex_lt(
                    p@,
                    j,
                )) ==> lex_le(kv.0@, j)
        },
        r matches Ok(None) ==> forall|j: Seq<u8>|
            #[trigger] snap_view(*s, db).contains_key(j) ==> (after matches Some(p) && !lex_lt(
                p@,
                j,
            )),
{
    match after {
        None => snapshot_first(s, db),
        Some(p) => {
            let mut q = vstd::slice::slice_to_vec(p.as_slice());
            q.push(0u8);
            let r = snapshot_seek(s, db, q.as_slice());
            proof {
                assert(q@ == p@.push(0));
            }
            if let Ok(Some(kv)) = &r {
                proof {
                    assert(lex_lt(p@, kv.0@)) by {
                        lemma_lex_push_gt(p@);
                        lemma_lex_lt_le_trans(p@, p@.push(0), kv.0@);
                    }
                    assert forall|j: Seq<u8>|
                        #[trigger] snap_view(*s, db).contains_key(j) && lex_lt(
                            p@,
                            j,
                        ) implies lex_le(kv.0@, j) by {
                        lemma_lex_successor(p@, j);
                    }
                }
            }
            if let Ok(None) = &r {
                proof {
                    assert forall|j: Seq<u8>|
                        #[trigger] snap_view(*s, db).contains_key(j) implies !lex_lt(p@, j) by {
                        if lex_lt(p@, j) {
                            lemma_lex_successor(p@, j);
                        }
                    }
                }
            }
            r
        },
    }
}

/// Every stored record's key appears among the collected items.
pub open spec fn covers(items: Seq<(Vec<u8>, u64)>, m: Map<Seq<u8>, Seq<u8>>) -> bool {
    forall|key: Seq<u8>|
        #[trigger] m.contains_key(key) ==> exists|i: int|
            #![auto]
            0 <= i < items.len() && items[i].0@ == key
}

/// The set of records not yet scanned: those strictly after the last key.
spec fn remaining_keys(m: Map<Seq<u8>, Seq<u8>>, last: Option<Vec<u8>>) -> Set<Seq<u8>> {
    match last {
        None => m.dom(),
        Some(p) => m.dom().filter(|k: Seq<u8>| lex_lt(p@, k)),
    }
}

/// Enumerates a whole namespace in key order: every record, with its value
/// decoded as an offset. The result is sound (every pair is a stored record),
/// complete (every stored record appears) and strictly sorted by key.
#[verifier::rlimit(60)]
pub fn enumerate_in(s: &Snapshot, db: lmdb::Database) -> (r: Result<
    Vec<(Vec<u8>, u64)>,
    QueueError,
>)
    requires
        snap_view(*s, db).dom().finite(),
    ensures
        r matches Ok(items) ==> (forall|i: int|
            0 <= i < items@.len() ==> snap_view(*s, db).contains_key(#[trigger] items@[i].0@)
                && snap_view(*s, db)[items@[i].0@] == encoded(items@[i].1)),
        r matches Ok(items) ==> (forall|i: int, j: int|
            0 <= i < j < items@.len() ==> lex_lt(items@[i].0@, items@[j].0@)),
        r matches Ok(items) ==> covers(items@, snap_view(*s, db)),
{
    let ghost m = snap_view(*s, db);
    let mut items: Vec<(Vec<u8>, u64)> = Vec::new();
    let mut last: Option<Vec<u8>> = None;
    loop
        invariant
            m == snap_view(*s, db),
            m.dom().finite(),
            forall|i: int|
                0 <= i < items@.len() ==> m.contains_key(#[trigger] items@[i].0@)
                    && m[items@[i].0@] == encoded(items@[i].1),
            forall|i: int, j: int| 0 <= i < j < items@.len() ==> lex_lt(items@[i].0@, items@[j].0@),
            match last {
                None => items@.len() == 0,
                Some(p) => {
                    &&& items@.len() > 0
                    &&& items@[items@.len() - 1].0@ == p@
                    &&& m.contains_key(p@)
                    &&& (forall|i: int|
                        0 <= i < items@.len() ==> lex_le(#[trigger] items@[i].0@, p@))
                    &&& (forall|key: Seq<u8>|
                        #[trigger] m.contains_key(key) && lex_le(key, p@) ==> exists|i: int|
                            #![auto]
                            0 <= i < items@.len() && items@[i].0@ == key)
                },
            },
        ensures
            (forall|i: int|
                0 <= i < items@.len() ==> m.contains_key(#[trigger] items@[i].0@)
                    && m[items@[i].0@] == encoded(items@[i].1)),
            (forall|i: int, j: int|
                0 <= i < j < items@.len() ==> lex_lt(items@[i].0@, items@[j].0@)),
            covers(items@, m),
        decreases remaining_keys(m, last).len(),
    {
        let ghost last0 = last;
        let found = match seek_after(s, db, &last) {
            Ok(x) => x,
            Err(e) => return Err(e),
        };
        match found {
            None => {
                proof {
                    assert forall|key: Seq<u8>| #[trigger] m.contains_key(key) implies exists|
                        i: int,
                    |
                        #![auto]
                        0 <= i < items@.len() && items@[i].0@ == key by {
                        match last0 {
                            None => {
                                assert(false);
                            },
                            Some(p) => {
                                assert(!lex_lt(p@, key));
                                assert(lex_le(key, p@)) by {
                                    lemma_lex_le_total(p@, key);
                                    if p@ == key {
                                        lemma_lex_le_refl(key);
                                    }
                                }
                            },
                        }
                    }
                    assert(covers(items@, m));
                }
                break ;
            },
            Some((k, v)) => {
                let off = match decode_key(v.as_slice()) {
                    Ok(o) => o,
                    Err(e) => return Err(e),
                };
                let k2: Vec<u8> = vstd::slice::slice_to_vec(k.as_slice());
                let ghost items0 = items@;
                items.push((k, off));
                last = Some(k2);
                proof {
                    let gk = items@[items@.len() - 1].0@;
                    lemma_lex_le_refl(gk);
                    // strictly after everything already collected
                    assert forall|i: int| 0 <= i < items0.len() implies lex_lt(
                        #[trigger] items0[i].0@,
                        gk,
                    ) by {
                        match last0 {
                            Some(p) => {
                                lemma_lex_le_lt_trans(items0[i].0@, p@, gk);
                            },
                            None => {},
                        }
                    }
                    // everything at or below the new key is collected
                    assert forall|key: Seq<u8>|
                        #[trigger] m.contains_key(key) && lex_le(key, gk) implies exists|i: int|
                        #![auto]
                        0 <= i < items@.len() && items@[i].0@ == key by {
                        let covered = match last0 {
                            Some(p) => lex_le(key, p@),
                            None => false,
                        };
                        if covered {
                            let i = choose|i: int| 0 <= i < items0.len() && items0[i].0@ == key;
                            assert(items@[i].0@ == key);
                        } else {
                            // strictly after the old bound, at or below the
                            // new key, and present: it is the new key itself
                            match last0 {
                                Some(p) => {
                                    assert(lex_lt(p@, key)) by {
                                        lemma_lex_le_total(key, p@);
                                        if p@ == key {
                                            lemma_lex_le_refl(key);
                                        }
                                    }
                                },
                                None => {},
                            }
                            assert(lex_le(gk, key));
                            lemma_lex_le_antisym(key, gk);
                            assert(items@[items@.len() - 1].0@ == key);
                        }
                    }
                    // fewer records remain
                    assert(remaining_keys(m, last).len() < remaining_keys(m, last0).len()) by {
                        let rem0 = remaining_keys(m, last0);
                        let rem1 = remaining_keys(m, last);
                        assert(rem1.subset_of(rem0.remove(gk))) by {
                            assert forall|x: Seq<u8>| #[trigger] rem1.contains(x) implies rem0
                                .remove(gk).contains(x) by {
                                match last0 {
                                    Some(p) => {
                                        lemma_lex_lt_le_trans(p@, gk, x);
                                    },
                                    None => {},
                                }
                                if x == gk {
                                    lemma_lex_le_refl(gk);
                                }
                            }
                        }
                        assert(rem0.contains(gk)) by {
                            match last0 {
                                Some(p) => {},
                                None => {},
                            }
                        }
                        vstd::set_lib::lemma_len_subset(rem1, rem0.remove(gk));
                        assert(rem0.remove(gk).len() < rem0.len()) by {
                            vstd::set_lib::lemma_len_subset(rem0, m.dom());
                        }
                    }
                }
            },
        }
    }
    proof {
        assert(covers(items@, snap_view(*s, db)));
    }
    Ok(items)
}

/// Relies on String::from_utf8: builds the string whose UTF-8 bytes are
/// exactly the input, and fails when the input is not valid UTF-8 (a foreign
/// record in the offsets namespace).
#[verifier::external_body]
fn bytes_to_name(b: &[u8]) -> (r: Result<String, QueueError>)
    ensures
        r matches Ok(s) ==> encode_utf8(s@) == b@,
        r matches Err(e) ==> e is Codec,
{
    match String::from_utf8(b.to_vec()) {
        Ok(s) => Ok(s),
        Err(_) => Err(QueueError::Codec),
    }
}

/// Rebuilds each enumerated record's name from its stored UTF-8 bytes,
/// keeping values and order: position by position, the returned names encode
/// back to exactly the scanned keys.
pub fn decode_names(raw: &Vec<(Vec<u8>, u64)>) -> (r: Result<Vec<(String, u64)>, QueueError>)
    ensures
        r matches Ok(out) ==> {
            &&& out@.len() == raw@.len()
            &&& forall|i: int|
                0 <= i < raw@.len() ==> encode_utf8(#[trigger] out@[i].0@) == raw@[i].0@
                    && out@[i].1 == raw@[i].1
        },
{
    let mut out: Vec<(String, u64)> = Vec::new();
    let mut idx: usize = 0;
    let n = raw.len();
    while idx < n
        invariant
            n == raw@.len(),
            0 <= idx <= n,
            out@.len() == idx,
            forall|i: int|
                0 <= i < idx ==> encode_utf8(#[trigger] out@[i].0@) == raw@[i].0@ && out@[i].1
                    == raw@[i].1,
        decreases n - idx,
    {
        let name = match bytes_to_name(raw[idx].0.as_slice()) {
            Ok(s) => s,
            Err(e) => return Err(e),
        };
        out.push((name, raw[idx].1));
        idx = idx + 1;
    }
    Ok(out)
}

/// A producer handle: appends payloads to the shared data namespace and keeps
/// its write cursor in a producer-private namespace.
pub struct Producer {
    env: lmdb::Environment,
    data_db: lmdb::Database,
    meta_db: lmdb::Database,
}

impl Producer {
    /// The two namespace handles are distinct: the write cursor can never
    /// alias a log entry.
    #[verifier::type_invariant]
    spec fn wf(self) -> bool {
        self.data_db != self.meta_db
    }

    /// Opens (creating as needed) the queue at the given directory, with the
    /// default configuration.
    pub fn new(place: &str) -> (r: Result<Producer, QueueError>) {
        Producer::with_config(place, &Config::default())
    }

    /// Opens (creating as needed) the queue at the given directory.
    pub fn with_config(place: &str, config: &Config) -> (r: Result<Producer, QueueError>) {
        let env = open_env(place, config.map_size, config.max_namespaces)?;
        proof {
            reveal_strlit("data");
            reveal_strlit("prod");
            assert("data"@ != "prod"@) by {
                assert("data"@[0] == 'd' && "prod"@[0] == 'p');
            }
            assert(forall|i: int| 0 <= i < "data"@.len() ==> "data"@[i] != '\0');
            assert(forall|i: int| 0 <= i < "prod"@.len() ==> "prod"@[i] != '\0');
        }
        let (data_db, meta_db) = open_databases(&env, "data", "prod")?;
        Ok(Producer { env, data_db, meta_db })
    }

    /// Appends one payload: allocates the next offset, stores the entry and
    /// advances the writer cursor in one transaction, and commits. On success
    /// returns the entry's offset; on any failure the transaction is
    /// discarded and the log is unchanged.
    pub fn produce(&mut self, msg: &[u8]) -> (r: Result<u64, QueueError>)
        ensures
            *final(self) == *old(self),
    {
        proof {
            use_type_invariant(&*self);
        }
        let mut t = begin_write(&self.env)?;
        let r = append_in(&mut t, self.data_db, self.meta_db, msg);
        match r {
            Ok(off) => {
                commit_write(t)?;
                Ok(off)
            },
            Err(e) => Err(e),
        }
    }
}

/// A consumer handle: a name shared by all handles of one consumer group, and
/// an in-memory session cursor holding the next offset to read. The cursor is
/// initialized from the group's committed offset and advances on every poll;
/// only commit_upto persists progress.
pub struct Consumer {
    env: lmdb::Environment,
    data_db: lmdb::Database,
    meta_db: lmdb::Database,
    name: String,
    offset: u64,
}

impl Consumer {
    /// The two namespace handles are distinct: a committed offset record can
    /// never alias a log entry.
    #[verifier::type_invariant]
    spec fn wf(self) -> bool {
        self.data_db != self.meta_db
    }

    /// The in-memory session cursor: the next offset this handle will read.
    pub closed spec fn session_cursor(self) -> u64 {
        self.offset
    }

    /// The consumer group's name.
    pub closed spec fn group_name(self) -> Seq<char> {
        self.name@
    }

    /// Opens (creating as needed) the queue at the given directory with the
    /// default configuration, and initializes the session cursor from the
    /// group's committed offset (0 if the group never committed).
    pub fn new(place: &str, name: &str) -> (r: Result<Consumer, QueueError>)
        ensures
            r matches Ok(c) ==> c.group_name() == name@,
    {
        Consumer::with_config(place, name, &Config::default())
    }

    /// Opens (creating as needed) the queue at the given directory, as new
    /// does.
    pub fn with_config(place: &str, name: &str, config: &Config) -> (r: Result<
        Consumer,
        QueueError,
    >)
        ensures
            r matches Ok(c) ==> c.group_name() == name@,
    {
        let env = open_env(place, config.map_size, config.max_namespaces)?;
        proof {
            reveal_strlit("data");
            reveal_strlit("cons");
            assert("data"@ != "cons"@) by {
                assert("data"@[0] == 'd' && "cons"@[0] == 'c');
            }
            assert(forall|i: int| 0 <= i < "data"@.len() ==> "data"@[i] != '\0');
            assert(forall|i: int| 0 <= i < "cons"@.len() ==> "cons"@[i] != '\0');
        }
        let (data_db, meta_db) = open_databases(&env, "data", "cons")?;
        let position = {
            let snap = begin_snapshot(&env)?;
            read_offset(&snap, meta_db, name.as_bytes())?
        };
        Ok(Consumer::assemble(env, data_db, meta_db, name, position))
    }

    /// Builds the handle with its session cursor at exactly the given
    /// position. with_config reads that position from the group's committed
    /// record (read_offset: the stored offset, or 0 when no record exists),
    /// so the cursor starts from the group's durable progress.
    fn assemble(
        env: lmdb::Environment,
        data_db: lmdb::Database,
        meta_db: lmdb::Database,
        name: &str,
        cursor: u64,
    ) -> (c: Consumer)
        requires
            data_db != meta_db,
        ensures
            c.group_name() == name@,
            c.session_cursor() == cursor,
    {
        Consumer { env, data_db, meta_db, name: name.to_owned(), offset: cursor }
    }

    /// Polls the next surviving entry at or after the session cursor, in a
    /// fresh snapshot, and advances the cursor past it. Never mutates
    /// persisted state; returns None, with the cursor unchanged, when no
    /// entry at or after the cursor survives. Re-polling after None is safe.
    pub fn poll(&mut self) -> (r: Result<Option<Entry>, QueueError>)
        ensures
            r matches Ok(Some(e)) ==> {
                &&& old(self).session_cursor() <= e.offset
                &&& e.offset < u64::MAX
                &&& final(self).session_cursor() == e.offset + 1
                &&& final(self).group_name() == old(self).group_name()
            },
            r matches Ok(None) ==> *final(self) == *old(self),
            r is Err ==> *final(self) == *old(self),
    {
        proof {
            use_type_invariant(&*self);
        }
        let snap = begin_snapshot(&self.env)?;
        match poll_in(&snap, self.data_db, self.offset)? {
            None => Ok(None),
            Some(e) => {
                if e.offset == u64::MAX {
                    return Err(QueueError::Codec);
                }
                self.offset = e.offset + 1;
                Ok(Some(e))
            },
        }
    }

    /// Persists that everything up to and including this entry is done: sets
    /// the group's committed offset to the entry's offset plus one ("resume
    /// after it"), in one committed transaction. The session cursor is not
    /// touched: the corresponding poll already advanced it.
    pub fn commit_upto(&self, entry: &Entry) -> (r: Result<(), QueueError>)
        requires
            entry.offset < u64::MAX,
    {
        proof {
            use_type_invariant(&*self);
        }
        let mut t = begin_write(&self.env)?;
        match commit_in(&mut t, self.meta_db, self.name.as_str().as_bytes(), entry) {
            Ok(()) => commit_write(t),
            Err(e) => Err(e),
        }
    }

    /// Removes this group's committed-offset record; a no-op, not an error,
    /// if no record exists. A fresh consumer of this name then resumes from
    /// the start of the log. The session cursor is not touched.
    pub fn clear_offset(&self) -> (r: Result<(), QueueError>) {
        proof {
            use_type_invariant(&*self);
        }
        let mut t = begin_write(&self.env)?;
        match write_del(&mut t, self.meta_db, self.name.as_str().as_bytes()) {
            Ok(()) => commit_write(t),
            Err(e) => Err(e),
        }
    }

    /// Enumerates every group's committed offset: the records of one
    /// snapshot of the offsets namespace — enumerate_in pins them to it,
    /// sound, complete and in key order — with each name rebuilt from its
    /// stored UTF-8 bytes by decode_names. Groups that never committed are
    /// absent. The returned names are pairwise distinct and their encodings
    /// ascend in byte order.
    pub fn consumers(&self) -> (r: Result<Vec<(String, u64)>, QueueError>)
        ensures
            r matches Ok(out) ==> forall|i: int, j: int|
                #![trigger out@[i].0@, out@[j].0@]
                0 <= i < j < out@.len() ==> crate::order::lex_lt(
                    encode_utf8(out@[i].0@),
                    encode_utf8(out@[j].0@),
                ) && out@[i].0@ != out@[j].0@,
    {
        proof {
            use_type_invariant(&*self);
        }
        let snap = begin_snapshot(&self.env)?;
        let raw = enumerate_in(&snap, self.meta_db)?;
        let out = decode_names(&raw)?;
        proof {
            assert forall|i: int, j: int|
                #![trigger out@[i].0@, out@[j].0@]
                0 <= i < j < out@.len() implies crate::order::lex_lt(
                encode_utf8(out@[i].0@),
                encode_utf8(out@[j].0@),
            ) && out@[i].0@ != out@[j].0@ by {
                assert(encode_utf8(out@[i].0@) == raw@[i].0@);
                assert(encode_utf8(out@[j].0@) == raw@[j].0@);
                assert(lex_lt(raw@[i].0@, raw@[j].0@));
            }
        }
        Ok(out)
    }

    /// Deletes every log entry whose offset is at or below the cutoff, in one
    /// committed transaction: a no-op, not an error, on an empty log or a
    /// cutoff below every surviving offset. Any named handle may trim: the
    /// operation works on the shared data namespace, not on the caller's own
    /// offset record.
    pub fn discard_upto(&self, cutoff: u64) -> (r: Result<(), QueueError>) {
        proof {
            use_type_invariant(&*self);
        }
        let mut t = begin_write(&self.env)?;
        match trim_in(&mut t, self.data_db, cutoff) {
            Ok(()) => commit_write(t),
            Err(e) => Err(e),
        }
    }
}

} // verus!
