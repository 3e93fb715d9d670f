//! Trusted adapter over the embedded transactional key-value engine (LMDB,
//! through the `lmdb` crate). Each wrapper makes one engine call and states,
//! over the transaction views below, what the engine's documentation
//! promises: ordered keys, consistent snapshots, and atomic write
//! transactions. Nothing else in the crate is taken on trust.

use vstd::prelude::*;
use crate::order::lex_le;
use lmdb::Cursor;
use lmdb::Transaction;

verus! {

#[verifier::external_type_specification]
#[verifier::external_body]
pub struct ExEnvironment(lmdb::Environment);

#[verifier::external_type_specification]
#[verifier::external_body]
pub struct ExDatabase(lmdb::Database);

#[verifier::external_type_specification]
#[verifier::external_body]
pub struct ExLmdbError(lmdb::Error);

#[verifier::external_type_specification]
#[verifier::external_body]
pub struct ExRoTransaction<'a>(lmdb::RoTransaction<'a>);

#[verifier::external_type_specification]
#[verifier::external_body]
pub struct ExRwTransaction<'a>(lmdb::RwTransaction<'a>);

/// Failures surfaced by the queue: an engine failure other than "not found"
/// (which the offset table absorbs), or a stored key or value that cannot be
/// decoded as an offset.
#[derive(Debug)]
pub enum QueueError {
    Store(lmdb::Error),
    Codec,
}

/// A read-only transaction: a consistent snapshot of every namespace,
/// unaffected by concurrent writers.
pub struct Snapshot<'e> {
    txn: lmdb::RoTransaction<'e>,
}

/// A write transaction: at most one is open at a time per environment; its
/// writes become visible atomically on commit and are discarded on drop.
pub struct WriteTxn<'e> {
    txn: lmdb::RwTransaction<'e>,
}

/// The contents of one namespace as a snapshot observes them. LMDB read
/// transactions see a single consistent version of the store for their whole
/// lifetime, so the contents are a function of the snapshot alone.
pub uninterp spec fn snap_view(s: Snapshot, db: lmdb::Database) -> Map<Seq<u8>, Seq<u8>>;

/// The contents of one namespace as a write transaction observes them: the
/// committed state it started from plus this transaction's own writes.
pub uninterp spec fn write_view(t: WriteTxn, db: lmdb::Database) -> Map<Seq<u8>, Seq<u8>>;

/// Relies on lmdb::EnvironmentBuilder::open (with set_map_size and
/// set_max_dbs): opens or creates the files of an environment rooted at the
/// given directory, reserving at most `map_size` bytes of address space.
#[verifier::external_body]
pub(crate) fn open_env(path: &str, map_size: usize, max_dbs: u32) -> (r: Result<
    lmdb::Environment,
    QueueError,
>)
{
    lmdb::Environment::new()
        .set_max_dbs(max_dbs)
        .set_map_size(map_size)
        .open(std::path::Path::new(path))
        .map_err(QueueError::Store)
}

/// Relies on lmdb::Environment::create_db: opens each named namespace,
/// creating it on first use. Within one environment, namespaces with
/// different names are disjoint and get distinct handles. The engine takes
/// each name as a C string, so the names must hold no NUL character.
#[verifier::external_body]
pub(crate) fn open_databases(env: &lmdb::Environment, data_name: &str, meta_name: &str) -> (r: Result<
    (lmdb::Database, lmdb::Database),
    QueueError,
>)
    requires
        data_name@ != meta_name@,
        forall|i: int| 0 <= i < data_name@.len() ==> data_name@[i] != '\0',
        forall|i: int| 0 <= i < meta_name@.len() ==> meta_name@[i] != '\0',
    ensures
        r matches Ok(dbs) ==> dbs.0 != dbs.1,
{
    let data = match env.create_db(Some(data_name), lmdb::DatabaseFlags::empty()) {
        Ok(db) => db,
        Err(e) => return Err(QueueError::Store(e)),
    };
    let meta = match env.create_db(Some(meta_name), lmdb::DatabaseFlags::empty()) {
        Ok(db) => db,
        Err(e) => return Err(QueueError::Store(e)),
    };
    Ok((data, meta))
}

/// Relies on lmdb::Environment::begin_ro_txn: begins a read transaction that
/// observes a consistent snapshot. The contents observed are arbitrary (they
/// are whatever the last committed transaction left), but each namespace
/// holds finitely many entries.
#[verifier::external_body]
pub(crate) fn begin_snapshot<'e>(env: &'e lmdb::Environment) -> (r: Result<Snapshot<'e>, QueueError>)
    ensures
        r matches Ok(s) ==> forall|db: lmdb::Database| (#[trigger] snap_view(s, db)).dom().finite(),
{
    match env.begin_ro_txn() {
        Ok(txn) => Ok(Snapshot { txn }),
        Err(e) => Err(QueueError::Store(e)),
    }
}

/// Relies on lmdb::Transaction::get: returns the value stored at exactly the
/// given key, and signals "not found" (mapped here to Ok(None)) when the key
/// is absent.
#[verifier::external_body]
pub(crate) fn snapshot_get(s: &Snapshot, db: lmdb::Database, key: &[u8]) -> (r: Result<
    Option<Vec<u8>>,
    QueueError,
>)
    ensures
        match r {
            Ok(Some(v)) => snap_view(*s, db).contains_key(key@) && snap_view(*s, db)[key@] == v@,
            Ok(None) => !snap_view(*s, db).contains_key(key@),
            Err(e) => e is Store,
        },
{
    match s.txn.get(db, &key) {
        Ok(v) => Ok(Some(v.to_vec())),
        Err(lmdb::Error::NotFound) => Ok(None),
        Err(e) => Err(QueueError::Store(e)),
    }
}

/// Relies on lmdb::Cursor::get with the "set range" operation (through
/// lmdb::Transaction::open_ro_cursor): positions at the first key at or after
/// the given key in byte-lexicographic order, and signals "not found" when no
/// key is at or after it.
#[verifier::external_body]
pub(crate) fn snapshot_seek(s: &Snapshot, db: lmdb::Database, key: &[u8]) -> (r: Result<
    Option<(Vec<u8>, Vec<u8>)>,
    QueueError,
>)
    ensures
        match r {
            Ok(Some(kv)) => snap_view(*s, db).contains_key(kv.0@) && snap_view(*s, db)[kv.0@]
                == kv.1@ && lex_le(key@, kv.0@) && (forall|j: Seq<u8>|
                #[trigger] snap_view(*s, db).contains_key(j) && lex_le(key@, j) ==> lex_le(
                    kv.0@,
                    j,
                )),
            Ok(None) => forall|j: Seq<u8>|
                #[trigger] snap_view(*s, db).contains_key(j) ==> !lex_le(key@, j),
            Err(e) => e is Store,
        },
{
    let cur = match s.txn.open_ro_cursor(db) {
        Ok(c) => c,
        Err(e) => return Err(QueueError::Store(e)),
    };
    match cur.get(Some(key), None, lmdb_sys::MDB_SET_RANGE) {
        Ok((Some(k), v)) => Ok(Some((k.to_vec(), v.to_vec()))),
        // a successful range positioning always reports the key it landed on
        Ok((None, _)) => Err(QueueError::Store(lmdb::Error::Invalid)),
        Err(lmdb::Error::NotFound) => Ok(None),
        Err(e) => Err(QueueError::Store(e)),
    }
}

/// Relies on lmdb::Cursor::get with the "first" operation (through
/// lmdb::Transaction::open_ro_cursor): positions at the namespace's first
/// key in byte-lexicographic order, and signals "not found" when the
/// namespace is empty.
#[verifier::external_body]
pub(crate) fn snapshot_first(s: &Snapshot, db: lmdb::Database) -> (r: Result<
    Option<(Vec<u8>, Vec<u8>)>,
    QueueError,
>)
    ensures
        match r {
            Ok(Some(kv)) => snap_view(*s, db).contains_key(kv.0@) && snap_view(*s, db)[kv.0@]
                == kv.1@ && (forall|j: Seq<u8>|
                #[trigger] snap_view(*s, db).contains_key(j) ==> lex_le(kv.0@, j)),
            Ok(None) => snap_view(*s, db) == Map::<Seq<u8>, Seq<u8>>::empty(),
            Err(e) => e is Store,
        },
{
    let cur = match s.txn.open_ro_cursor(db) {
        Ok(c) => c,
        Err(e) => return Err(QueueError::Store(e)),
    };
    match cur.get(None, None, lmdb_sys::MDB_FIRST) {
        Ok((Some(k), v)) => Ok(Some((k.to_vec(), v.to_vec()))),
        // a successful positioning at the first record always reports its key
        Ok((None, _)) => Err(QueueError::Store(lmdb::Error::Invalid)),
        Err(lmdb::Error::NotFound) => Ok(None),
        Err(e) => Err(QueueError::Store(e)),
    }
}

/// Relies on lmdb::Environment::begin_rw_txn: begins the environment's single
/// write transaction, blocking until any other write transaction finishes.
/// Nothing is promised of the views: the transaction starts from whatever
/// state the last committed transaction left.
#[verifier::external_body]
pub(crate) fn begin_write<'e>(env: &'e lmdb::Environment) -> (r: Result<WriteTxn<'e>, QueueError>) {
    match env.begin_rw_txn() {
        Ok(txn) => Ok(WriteTxn { txn }),
        Err(e) => Err(QueueError::Store(e)),
    }
}

/// Relies on lmdb::Transaction::get, as snapshot_get does, but within a write
/// transaction, where it also observes this transaction's own writes.
#[verifier::external_body]
pub(crate) fn write_get(t: &WriteTxn, db: lmdb::Database, key: &[u8]) -> (r: Result<
    Option<Vec<u8>>,
    QueueError,
>)
    ensures
        match r {
            Ok(Some(v)) => write_view(*t, db).contains_key(key@) && write_view(*t, db)[key@]
                == v@,
            Ok(None) => !write_view(*t, db).contains_key(key@),
            Err(e) => e is Store,
        },
{
    match t.txn.get(db, &key) {
        Ok(v) => Ok(Some(v.to_vec())),
        Err(lmdb::Error::NotFound) => Ok(None),
        Err(e) => Err(QueueError::Store(e)),
    }
}

/// Relies on lmdb::Cursor::get with the "first" operation, as snapshot_first
/// does, but within a write transaction.
#[verifier::external_body]
pub(crate) fn write_first(t: &WriteTxn, db: lmdb::Database) -> (r: Result<
    Option<(Vec<u8>, Vec<u8>)>,
    QueueError,
>)
    ensures
        match r {
            Ok(Some(kv)) => write_view(*t, db).contains_key(kv.0@) && write_view(*t, db)[kv.0@]
                == kv.1@ && (forall|j: Seq<u8>|
                #[trigger] write_view(*t, db).contains_key(j) ==> lex_le(kv.0@, j)),
            Ok(None) => write_view(*t, db) == Map::<Seq<u8>, Seq<u8>>::empty(),
            Err(e) => e is Store,
        },
{
    let cur = match t.txn.open_ro_cursor(db) {
        Ok(c) => c,
        Err(e) => return Err(QueueError::Store(e)),
    };
    match cur.get(None, None, lmdb_sys::MDB_FIRST) {
        Ok((Some(k), v)) => Ok(Some((k.to_vec(), v.to_vec()))),
        Ok((None, _)) => Err(QueueError::Store(lmdb::Error::Invalid)),
        Err(lmdb::Error::NotFound) => Ok(None),
        Err(e) => Err(QueueError::Store(e)),
    }
}

/// Relies on lmdb::RwTransaction::put with no flags: stores the pair,
/// overwriting any previous value at the key; other namespaces are untouched,
/// and on failure nothing is changed.
#[verifier::external_body]
pub(crate) fn write_put(t: &mut WriteTxn, db: lmdb::Database, key: &[u8], val: &[u8]) -> (r: Result<
    (),
    QueueError,
>)
    ensures
        match r {
            Ok(()) => write_view(*final(t), db) == write_view(*old(t), db).insert(key@, val@),
            Err(_) => write_view(*final(t), db) == write_view(*old(t), db),
        },
        forall|d2: lmdb::Database|
            d2 != db ==> write_view(*final(t), d2) == write_view(*old(t), d2),
{
    t.txn.put(db, &key, &val, lmdb::WriteFlags::empty()).map_err(QueueError::Store)
}

/// Relies on lmdb::RwTransaction::put with NO_OVERWRITE: stores the pair only
/// if the key is absent, failing with "key exists" otherwise; other
/// namespaces are untouched, and on failure nothing is changed.
#[verifier::external_body]
pub(crate) fn write_put_new(t: &mut WriteTxn, db: lmdb::Database, key: &[u8], val: &[u8]) -> (r: Result<
    (),
    QueueError,
>)
    ensures
        match r {
            Ok(()) => !write_view(*old(t), db).contains_key(key@) && write_view(*final(t), db)
                == write_view(*old(t), db).insert(key@, val@),
            Err(_) => write_view(*final(t), db) == write_view(*old(t), db),
        },
        write_view(*old(t), db).contains_key(key@) ==> r is Err,
        forall|d2: lmdb::Database|
            d2 != db ==> write_view(*final(t), d2) == write_view(*old(t), d2),
{
    t.txn.put(db, &key, &val, lmdb::WriteFlags::NO_OVERWRITE).map_err(QueueError::Store)
}

/// Relies on lmdb::RwTransaction::del: removes the pair at the key; absence
/// is signalled as "not found" (absorbed here: removing an absent key is a
/// no-op). Other namespaces are untouched, and on failure nothing is changed.
#[verifier::external_body]
pub(crate) fn write_del(t: &mut WriteTxn, db: lmdb::Database, key: &[u8]) -> (r: Result<
    (),
    QueueError,
>)
    ensures
        match r {
            Ok(()) => write_view(*final(t), db) == write_view(*old(t), db).remove(key@),
            Err(_) => write_view(*final(t), db) == write_view(*old(t), db),
        },
        forall|d2: lmdb::Database|
            d2 != db ==> write_view(*final(t), d2) == write_view(*old(t), d2),
{
    match t.txn.del(db, &key, None) {
        Ok(()) => Ok(()),
        Err(lmdb::Error::NotFound) => Ok(()),
        Err(e) => Err(QueueError::Store(e)),
    }
}

/// Relies on lmdb::RwTransaction::commit (through lmdb::Transaction): makes
/// every write of the transaction durable and visible atomically, or fails
/// and leaves the committed state unchanged. Durability is a property of the
/// files on disk, so nothing is stated here.
#[verifier::external_body]
pub(crate) fn commit_write(t: WriteTxn) -> (r: Result<(), QueueError>) {
    t.txn.commit().map_err(QueueError::Store)
}

} // verus!
