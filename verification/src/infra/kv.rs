//! Read access to LMDB key/value stores.
//!
//! What a store holds lives on disk, so nothing is promised about what a
//! lookup answers: callers are verified for every answer.
use vstd::prelude::*;

verus! {

#[verifier::external_type_specification]
#[verifier::external_body]
pub struct ExEnvironment(lmdb::Environment);

#[verifier::external_type_specification]
#[verifier::external_body]
pub struct ExDatabase(lmdb::Database);

#[verifier::external_type_specification]
#[verifier::external_body]
pub struct ExRoTransaction<'env>(lmdb::RoTransaction<'env>);

#[verifier::external_type_specification]
#[verifier::external_body]
pub struct ExRoCursor<'txn>(lmdb::RoCursor<'txn>);

/// Opens the named database of `env` with `lmdb::Environment::open_db`;
/// `None` when LMDB reports an error (for instance when it does not exist).
/// Nothing is stated of the outcome: it depends on the files on disk.  The
/// name is turned into a C string, which panics on a NUL character: such
/// names are left out.
#[verifier::external_body]
pub(crate) fn open_named_db(env: &lmdb::Environment, name: &str) -> (r: Option<lmdb::Database>)
    requires
        !name@.contains('\0'),
{
    env.open_db(Some(name)).ok()
}

/// Starts a read-only transaction with `lmdb::Environment::begin_ro_txn`;
/// `None` when LMDB reports an error.  Nothing is stated of the outcome.
#[verifier::external_body]
pub(crate) fn begin_read<'env>(env: &'env lmdb::Environment) -> (r: Option<lmdb::RoTransaction<'env>>) {
    env.begin_ro_txn().ok()
}

/// Whether `key` is stored in `db`, by `lmdb::Transaction::get` (any error,
/// including "not found", answers `false`).  Nothing is stated of the answer:
/// it depends on what is on disk.
#[verifier::external_body]
pub(crate) fn txn_has_key(txn: &lmdb::RoTransaction, db: lmdb::Database, key: &[u8]) -> (r: bool) {
    lmdb::Transaction::get(txn, db, &key).is_ok()
}

/// The value stored under `key` in `db`, copied out of the transaction, by
/// `lmdb::Transaction::get`; `None` on any error, "not found" included.
/// Nothing is stated of the answer: it depends on what is on disk.
#[verifier::external_body]
pub(crate) fn txn_get_value(txn: &lmdb::RoTransaction, db: lmdb::Database, key: &[u8]) -> (r: Option<Vec<u8>>) {
    match lmdb::Transaction::get(txn, db, &key) {
        Ok(v) => Some(v.to_vec()),
        Err(_) => None,
    }
}

/// Opens a read-only cursor on `db` with `lmdb::Transaction::open_ro_cursor`;
/// `None` when LMDB reports an error.  Nothing is stated of the outcome.
#[verifier::external_body]
pub(crate) fn open_cursor<'txn>(txn: &'txn lmdb::RoTransaction, db: lmdb::Database) -> (r: Option<lmdb::RoCursor<'txn>>) {
    lmdb::Transaction::open_ro_cursor(txn, db).ok()
}

/// `lmdb::Cursor::get` with the operation `MDB_SET_RANGE`: positions the
/// cursor at the first entry whose key is at or after `key` and answers
/// copies of that entry's key and value; `None` when there is no such entry
/// or LMDB reports an error.  Nothing is stated of the answer: it depends on
/// what is on disk.
#[verifier::external_body]
pub(crate) fn cursor_seek_at_or_after(cursor: &lmdb::RoCursor, key: &[u8]) -> (r: Option<(Vec<u8>, Vec<u8>)>) {
    match lmdb::Cursor::get(cursor, Some(key), None, lmdb_sys::MDB_SET_RANGE) {
        Ok((Some(k), v)) => Some((k.to_vec(), v.to_vec())),
        _ => None,
    }
}

} // verus!
