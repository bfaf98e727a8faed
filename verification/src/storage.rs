use vstd::prelude::*;

verus! {

// ---------------------------------------------------------------------------
// The durable key-value boundary.
//
// The ledger treats its store as an opaque byte-keyed mapping with get,
// insert and flush. The sled tree that backs it is declared below, and each
// call the ledger makes goes through one wrapper whose contract speaks of
// the mapping the tree holds.
// ---------------------------------------------------------------------------

#[verifier::external_type_specification]
#[verifier::external_body]
pub struct ExDb(sled::Db);

#[verifier::external_type_specification]
#[verifier::external_body]
pub struct ExSledError(sled::Error);

/// The mapping a tree holds, from byte keys to byte values.
pub uninterp spec fn db_view(db: sled::Db) -> Map<Seq<u8>, Seq<u8>>;

/// Relies on sled::open: opens, creating it if absent, the tree stored at
/// the given path. What the opened tree holds depends on the disk, so
/// nothing is promised of its mapping.
#[verifier::external_body]
pub fn db_open(path: &str) -> (r: Result<sled::Db, sled::Error>) {
    sled::open(path)
}

/// Relies on sled::Tree::get: returns the value stored at the key, if any.
#[verifier::external_body]
pub fn db_get(db: &sled::Db, key: &[u8]) -> (r: Result<Option<Vec<u8>>, sled::Error>)
    ensures
        r matches Ok(v) ==> (match v {
            Some(b) => db_view(*db).contains_key(key@) && b@ == db_view(*db)[key@],
            None => !db_view(*db).contains_key(key@),
        }),
{
    match db.get(key) {
        Ok(Some(iv)) => Ok(Some(iv.to_vec())),
        Ok(None) => Ok(None),
        Err(e) => Err(e),
    }
}

/// Relies on sled::Tree::insert: maps the key to the value; any previous
/// value at that key is replaced. After a failure nothing is promised of the
/// mapping.
#[verifier::external_body]
pub fn db_insert(db: &mut sled::Db, key: &[u8], value: &Vec<u8>) -> (r: Result<(), sled::Error>)
    ensures
        r matches Ok(_) ==> db_view(*final(db)) == db_view(*old(db)).insert(key@, value@),
{
    match (&*db).insert(key, value.clone()) {
        Ok(_) => Ok(()),
        Err(e) => Err(e),
    }
}

/// Relies on sled::Tree::flush: forces pending writes to disk; the mapping
/// itself is unchanged.
#[verifier::external_body]
pub fn db_flush(db: &mut sled::Db) -> (r: Result<(), sled::Error>)
    ensures
        db_view(*final(db)) == db_view(*old(db)),
{
    match (&*db).flush() {
        Ok(_) => Ok(()),
        Err(e) => Err(e),
    }
}

} // verus!
