//! Trusted wrappers around the `sled` key-value store. A store's
//! contents are named by `store_view`, a map from byte keys to byte
//! values; every wrapper states its effect on that map.

use vstd::prelude::*;

verus! {

#[verifier::external_type_specification]
#[verifier::external_body]
pub struct ExDb(sled::Db);

#[verifier::external_type_specification]
#[verifier::external_body]
pub struct ExSledError(sled::Error);

/// The full key-value contents of a store handle.
pub uninterp spec fn store_view(db: sled::Db) -> Map<Seq<u8>, Seq<u8>>;

/// Relies on sled::open: a handle to the tree stored at `path`. Nothing
/// is promised of its contents: they are whatever is on disk.
#[verifier::external_body]
pub fn store_open(path: &str) -> (r: Result<sled::Db, sled::Error>)
{
    sled::open(path)
}

/// Relies on sled::Tree::get: the value at `key` among the contents, if
/// the read succeeds.
#[verifier::external_body]
pub fn store_get(db: &sled::Db, key: &[u8]) -> (r: Result<Option<Vec<u8>>, sled::Error>)
    ensures
        match r {
            Ok(found) => match found {
                Some(v) => store_view(*db).contains_key(key@) && store_view(*db)[key@] == v@,
                None => !store_view(*db).contains_key(key@),
            },
            Err(_) => true,
        },
{
    match db.get(key) {
        Ok(Some(v)) => Ok(Some(v.to_vec())),
        Ok(None) => Ok(None),
        Err(e) => Err(e),
    }
}

/// Relies on sled::Tree::insert: on success the contents map `key` to
/// `value` and are otherwise unchanged; after an error they are left
/// unspecified.
#[verifier::external_body]
pub fn store_insert(db: &mut sled::Db, key: &[u8], value: &[u8]) -> (r: Result<(), sled::Error>)
    ensures
        r is Ok ==> store_view(*final(db)) == store_view(*old(db)).insert(key@, value@),
{
    match (&*db).insert(key, value) {
        Ok(_) => Ok(()),
        Err(e) => Err(e),
    }
}

/// Relies on sled::Tree::flush: syncs to disk and leaves the contents as
/// they are.
#[verifier::external_body]
pub fn store_flush(db: &mut sled::Db) -> (r: Result<(), sled::Error>)
    ensures
        r is Ok ==> store_view(*final(db)) == store_view(*old(db)),
{
    match (&*db).flush() {
        Ok(_) => Ok(()),
        Err(e) => Err(e),
    }
}

/// Relies on sled::Tree::iter: every entry of the contents, each exactly
/// once; an error on any step is reported instead.
#[verifier::external_body]
pub fn store_entries(db: &sled::Db) -> (r: Result<Vec<(Vec<u8>, Vec<u8>)>, sled::Error>)
    ensures
        match r {
            Ok(entries) => {
                &&& forall|i: int|
                    0 <= i < entries@.len() ==> store_view(*db).contains_key(
                        #[trigger] entries@[i].0@,
                    ) && store_view(*db)[entries@[i].0@] == entries@[i].1@
                &&& forall|k: Seq<u8>|
                    store_view(*db).dom().contains(k) ==> exists|i: int|
                        0 <= i < entries@.len() && #[trigger] entries@[i].0@ == k
                &&& forall|i: int, j: int|
                    0 <= i < j < entries@.len() ==> entries@[i].0@ != entries@[j].0@
            },
            Err(_) => true,
        },
{
    let mut out = Vec::new();
    for item in db.iter() {
        match item {
            Ok((k, v)) => out.push((k.to_vec(), v.to_vec())),
            Err(e) => {
                return Err(e);
            },
        }
    }
    Ok(out)
}

} // verus!
