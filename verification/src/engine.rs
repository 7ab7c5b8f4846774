//! The ordered byte-keyed storage engine, consumed as a black box: sled
//! trees over a durable on-disk database.  Everything the library assumes of
//! the engine is stated here, on a handful of trusted bindings; the model of
//! a tree is the map [`tree_entries`] from key bytes to value bytes.

use vstd::prelude::*;
use crate::order::is_sorted_matching;
use crate::table::kv_view;

verus! {

#[verifier::external_type_specification]
#[verifier::external_body]
pub struct ExDb(sled::Db);

#[verifier::external_type_specification]
#[verifier::external_body]
pub struct ExTree(sled::Tree);

#[verifier::external_type_specification]
#[verifier::external_body]
pub struct ExSledError(sled::Error);

/// The entries a tree holds, as a map from key bytes to value bytes.
pub uninterp spec fn tree_entries(t: sled::Tree) -> Map<Seq<u8>, Seq<u8>>;

/// Relies on sled::open: opens the embedded database at the path, creating
/// it if absent.  Nothing is assumed about what its trees hold.
#[verifier::external_body]
pub(crate) fn sled_open(path: &str) -> (r: Result<sled::Db, sled::Error>)
{
    sled::open(std::path::Path::new(path))
}

/// Relies on sled::Db::open_tree: opens the named tree of the database,
/// creating it if absent.  Its entries are whatever the disk holds.
#[verifier::external_body]
pub(crate) fn tree_open(db: &sled::Db, name: &str) -> (r: Result<sled::Tree, sled::Error>)
{
    db.open_tree(name)
}

/// Relies on sled::Tree::insert: sets the key to the value (the previous
/// value, if any, is overwritten).  The operation touches no other key: it
/// reads a view for the key and attaches one single-key link, so even on an
/// error the tree holds either its old entries or the old entries with this
/// one key set, depending on whether the failure struck before or after the
/// write landed.
#[verifier::external_body]
pub(crate) fn tree_insert(t: &mut sled::Tree, key: &[u8], value: &[u8]) -> (r: Result<
    (),
    sled::Error,
>)
    ensures
        r is Ok ==> tree_entries(*final(t)) == tree_entries(*old(t)).insert(key@, value@),
        r is Err ==> tree_entries(*final(t)) == tree_entries(*old(t))
            || tree_entries(*final(t)) == tree_entries(*old(t)).insert(key@, value@),
{
    match t.insert(key, value) {
        Ok(_prev) => Ok(()),
        Err(e) => Err(e),
    }
}

/// Relies on sled::Tree::get: retrieves the value for a key; on success the
/// answer is `Some` exactly when the tree holds the key.
#[verifier::external_body]
pub(crate) fn tree_get(t: &sled::Tree, key: &[u8]) -> (r: Result<Option<Vec<u8>>, sled::Error>)
    ensures
        r matches Ok(o) ==> match o {
            Some(v) => tree_entries(*t).contains_key(key@)
                && v@ == tree_entries(*t)[key@],
            None => !tree_entries(*t).contains_key(key@),
        },
{
    match t.get(key) {
        Ok(Some(iv)) => Ok(Some(iv.to_vec())),
        Ok(None) => Ok(None),
        Err(e) => Err(e),
    }
}

/// Relies on sled::Tree::scan_prefix: iterates, in ascending lexicographic
/// key order, over every entry whose key begins with the prefix.  On success
/// the collected list is the ordered prefix snapshot of the tree.
#[verifier::external_body]
pub(crate) fn tree_scan_prefix(t: &sled::Tree, prefix: &[u8]) -> (r: Result<
    Vec<(Vec<u8>, Vec<u8>)>,
    sled::Error,
>)
    ensures
        r matches Ok(es) ==> is_sorted_matching(kv_view(es@), tree_entries(*t), prefix@),
{
    let mut out: Vec<(Vec<u8>, Vec<u8>)> = Vec::new();
    for item in t.scan_prefix(prefix) {
        let (k, v) = item?;
        out.push((k.to_vec(), v.to_vec()));
    }
    Ok(out)
}

/// Relies on sled::Tree::clear: removes every entry of the tree.  On an
/// error the tree is left in an unknown state.
#[verifier::external_body]
pub(crate) fn tree_clear(t: &mut sled::Tree) -> (r: Result<(), sled::Error>)
    ensures
        r is Ok ==> tree_entries(*final(t)) =~= Map::empty(),
{
    t.clear()
}

} // verus!
