//! The key-value store that every structure is built on: a durable mapping
//! from byte strings to byte strings with single-key atomic operations,
//! backed by a `sled` database.
//!
//! The store's logical contents are modelled as a `Map<Seq<u8>, Seq<u8>>`
//! through the uninterpreted `db_contents`. The three primitive operations
//! are trusted wrappers around `sled`; all layers above them are verified
//! against this model.
use vstd::prelude::*;

verus! {

#[verifier::external_type_specification]
#[verifier::external_body]
pub struct ExDb(sled::Db);

/// The mapping from keys to values that the database currently holds.
pub uninterp spec fn db_contents(db: sled::Db) -> Map<Seq<u8>, Seq<u8>>;

/// A handle to the underlying key-value store.
///
/// The model is sound only while this handle is the sole route to the
/// underlying database: the store is single-key atomic and offers no
/// coordination between handles, so a caller must not keep other clones of
/// the `sled::Db` it hands over.
pub struct Store {
    pub db: sled::Db,
}

impl View for Store {
    type V = Map<Seq<u8>, Seq<u8>>;

    open spec fn view(&self) -> Map<Seq<u8>, Seq<u8>> {
        db_contents(self.db)
    }
}

/// True when `m1` and `m2` agree on every key whose membership in `ks` is
/// not given; the footprint of an operation.
pub open spec fn agrees_except(
    m1: Map<Seq<u8>, Seq<u8>>,
    m2: Map<Seq<u8>, Seq<u8>>,
    ks: Set<Seq<u8>>,
) -> bool {
    forall|k: Seq<u8>|
        !ks.contains(k) ==> (#[trigger] m1.contains_key(k) <==> m2.contains_key(k)) && (
        m1.contains_key(k) ==> m1[k] == m2[k])
}

/// Chains two footprint frames: steps confined to `small` stay confined
/// to any `big` that contains it.
pub proof fn agrees_trans(
    m0: Map<Seq<u8>, Seq<u8>>,
    m1: Map<Seq<u8>, Seq<u8>>,
    m2: Map<Seq<u8>, Seq<u8>>,
    small: Set<Seq<u8>>,
    big: Set<Seq<u8>>,
)
    requires
        agrees_except(m0, m1, big),
        agrees_except(m1, m2, small),
        small.subset_of(big),
    ensures
        agrees_except(m0, m2, big),
{
}

impl Store {
    /// Wraps an already-opened database; its contents are whatever the
    /// database already holds.
    ///
    /// Callers must hand over the only handle and must not reach the
    /// database around this store afterwards (the handle is cheaply
    /// clonable on the database's side): the model describes the store's
    /// contents only while every operation goes through these methods.
    pub fn new(db: sled::Db) -> (s: Store)
        ensures
            s@ == db_contents(db),
    {
        Store { db }
    }

    /// Sets `key` to `value`.
    ///
    /// Relies on `sled::Tree::insert`: a single-key atomic update that maps
    /// `key` to `value`; on failure the key either was updated or was left
    /// as it stood, and no other key is touched.
    #[verifier::external_body]
    pub fn insert(&mut self, key: &[u8], value: &[u8]) -> (r: Result<bool, String>)
        ensures
            r is Ok ==> db_contents(final(self).db) == db_contents(old(self).db).insert(key@, value@),
            r is Err ==> db_contents(final(self).db) == db_contents(old(self).db)
                || db_contents(final(self).db) == db_contents(old(self).db).insert(key@, value@),
    {
        match self.db.insert(key, value) {
            Ok(_) => Ok(true),
            Err(e) => Err(format!("{:?}", e)),
        }
    }

    /// Reads the value stored under `key`, if any.
    ///
    /// Relies on `sled::Tree::get`: returns the value most recently written
    /// under `key`, or `None` when the key is absent.
    #[verifier::external_body]
    pub fn get(&self, key: &[u8]) -> (r: Result<Option<Vec<u8>>, String>)
        ensures
            r matches Ok(v) ==> (v is Some <==> db_contents(self.db).contains_key(key@)),
            r matches Ok(Some(bs)) ==> bs@ == db_contents(self.db)[key@],
    {
        match self.db.get(key) {
            Ok(Some(v)) => Ok(Some(v.to_vec())),
            Ok(None) => Ok(None),
            Err(e) => Err(format!("{:?}", e)),
        }
    }

    /// Removes `key`.
    ///
    /// Relies on `sled::Tree::remove`: a single-key atomic removal; on
    /// failure the key either was removed or was left as it stood, and no
    /// other key is touched.
    #[verifier::external_body]
    pub fn delete(&mut self, key: &[u8]) -> (r: Result<bool, String>)
        ensures
            r is Ok ==> db_contents(final(self).db) == db_contents(old(self).db).remove(key@),
            r is Err ==> db_contents(final(self).db) == db_contents(old(self).db)
                || db_contents(final(self).db) == db_contents(old(self).db).remove(key@),
    {
        match self.db.remove(key) {
            Ok(_) => Ok(true),
            Err(e) => Err(format!("{:?}", e)),
        }
    }
}

} // verus!
