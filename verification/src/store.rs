//! The store: a map from byte keys to byte values, kept in a `DashMap`.
//!
//! The contracts here speak of the store through the map that it holds.
//! They are stated for a caller that has the store to itself for the length
//! of a call, which is what `&mut` says.

use vstd::prelude::*;

verus! {

/// The store that commands read and write.
pub type DB = dashmap::DashMap<Vec<u8>, Vec<u8>>;

/// `dashmap::DashMap`, of which nothing is known here but what the items
/// below say.
#[verifier::external_type_specification]
#[verifier::external_body]
#[verifier::reject_recursive_types(K)]
#[verifier::reject_recursive_types(V)]
#[verifier::reject_recursive_types(S)]
pub struct ExDashMap<K, V, S>(dashmap::DashMap<K, V, S>);

/// The entries of the store: which value stands under which key.
pub uninterp spec fn store_map(db: dashmap::DashMap<Vec<u8>, Vec<u8>>) -> Map<Seq<u8>, Seq<u8>>;

/// `DashMap::insert`: afterwards the key holds the value, an earlier value
/// under that key is gone, and every other entry is as it was.
#[verifier::external_body]
pub(crate) fn store_insert(db: &mut DB, key: Vec<u8>, value: Vec<u8>)
    ensures
        store_map(*final(db)) == store_map(*old(db)).insert(key@, value@),
{
    db.insert(key, value);
}

/// `DashMap::get`, with the value copied out: the value under the key if
/// the store holds one, and the store is as it was.
#[verifier::external_body]
pub(crate) fn store_get(db: &mut DB, key: &[u8]) -> (r: Option<Vec<u8>>)
    ensures
        store_map(*final(db)) == store_map(*old(db)),
        match r {
            Some(value) => store_map(*old(db)).contains_key(key@) && value@ == store_map(
                *old(db),
            )[key@],
            None => !store_map(*old(db)).contains_key(key@),
        },
{
    match db.get(key) {
        Some(entry) => Some(entry.value().clone()),
        None => None,
    }
}

} // verus!
