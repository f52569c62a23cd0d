//! The four persisted records of the header chain, as they lie in a
//! `cosmwasm_std::MemoryStorage` under the containers of `cw_storage_plus`.
//!
//! Nothing in this module is proved: each function is one call into those
//! crates, and its contract says what the call does to the four records.

use vstd::prelude::*;
use cosmwasm_std::MemoryStorage;
use cw_storage_plus::Item;

verus! {

#[verifier::external_type_specification]
#[verifier::external_body]
pub struct ExMemoryStorage(MemoryStorage);

/// What the map of headers by block hash holds: the bytes that can be loaded
/// under each hash.
pub uninterp spec fn stored_headers(storage: MemoryStorage) -> Map<Seq<u8>, Seq<u8>>;

/// What the map of heights by block hash holds: the height that can be
/// loaded under each hash.
pub uninterp spec fn stored_heights(storage: MemoryStorage) -> Map<Seq<u8>, u64>;

/// What the base header record holds: the bytes that can be loaded from it,
/// if any can.
pub uninterp spec fn stored_base(storage: MemoryStorage) -> Option<Seq<u8>>;

/// What the tip record holds: the bytes that can be loaded from it, if any
/// can.
pub uninterp spec fn stored_tip(storage: MemoryStorage) -> Option<Seq<u8>>;

/// What the storage holds besides the four records: the bytes under every
/// key that is none of theirs.
pub uninterp spec fn stored_elsewhere(storage: MemoryStorage) -> Map<Seq<u8>, Seq<u8>>;

/// The four records together, and what the storage holds besides them.
pub struct StoreView {
    pub headers: Map<Seq<u8>, Seq<u8>>,
    pub heights: Map<Seq<u8>, u64>,
    pub base: Option<Seq<u8>>,
    pub tip: Option<Seq<u8>>,
    pub other: Map<Seq<u8>, Seq<u8>>,
}

pub open spec fn store_view(storage: MemoryStorage) -> StoreView {
    StoreView {
        headers: stored_headers(storage),
        heights: stored_heights(storage),
        base: stored_base(storage),
        tip: stored_tip(storage),
        other: stored_elsewhere(storage),
    }
}

/// `Map::save` of `cw_storage_plus`, on the map "btc_lc_headers": afterwards the
/// map holds `bytes` under `hash` and is otherwise as before; it holds finitely
/// many entries; the other three records and what else is stored are untouched.
#[verifier::external_body]
pub(crate) fn headers_save(storage: &mut MemoryStorage, hash: &[u8], bytes: &Vec<u8>)
    ensures
        stored_headers(*final(storage)) == stored_headers(*old(storage)).insert(hash@, bytes@),
        stored_headers(*final(storage)).dom().finite(),
        stored_heights(*final(storage)) == stored_heights(*old(storage)),
        stored_base(*final(storage)) == stored_base(*old(storage)),
        stored_tip(*final(storage)) == stored_tip(*old(storage)),
        stored_elsewhere(*final(storage)) == stored_elsewhere(*old(storage)),
{
    let _ = cw_storage_plus::Map::<&[u8], Vec<u8>>::new("btc_lc_headers").save(storage, hash, bytes);
}

/// `Map::load` of `cw_storage_plus`, on the map "btc_lc_headers": the bytes held
/// under `hash`, or `None` where the map holds nothing there.
#[verifier::external_body]
pub(crate) fn headers_load(storage: &MemoryStorage, hash: &[u8]) -> (found: Option<Vec<u8>>)
    ensures
        match found {
            Some(bytes) => stored_headers(*storage).contains_key(hash@)
                && stored_headers(*storage)[hash@] == bytes@,
            None => !stored_headers(*storage).contains_key(hash@),
        },
{
    cw_storage_plus::Map::<&[u8], Vec<u8>>::new("btc_lc_headers").load(storage, hash).ok()
}

/// `Map::remove` of `cw_storage_plus`, on the map "btc_lc_headers": afterwards
/// the map holds nothing under `hash` and is otherwise as before; it holds
/// finitely many entries; the other three records and what else is stored are untouched.
#[verifier::external_body]
pub(crate) fn headers_remove(storage: &mut MemoryStorage, hash: &[u8])
    ensures
        stored_headers(*final(storage)) == stored_headers(*old(storage)).remove(hash@),
        stored_headers(*final(storage)).dom().finite(),
        stored_heights(*final(storage)) == stored_heights(*old(storage)),
        stored_base(*final(storage)) == stored_base(*old(storage)),
        stored_tip(*final(storage)) == stored_tip(*old(storage)),
        stored_elsewhere(*final(storage)) == stored_elsewhere(*old(storage)),
{
    cw_storage_plus::Map::<&[u8], Vec<u8>>::new("btc_lc_headers").remove(storage, hash);
}

/// `Map::save` of `cw_storage_plus`, on the map "btc_lc_heights": afterwards the
/// map holds `height` under `hash` and is otherwise as before; the other three
/// records and what else is stored are untouched.
#[verifier::external_body]
pub(crate) fn heights_save(storage: &mut MemoryStorage, hash: &[u8], height: u64)
    ensures
        stored_heights(*final(storage)) == stored_heights(*old(storage)).insert(hash@, height),
        stored_headers(*final(storage)) == stored_headers(*old(storage)),
        stored_base(*final(storage)) == stored_base(*old(storage)),
        stored_tip(*final(storage)) == stored_tip(*old(storage)),
        stored_elsewhere(*final(storage)) == stored_elsewhere(*old(storage)),
{
    let _ = cw_storage_plus::Map::<&[u8], u64>::new("btc_lc_heights").save(storage, hash, &height);
}

/// `Map::load` of `cw_storage_plus`, on the map "btc_lc_heights": the height held
/// under `hash`, or `None` where the map holds nothing there.
#[verifier::external_body]
pub(crate) fn heights_load(storage: &MemoryStorage, hash: &[u8]) -> (found: Option<u64>)
    ensures
        match found {
            Some(height) => stored_heights(*storage).contains_key(hash@)
                && stored_heights(*storage)[hash@] == height,
            None => !stored_heights(*storage).contains_key(hash@),
        },
{
    cw_storage_plus::Map::<&[u8], u64>::new("btc_lc_heights").load(storage, hash).ok()
}

/// `Map::remove` of `cw_storage_plus`, on the map "btc_lc_heights": afterwards
/// the map holds nothing under `hash` and is otherwise as before; the other
/// three records and what else is stored are untouched.
#[verifier::external_body]
pub(crate) fn heights_remove(storage: &mut MemoryStorage, hash: &[u8])
    ensures
        stored_heights(*final(storage)) == stored_heights(*old(storage)).remove(hash@),
        stored_headers(*final(storage)) == stored_headers(*old(storage)),
        stored_base(*final(storage)) == stored_base(*old(storage)),
        stored_tip(*final(storage)) == stored_tip(*old(storage)),
        stored_elsewhere(*final(storage)) == stored_elsewhere(*old(storage)),
{
    cw_storage_plus::Map::<&[u8], u64>::new("btc_lc_heights").remove(storage, hash);
}

/// `Item::save` of `cw_storage_plus`, on the item "btc_lc_header_base":
/// afterwards the record holds `bytes`; the other three records and what else is stored are untouched.
#[verifier::external_body]
pub(crate) fn base_save(storage: &mut MemoryStorage, bytes: &Vec<u8>)
    ensures
        stored_base(*final(storage)) == Some(bytes@),
        stored_headers(*final(storage)) == stored_headers(*old(storage)),
        stored_heights(*final(storage)) == stored_heights(*old(storage)),
        stored_tip(*final(storage)) == stored_tip(*old(storage)),
        stored_elsewhere(*final(storage)) == stored_elsewhere(*old(storage)),
{
    let _ = Item::<Vec<u8>>::new("btc_lc_header_base").save(storage, bytes);
}

/// `Item::load` of `cw_storage_plus`, on the item "btc_lc_header_base": the bytes
/// that the record holds, or `None` where it was never written.
#[verifier::external_body]
pub(crate) fn base_load(storage: &MemoryStorage) -> (found: Option<Vec<u8>>)
    ensures
        match found {
            Some(bytes) => stored_base(*storage) == Some(bytes@),
            None => stored_base(*storage).is_none(),
        },
{
    Item::<Vec<u8>>::new("btc_lc_header_base").load(storage).ok()
}

/// `Item::save` of `cw_storage_plus`, on the item "btc_lc_tip": afterwards the
/// record holds `bytes`; the other three records and what else is stored are untouched.
#[verifier::external_body]
pub(crate) fn tip_save(storage: &mut MemoryStorage, bytes: &Vec<u8>)
    ensures
        stored_tip(*final(storage)) == Some(bytes@),
        stored_headers(*final(storage)) == stored_headers(*old(storage)),
        stored_heights(*final(storage)) == stored_heights(*old(storage)),
        stored_base(*final(storage)) == stored_base(*old(storage)),
        stored_elsewhere(*final(storage)) == stored_elsewhere(*old(storage)),
{
    let _ = Item::<Vec<u8>>::new("btc_lc_tip").save(storage, bytes);
}

/// `Item::load` of `cw_storage_plus`, on the item "btc_lc_tip": the bytes that
/// the record holds, or `None` where it was never written.
#[verifier::external_body]
pub(crate) fn tip_load(storage: &MemoryStorage) -> (found: Option<Vec<u8>>)
    ensures
        match found {
            Some(bytes) => stored_tip(*storage) == Some(bytes@),
            None => stored_tip(*storage).is_none(),
        },
{
    Item::<Vec<u8>>::new("btc_lc_tip").load(storage).ok()
}

} // verus!
