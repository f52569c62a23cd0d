//! The header chain: the base header, the tip, and every known header and
//! its height by block hash, kept in a key-value store.

use vstd::prelude::*;
use cosmwasm_std::MemoryStorage;
use crate::block::BlockHeader;
use crate::block::ChainParams;
use crate::block::Network;
use crate::block::block_hash;
use crate::block::block_hash_of;
use crate::block::decoded_header;
use crate::block::get_chain_params;
use crate::block::header_pow_ok;
use crate::block::next_header_ok;
use crate::block::verify_header_pow;
use crate::block::verify_next_header_pow;
use crate::block::work_follows;
use crate::block::work_of_bits;
use crate::block::pow_limit_of;
use crate::block::allows_min_difficulty;
use crate::bytes::be_le;
use crate::bytes::be_value;
use crate::bytes::bytes_eq;
use crate::bytes::copy_bytes;
use crate::error::BTCLightclientError;
use crate::error::ErrorView;
use crate::error::hex_encode;
use crate::error::hex_text;
use crate::header_info::HeaderInfo;
use crate::header_info::HeaderInfoView;
use crate::header_info::decoded;
use crate::header_info::encoded;
use crate::header_info::views;
use crate::storage::StoreView;
use crate::storage::store_view;
use crate::storage::stored_base;
use crate::storage::stored_headers;
use crate::storage::stored_heights;
use crate::storage::stored_tip;
use crate::storage::base_load;
use crate::storage::base_save;
use crate::storage::headers_load;
use crate::storage::headers_remove;
use crate::storage::headers_save;
use crate::storage::heights_load;
use crate::storage::heights_remove;
use crate::storage::heights_save;
use crate::storage::tip_load;
use crate::storage::tip_save;

verus! {

/// The settings that the chain is run under.
#[derive(Clone, Debug, PartialEq, Eq)]
pub struct Config {
    /// The Bitcoin network whose headers are followed.
    pub network: Network,
    /// The tag that opens the checkpoint payloads meant for this chain.
    pub babylon_tag: Vec<u8>,
    pub btc_confirmation_depth: u64,
    /// The number of headers that must follow the base header at initialisation.
    pub checkpoint_finalization_timeout: u64,
    pub notify_cosmos_zone: bool,
}

/// An outcome as plain values: the header or the error.
pub open spec fn header_outcome(outcome: Result<HeaderInfo, BTCLightclientError>) -> Result<
    HeaderInfoView,
    ErrorView,
> {
    match outcome {
        Ok(info) => Ok(info@),
        Err(e) => Err(e@),
    }
}

/// An outcome as plain values: the error, if there is one.
pub open spec fn failure(outcome: Result<(), BTCLightclientError>) -> Option<ErrorView> {
    match outcome {
        Ok(_) => None,
        Err(e) => Some(e@),
    }
}

/// What a record that holds one persisted header reads as.
pub open spec fn record_header(record: Option<Seq<u8>>) -> Result<HeaderInfoView, ErrorView> {
    match record {
        None => Err(ErrorView::NotInitialized),
        Some(bytes) => match decoded(bytes) {
            None => Err(ErrorView::DecodeError),
            Some(info) => Ok(info),
        },
    }
}

/// What is found under `hash` in the map of headers.
pub open spec fn lookup(headers: Map<Seq<u8>, Seq<u8>>, hash: Seq<u8>) -> Result<
    HeaderInfoView,
    ErrorView,
> {
    if !headers.contains_key(hash) {
        Err(ErrorView::BTCHeaderNotFoundError { hash: hex_text(hash) })
    } else {
        match decoded(headers[hash]) {
            None => Err(ErrorView::BTCHeaderDecodeError),
            Some(info) => Ok(info),
        }
    }
}

/// The height found under `hash` in the map of heights.
pub open spec fn height_of(heights: Map<Seq<u8>, u64>, hash: Seq<u8>) -> Option<u64> {
    if heights.contains_key(hash) {
        Some(heights[hash])
    } else {
        None
    }
}

/// Whether the chain has been initialised: whether the base header is there.
pub fn is_initialized(storage: &MemoryStorage) -> (yes: bool)
    ensures
        yes == stored_base(*storage).is_some(),
{
    base_load(storage).is_some()
}

/// The base header: the oldest header of the chain.
pub fn get_base_header(storage: &MemoryStorage) -> (base: Result<HeaderInfo, BTCLightclientError>)
    ensures
        header_outcome(base) == record_header(stored_base(*storage)),
{
    match base_load(storage) {
        None => Err(BTCLightclientError::NotInitialized),
        Some(bytes) => match HeaderInfo::decode(bytes.as_slice()) {
            None => Err(BTCLightclientError::DecodeError),
            Some(info) => Ok(info),
        },
    }
}

/// The tip: the header at the head of the chain.
pub fn get_tip(storage: &MemoryStorage) -> (tip: Result<HeaderInfo, BTCLightclientError>)
    ensures
        header_outcome(tip) == record_header(stored_tip(*storage)),
{
    match tip_load(storage) {
        None => Err(BTCLightclientError::NotInitialized),
        Some(bytes) => match HeaderInfo::decode(bytes.as_slice()) {
            None => Err(BTCLightclientError::DecodeError),
            Some(info) => Ok(info),
        },
    }
}

/// The header stored under `hash`.
pub fn get_header(storage: &MemoryStorage, hash: &[u8]) -> (found: Result<
    HeaderInfo,
    BTCLightclientError,
>)
    ensures
        header_outcome(found) == lookup(stored_headers(*storage), hash@),
{
    match headers_load(storage, hash) {
        None => Err(BTCLightclientError::BTCHeaderNotFoundError { hash: hex_encode(hash) }),
        Some(bytes) => match HeaderInfo::decode(bytes.as_slice()) {
            None => Err(BTCLightclientError::BTCHeaderDecodeError),
            Some(info) => Ok(info),
        },
    }
}

/// The height stored under `hash`.
pub fn get_height(storage: &MemoryStorage, hash: &[u8]) -> (found: Option<u64>)
    ensures
        found == height_of(stored_heights(*storage), hash@),
{
    heights_load(storage, hash)
}

/// The records after the base header was set.
pub open spec fn with_base(view: StoreView, base: HeaderInfoView) -> StoreView {
    StoreView { base: Some(encoded(base)), ..view }
}

/// The records after the tip was set.
pub open spec fn with_tip(view: StoreView, tip: HeaderInfoView) -> StoreView {
    StoreView { tip: Some(encoded(tip)), ..view }
}

/// The records after one header was stored under its hash, with its height.
pub open spec fn with_header(view: StoreView, info: HeaderInfoView) -> StoreView {
    StoreView {
        headers: view.headers.insert(info.hash, encoded(info)),
        heights: view.heights.insert(info.hash, info.height),
        ..view
    }
}

/// The records after the header under `hash` and its height were removed.
pub open spec fn without_header(view: StoreView, hash: Seq<u8>) -> StoreView {
    StoreView { headers: view.headers.remove(hash), heights: view.heights.remove(hash), ..view }
}

/// The records after the headers were stored one after another.
pub open spec fn with_headers(view: StoreView, headers: Seq<HeaderInfoView>) -> StoreView
    decreases headers.len(),
{
    if headers.len() == 0 {
        view
    } else {
        with_headers(with_header(view, headers[0]), headers.drop_first())
    }
}

fn set_base_header(storage: &mut MemoryStorage, base_header: &HeaderInfo)
    ensures
        store_view(*final(storage)) == with_base(store_view(*old(storage)), base_header@),
{
    let bytes = base_header.encode();
    base_save(storage, &bytes);
}

fn set_tip(storage: &mut MemoryStorage, tip: &HeaderInfo)
    ensures
        store_view(*final(storage)) == with_tip(store_view(*old(storage)), tip@),
{
    let bytes = tip.encode();
    tip_save(storage, &bytes);
}

/// Stores the headers, each under its hash, and their heights.
fn insert_headers(storage: &mut MemoryStorage, new_headers: &[HeaderInfo])
    ensures
        store_view(*final(storage)) == with_headers(store_view(*old(storage)), views(new_headers@)),
        new_headers@.len() > 0 ==> stored_headers(*final(storage)).dom().finite(),
{
    let mut i: usize = 0;
    assert(views(new_headers@).skip(0) =~= views(new_headers@));
    while i < new_headers.len()
        invariant
            i <= new_headers.len(),
            with_headers(store_view(*storage), views(new_headers@).skip(i as int)) == with_headers(
                store_view(*old(storage)),
                views(new_headers@),
            ),
            i > 0 ==> stored_headers(*storage).dom().finite(),
        decreases new_headers.len() - i,
    {
        let new_header = &new_headers[i];
        let bytes = new_header.encode();
        proof {
            let rest = views(new_headers@).skip(i as int);
            assert(rest[0] == new_header@);
            assert(rest.drop_first() =~= views(new_headers@).skip(i + 1));
        }
        headers_save(storage, new_header.hash.as_slice(), &bytes);
        heights_save(storage, new_header.hash.as_slice(), new_header.height);
        i += 1;
    }
}

/// The number that a run of decimal digits spells; `None` where the run is
/// empty or holds anything but digits.
pub open spec fn digits_value(digits: Seq<u8>) -> Option<nat>
    decreases digits.len(),
{
    if digits.len() == 0 || digits.last() < 48 || digits.last() > 57 {
        None
    } else if digits.len() == 1 {
        Some((digits.last() - 48) as nat)
    } else {
        match digits_value(digits.drop_last()) {
            Some(front) => Some(front * 10 + (digits.last() - 48) as nat),
            None => None,
        }
    }
}

/// The number that the accumulated work of a header spells: decimal digits,
/// after a plus sign or without one. `None` where the text is no such number
/// or the number is past what 256 bits hold.
pub open spec fn parsed_work(text: Seq<u8>) -> Option<nat> {
    let digits = if text.len() > 0 && text[0] == 43 {
        text.drop_first()
    } else {
        text
    };
    match digits_value(digits) {
        Some(number) => if number < vstd::arithmetic::power2::pow2(256) {
            Some(number)
        } else {
            None
        },
        None => None,
    }
}

/// `Uint256::from_str` of `cosmwasm_std`, on the text that `str::from_utf8`
/// reads from the bytes: the number that the decimal digits spell, after a
/// plus sign or without one, where 256 bits hold it; most significant byte
/// first.
#[verifier::external_body]
fn parse_work(text: &[u8]) -> (work: Option<[u8; 32]>)
    ensures
        match work {
            Some(w) => parsed_work(text@) == Some(be_value(w@)),
            None => parsed_work(text@) is None,
        },
{
    let digits = std::str::from_utf8(text).ok()?;
    let number: cosmwasm_std::Uint256 = std::str::FromStr::from_str(digits).ok()?;
    Some(number.to_be_bytes())
}

/// The fault in `header` as the successor of `parent`, if there is one: one of
/// the two cannot be decoded; or `header` does not carry its own hash, does
/// not follow `parent`, fails its proof of work, or is not one higher than
/// `parent`; or the accumulated work of one of the two is no number; or that
/// of `header` is not that of `parent` and the work of `header` together.
pub open spec fn link_fault(
    pow_limit: nat,
    allow_min_difficulty: bool,
    parent: HeaderInfoView,
    header: HeaderInfoView,
) -> Option<ErrorView> {
    match (decoded_header(parent.header), decoded_header(header.header)) {
        (Some(above), Some(decoded)) => if !(next_header_ok(
            pow_limit,
            allow_min_difficulty,
            above,
            decoded,
        ) && header.hash == block_hash_of(decoded) && header.height == parent.height + 1) {
            Some(ErrorView::BTCHeaderError)
        } else {
            match (parsed_work(parent.work), parsed_work(header.work)) {
                (Some(before), Some(after)) => if after == before + work_of_bits(decoded.bits) {
                    None
                } else {
                    Some(ErrorView::BTCHeaderError)
                },
                _ => Some(ErrorView::WorkError),
            }
        },
        _ => Some(ErrorView::BTCHeaderDecodeError),
    }
}

/// The first fault among `new_headers` when they are checked one after another
/// as a chain that starts after `first`, each as the successor of the one
/// before it. `None` where there is no fault.
pub open spec fn verify_headers_error(
    pow_limit: nat,
    allow_min_difficulty: bool,
    first: HeaderInfoView,
    new_headers: Seq<HeaderInfoView>,
) -> Option<ErrorView>
    decreases new_headers.len(),
{
    if new_headers.len() == 0 {
        None
    } else {
        match link_fault(pow_limit, allow_min_difficulty, first, new_headers[0]) {
            Some(e) => Some(e),
            None => verify_headers_error(
                pow_limit,
                allow_min_difficulty,
                new_headers[0],
                new_headers.drop_first(),
            ),
        }
    }
}

/// Checks `new_headers` as a chain that starts after `first_header`. Nothing
/// is written.
pub fn verify_headers(
    params: &ChainParams,
    first_header: &HeaderInfo,
    new_headers: &[HeaderInfo],
) -> (checked: Result<(), BTCLightclientError>)
    ensures
        failure(checked) == verify_headers_error(
            be_value(params.pow_limit@),
            params.allow_min_difficulty_blocks,
            first_header@,
            views(new_headers@),
        ),
{
    if new_headers.len() == 0 {
        return Ok(());
    }
    let mut parent = match BlockHeader::decode(first_header.header.as_slice()) {
        Some(header) => header,
        None => { return Err(BTCLightclientError::BTCHeaderDecodeError); },
    };
    let ghost mut last = first_header@;
    let mut last_height: u64 = first_header.height;
    let mut last_work: Option<[u8; 32]> = parse_work(first_header.work.as_slice());
    let mut i: usize = 0;
    assert(views(new_headers@).skip(0) =~= views(new_headers@));
    while i < new_headers.len()
        invariant
            i <= new_headers.len(),
            decoded_header(last.header) == Some(parent),
            last.height == last_height,
            match last_work {
                Some(w) => parsed_work(last.work) == Some(be_value(w@)),
                None => parsed_work(last.work) is None,
            },
            verify_headers_error(
                be_value(params.pow_limit@),
                params.allow_min_difficulty_blocks,
                last,
                views(new_headers@).skip(i as int),
            ) == verify_headers_error(
                be_value(params.pow_limit@),
                params.allow_min_difficulty_blocks,
                first_header@,
                views(new_headers@),
            ),
        decreases new_headers.len() - i,
    {
        let new_header = &new_headers[i];
        proof {
            let rest = views(new_headers@).skip(i as int);
            assert(rest[0] == new_header@);
            assert(rest.drop_first() =~= views(new_headers@).skip(i + 1));
        }
        let header = match BlockHeader::decode(new_header.header.as_slice()) {
            Some(header) => header,
            None => { return Err(BTCLightclientError::BTCHeaderDecodeError); },
        };
        if !verify_next_header_pow(params, &parent, &header) {
            return Err(BTCLightclientError::BTCHeaderError);
        }
        let hash = block_hash(&header);
        if !bytes_eq(new_header.hash.as_slice(), hash.as_slice()) {
            return Err(BTCLightclientError::BTCHeaderError);
        }
        if last_height == u64::MAX || new_header.height != last_height + 1 {
            return Err(BTCLightclientError::BTCHeaderError);
        }
        let new_work = parse_work(new_header.work.as_slice());
        match (&last_work, &new_work) {
            (Some(before), Some(after)) => {
                if !work_follows(before, &header, after) {
                    return Err(BTCLightclientError::BTCHeaderError);
                }
            },
            _ => { return Err(BTCLightclientError::WorkError); },
        }
        last_height = new_header.height;
        last_work = new_work;
        parent = header;
        proof {
            last = new_header@;
        }
        i += 1;
    }
    Ok(())
}

/// The work accumulated from the base header up to `header`, most significant
/// byte first.
pub fn total_work(header: &HeaderInfo) -> (work: Result<[u8; 32], BTCLightclientError>)
    ensures
        match work {
            Ok(w) => parsed_work(header@.work) == Some(be_value(w@)),
            Err(e) => e@ == ErrorView::WorkError && parsed_work(header@.work) is None,
        },
{
    match parse_work(header.work.as_slice()) {
        Some(w) => Ok(w),
        None => Err(BTCLightclientError::WorkError),
    }
}

/// Whether `new_work` is strictly more than `cur_work`.
pub fn has_more_work(new_work: &[u8; 32], cur_work: &[u8; 32]) -> (more: bool)
    ensures
        more == (be_value(new_work@) > be_value(cur_work@)),
{
    !be_le(new_work, cur_work)
}

/// Why `init` fails on these headers, if it does: the chain is initialised
/// already; there are not more headers than `timeout`; the first header
/// cannot be decoded; it does not carry its own hash or fails its proof of
/// work; or the headers after it are no chain that starts after it. The
/// height and the accumulated work of the first header are taken as given.
pub open spec fn init_error(
    view: StoreView,
    timeout: u64,
    pow_limit: nat,
    allow_min_difficulty: bool,
    headers: Seq<HeaderInfoView>,
) -> Option<ErrorView> {
    if view.base is Some {
        Some(ErrorView::InitError)
    } else if headers.len() < timeout + 1 {
        Some(ErrorView::InitError)
    } else {
        match decoded_header(headers[0].header) {
            None => Some(ErrorView::BTCHeaderDecodeError),
            Some(base) => if header_pow_ok(pow_limit, base) && headers[0].hash == block_hash_of(
                base,
            ) {
                verify_headers_error(
                    pow_limit,
                    allow_min_difficulty,
                    headers[0],
                    headers.drop_first(),
                )
            } else {
                Some(ErrorView::BTCHeaderError)
            },
        }
    }
}

/// The records after `init` succeeded on these headers.
pub open spec fn initialized(view: StoreView, headers: Seq<HeaderInfoView>) -> StoreView {
    with_tip(with_headers(with_base(view, headers[0]), headers), headers.last())
}

/// Initialises the chain with `headers`: the first becomes the base header,
/// the last the tip, and all are stored. Where it fails, nothing is written.
pub fn init(storage: &mut MemoryStorage, cfg: &Config, headers: &[HeaderInfo]) -> (done: Result<
    (),
    BTCLightclientError,
>)
    ensures
        failure(done) == init_error(
            store_view(*old(storage)),
            cfg.checkpoint_finalization_timeout,
            pow_limit_of(cfg.network),
            allows_min_difficulty(cfg.network),
            views(headers@),
        ),
        done is Ok ==> store_view(*final(storage)) == initialized(
            store_view(*old(storage)),
            views(headers@),
        ),
        done is Err ==> store_view(*final(storage)) == store_view(*old(storage)),
{
    if is_initialized(storage) {
        return Err(BTCLightclientError::InitError);
    }
    let btc_network = get_chain_params(cfg.network);
    if headers.len() as u64 <= cfg.checkpoint_finalization_timeout {
        return Err(BTCLightclientError::InitError);
    }
    let base_header = &headers[0];
    assert(views(headers@)[0] == base_header@);
    let base_btc_header = match BlockHeader::decode(base_header.header.as_slice()) {
        Some(header) => header,
        None => { return Err(BTCLightclientError::BTCHeaderDecodeError); },
    };
    if !verify_header_pow(&btc_network, &base_btc_header) {
        return Err(BTCLightclientError::BTCHeaderError);
    }
    let base_hash = block_hash(&base_btc_header);
    if !bytes_eq(base_header.hash.as_slice(), base_hash.as_slice()) {
        return Err(BTCLightclientError::BTCHeaderError);
    }
    let new_headers = slice_from(headers, 1);
    assert(views(new_headers@) =~= views(headers@).drop_first());
    match verify_headers(&btc_network, base_header, new_headers) {
        Err(e) => { return Err(e); },
        Ok(_) => {},
    }
    set_base_header(storage, base_header);
    insert_headers(storage, headers);
    let tip = &headers[headers.len() - 1];
    assert(views(headers@).last() == tip@);
    set_tip(storage, tip);
    Ok(())
}

/// The headers from position `from` on.
fn slice_from(headers: &[HeaderInfo], from: usize) -> (rest: &[HeaderInfo])
    requires
        from <= headers.len(),
    ensures
        rest@ == headers@.skip(from as int),
{
    let rest = vstd::slice::slice_subrange(headers, from, headers.len());
    assert(rest@ =~= headers@.skip(from as int));
    rest
}

/// The records after the walk that removes a losing branch, with the error
/// that ended it, if one did. The walk visits the header under `at`, whose 80
/// bytes are `at_header`. It ends, with nothing more removed, where `at` is
/// `stop`; else it decodes `at_header`, removes what is stored under `at`,
/// and goes on to the header stored under the hash of its parent.
pub open spec fn rolled_back(view: StoreView, at: Seq<u8>, at_header: Seq<u8>, stop: Seq<u8>) -> (
    StoreView,
    Option<ErrorView>,
)
    decreases
            view.headers.dom().len() + if view.headers.contains_key(at) {
                0nat
            } else {
                1nat
            },
    when view.headers.dom().finite()
{
    if at == stop {
        (view, None)
    } else {
        match decoded_header(at_header) {
            None => (view, Some(ErrorView::BTCHeaderDecodeError)),
            Some(header) => match lookup(
                without_header(view, at).headers,
                header.prev_blockhash@,
            ) {
                Err(e) => (without_header(view, at), Some(e)),
                Ok(parent) => rolled_back(
                    without_header(view, at),
                    header.prev_blockhash@,
                    parent.header,
                    stop,
                ),
            },
        }
    }
}

/// Removes the headers of a losing branch: from `tip_header` back to, and
/// without, the header under `stop`.
fn remove_headers(storage: &mut MemoryStorage, tip_header: &HeaderInfo, stop: &[u8]) -> (done:
    Result<(), BTCLightclientError>)
    requires
        stored_headers(*old(storage)).dom().finite(),
    ensures
        store_view(*final(storage)) == rolled_back(
            store_view(*old(storage)),
            tip_header@.hash,
            tip_header@.header,
            stop@,
        ).0,
        failure(done) == rolled_back(
            store_view(*old(storage)),
            tip_header@.hash,
            tip_header@.header,
            stop@,
        ).1,
{
    let mut at: Vec<u8> = copy_bytes(tip_header.hash.as_slice());
    let mut at_header: Vec<u8> = copy_bytes(tip_header.header.as_slice());
    loop
        invariant
            stored_headers(*storage).dom().finite(),
            rolled_back(store_view(*storage), at@, at_header@, stop@) == rolled_back(
                store_view(*old(storage)),
                tip_header@.hash,
                tip_header@.header,
                stop@,
            ),
        decreases
                stored_headers(*storage).dom().len() + if stored_headers(*storage).contains_key(
                    at@,
                ) {
                    0nat
                } else {
                    1nat
                },
    {
        if bytes_eq(at.as_slice(), stop) {
            return Ok(());
        }
        let header = match BlockHeader::decode(at_header.as_slice()) {
            Some(header) => header,
            None => { return Err(BTCLightclientError::BTCHeaderDecodeError); },
        };
        headers_remove(storage, at.as_slice());
        heights_remove(storage, at.as_slice());
        let parent = match get_header(storage, header.prev_blockhash.as_slice()) {
            Ok(parent) => parent,
            Err(e) => { return Err(e); },
        };
        at = copy_bytes(header.prev_blockhash.as_slice());
        at_header = parent.header;
    }
}

/// The records after new headers were handled, with the error that ended
/// the handling, if one did.
///
/// The tip must be there and decode, and there must be a first new header
/// that decodes. Where it names the tip as its parent, the new headers are
/// checked as a chain after the tip, stored, and the last becomes the tip.
/// Else the header it names must be stored; the new headers are checked as
/// a chain after that one; the work of the last must be strictly above that
/// of the tip; then they are stored, the last becomes the tip, and the old
/// branch is removed from the old tip back to the header they attach to.
pub open spec fn handled(
    view: StoreView,
    pow_limit: nat,
    allow_min_difficulty: bool,
    new_headers: Seq<HeaderInfoView>,
) -> (StoreView, Option<ErrorView>) {
    match record_header(view.tip) {
        Err(e) => (view, Some(e)),
        Ok(tip) => if new_headers.len() == 0 {
            (view, Some(ErrorView::BTCHeaderEmpty))
        } else {
            match decoded_header(new_headers[0].header) {
                None => (view, Some(ErrorView::BTCHeaderDecodeError)),
                Some(first) => if first.prev_blockhash@ == tip.hash {
                    match verify_headers_error(pow_limit, allow_min_difficulty, tip, new_headers) {
                        Some(e) => (view, Some(e)),
                        None => (with_tip(with_headers(view, new_headers), new_headers.last()), None),
                    }
                } else {
                    match lookup(view.headers, first.prev_blockhash@) {
                        Err(e) => (view, Some(e)),
                        Ok(parent) => match verify_headers_error(
                            pow_limit,
                            allow_min_difficulty,
                            parent,
                            new_headers,
                        ) {
                            Some(e) => (view, Some(e)),
                            None => fork_chosen(view, tip, first.prev_blockhash@, new_headers),
                        },
                    }
                },
            }
        },
    }
}

/// The choice between the tip and a checked fork that attaches to the
/// stored header under `fork_point`.
pub open spec fn fork_chosen(
    view: StoreView,
    tip: HeaderInfoView,
    fork_point: Seq<u8>,
    new_headers: Seq<HeaderInfoView>,
) -> (StoreView, Option<ErrorView>) {
    match (parsed_work(new_headers.last().work), parsed_work(tip.work)) {
        (Some(new_work), Some(cur_work)) => if new_work <= cur_work {
            (view, Some(ErrorView::BTCChainWithNotEnoughWork(new_work, cur_work)))
        } else {
            rolled_back(
                with_tip(with_headers(view, new_headers), new_headers.last()),
                tip.hash,
                tip.header,
                fork_point,
            )
        },
        _ => (view, Some(ErrorView::WorkError)),
    }
}

/// Handles new headers: verifies them, stores them and moves the tip to the
/// last of them, either as an extension of the chain or as a fork with more
/// work, whose losing branch is then removed. Where the headers are refused,
/// nothing is written. The one error that can come after the headers were
/// stored is that of the walk which removes the losing branch, where it meets
/// a header that does not decode or whose parent is not stored.
pub fn handle_btc_headers_from_babylon(
    storage: &mut MemoryStorage,
    cfg: &Config,
    new_headers: &[HeaderInfo],
) -> (done: Result<(), BTCLightclientError>)
    ensures
        store_view(*final(storage)) == handled(
            store_view(*old(storage)),
            pow_limit_of(cfg.network),
            allows_min_difficulty(cfg.network),
            views(new_headers@),
        ).0,
        failure(done) == handled(
            store_view(*old(storage)),
            pow_limit_of(cfg.network),
            allows_min_difficulty(cfg.network),
            views(new_headers@),
        ).1,
{
    let btc_network = get_chain_params(cfg.network);
    let cur_tip = match get_tip(storage) {
        Ok(tip) => tip,
        Err(e) => { return Err(e); },
    };
    if new_headers.len() == 0 {
        return Err(BTCLightclientError::BTCHeaderEmpty);
    }
    let first_new_header = &new_headers[0];
    let new_tip = &new_headers[new_headers.len() - 1];
    assert(views(new_headers@)[0] == first_new_header@);
    assert(views(new_headers@).last() == new_tip@);
    let first_new_btc_header = match BlockHeader::decode(first_new_header.header.as_slice()) {
        Some(header) => header,
        None => { return Err(BTCLightclientError::BTCHeaderDecodeError); },
    };
    if bytes_eq(first_new_btc_header.prev_blockhash.as_slice(), cur_tip.hash.as_slice()) {
        match verify_headers(&btc_network, &cur_tip, new_headers) {
            Err(e) => { return Err(e); },
            Ok(_) => {},
        }
        insert_headers(storage, new_headers);
        set_tip(storage, new_tip);
        Ok(())
    } else {
        let parent_hash = first_new_btc_header.prev_blockhash.as_slice();
        let fork_parent = match get_header(storage, parent_hash) {
            Ok(parent) => parent,
            Err(e) => { return Err(e); },
        };
        match verify_headers(&btc_network, &fork_parent, new_headers) {
            Err(e) => { return Err(e); },
            Ok(_) => {},
        }
        let new_tip_work = match total_work(new_tip) {
            Ok(work) => work,
            Err(e) => { return Err(e); },
        };
        let cur_tip_work = match total_work(&cur_tip) {
            Ok(work) => work,
            Err(e) => { return Err(e); },
        };
        if !has_more_work(&new_tip_work, &cur_tip_work) {
            return Err(
                BTCLightclientError::BTCChainWithNotEnoughWork(new_tip_work, cur_tip_work),
            );
        }
        insert_headers(storage, new_headers);
        set_tip(storage, new_tip);
        remove_headers(storage, &cur_tip, parent_hash)
    }
}

} // verus!
