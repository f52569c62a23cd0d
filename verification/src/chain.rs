//! The chain as a whole: what the records hold between two operations, as
//! long as no two headers share a hash.

use vstd::prelude::*;
use crate::block::block_hash_of;
use crate::block::decoded_header;
use crate::block::work_of_bits;
use crate::error::ErrorView;
use crate::header_info::HeaderInfoView;
use crate::header_info::lemma_decoded_encoded;
use crate::laws::apart;
use crate::laws::branch_removed;
use crate::laws::checked_fork;
use crate::laws::attaches_to;
use crate::laws::has_hash;
use crate::laws::is_branch;
use crate::laws::last_of_its_hash;
use crate::laws::none_has_hash;
use crate::laws::lemma_branch_after_store;
use crate::laws::lemma_rolled_back_branch;
use crate::laws::lemma_with_headers_frame;
use crate::laws::lemma_with_headers_holds;
use crate::laws::lemma_with_headers_keeps;
use crate::light_client::fork_chosen;
use crate::light_client::handled;
use crate::light_client::height_of;
use crate::light_client::init_error;
use crate::light_client::initialized;
use crate::light_client::lookup;
use crate::light_client::parsed_work;
use crate::light_client::record_header;
use crate::light_client::verify_headers_error;
use crate::light_client::with_base;
use crate::light_client::with_headers;
use crate::light_client::with_tip;
use crate::storage::StoreView;

verus! {

/// Whether no two of the headers share a hash.
pub open spec fn distinct(headers: Seq<HeaderInfoView>) -> bool {
    forall|i: int, j: int|
        0 <= i < j < headers.len() ==> (#[trigger] headers[i]).hash != (#[trigger] headers[j]).hash
}

/// Whether the accumulated work of `header` is a number, that of `parent`
/// and the work of `header` together.
pub open spec fn work_accumulated(parent: HeaderInfoView, header: HeaderInfoView) -> bool {
    &&& parsed_work(parent.work) is Some
    &&& decoded_header(header.header) is Some
    &&& parsed_work(header.work) == Some(
        parsed_work(parent.work)->Some_0 + work_of_bits(
            decoded_header(header.header)->Some_0.bits,
        ),
    )
}

/// Whether the header at `i` decodes, carries its own hash and, where it is
/// not the first, names the header before it as its parent, is one higher,
/// and has the accumulated work of that header and its own work together.
pub open spec fn linked(chain: Seq<HeaderInfoView>, i: int) -> bool {
    &&& decoded_header(chain[i].header) is Some
    &&& chain[i].hash == block_hash_of(decoded_header(chain[i].header)->Some_0)
    &&& i > 0 ==> decoded_header(chain[i].header)->Some_0.prev_blockhash@ == chain[i - 1].hash
    &&& i > 0 ==> chain[i].height == chain[i - 1].height + 1
    &&& i > 0 ==> work_accumulated(chain[i - 1], chain[i])
}

/// Whether the header at `i` is found under its hash, with its height.
pub open spec fn stored(view: StoreView, chain: Seq<HeaderInfoView>, i: int) -> bool {
    &&& lookup(view.headers, chain[i].hash) == Ok::<HeaderInfoView, ErrorView>(chain[i])
    &&& height_of(view.heights, chain[i].hash) == Some(chain[i].height)
}

/// Whether the records are those of `chain`: its first header is the base
/// header, its last the tip; every header of it is found under its hash,
/// with its height, and nothing else is stored; each header carries its own
/// hash, names the one before it as its parent, is one higher than it and
/// has its accumulated work and its own together; no two share a hash.
pub open spec fn is_chain(view: StoreView, chain: Seq<HeaderInfoView>) -> bool {
    &&& chain.len() > 0
    &&& view.headers.dom().finite()
    &&& record_header(view.base) == Ok::<HeaderInfoView, ErrorView>(chain[0])
    &&& record_header(view.tip) == Ok::<HeaderInfoView, ErrorView>(chain.last())
    &&& forall|i: int| 0 <= i < chain.len() ==> #[trigger] stored(view, chain, i)
    &&& forall|i: int| 0 <= i < chain.len() ==> #[trigger] linked(chain, i)
    &&& distinct(chain)
    &&& forall|hash: Seq<u8>| #[trigger] view.headers.contains_key(hash) ==> has_hash(chain, hash)
    &&& forall|hash: Seq<u8>| #[trigger] view.heights.contains_key(hash) ==> has_hash(chain, hash)
}

/// Whether nothing is stored yet.
pub open spec fn fresh(view: StoreView) -> bool {
    &&& view.base is None
    &&& view.headers == Map::<Seq<u8>, Seq<u8>>::empty()
    &&& view.heights == Map::<Seq<u8>, u64>::empty()
}

/// Each of the headers that were verified as a chain after `first` decodes,
/// carries its own hash, names the hash of the header before it, or of
/// `first`, as its parent, is one higher than that header, and has the
/// accumulated work of that header and its own work together.
pub proof fn lemma_verified_links(
    pow_limit: nat,
    allow_min_difficulty: bool,
    first: HeaderInfoView,
    new_headers: Seq<HeaderInfoView>,
    i: int,
)
    requires
        verify_headers_error(pow_limit, allow_min_difficulty, first, new_headers) is None,
        0 <= i < new_headers.len(),
    ensures
        decoded_header(new_headers[i].header) is Some,
        new_headers[i].hash == block_hash_of(decoded_header(new_headers[i].header)->Some_0),
        i > 0 ==> decoded_header(new_headers[i].header)->Some_0.prev_blockhash@ == new_headers[i
            - 1].hash,
        i > 0 ==> new_headers[i].height == new_headers[i - 1].height + 1,
        i == 0 ==> new_headers[0].height == first.height + 1,
        i > 0 ==> work_accumulated(new_headers[i - 1], new_headers[i]),
        i == 0 ==> work_accumulated(first, new_headers[0]),
        i == 0 ==> decoded_header(first.header) is Some && decoded_header(
            new_headers[0].header,
        )->Some_0.prev_blockhash@ == block_hash_of(decoded_header(first.header)->Some_0),
    decreases new_headers.len(),
{
    if i > 0 {
        let rest = new_headers.drop_first();
        assert(rest[i - 1] == new_headers[i]);
        lemma_verified_links(pow_limit, allow_min_difficulty, new_headers[0], rest, i - 1);
        if i > 1 {
            assert(rest[i - 2] == new_headers[i - 1]);
        }
    }
}

/// Whether `hash` is among the headers is the opposite of none having it.
proof fn lemma_has_or_none(headers: Seq<HeaderInfoView>, hash: Seq<u8>)
    ensures
        has_hash(headers, hash) == !none_has_hash(headers, hash),
{
    if !none_has_hash(headers, hash) {
        let j = choose|j: int| 0 <= j < headers.len() && (#[trigger] headers[j]).hash == hash;
        assert(has_hash(headers, hash));
    }
    if has_hash(headers, hash) {
        let j = choose|j: int| 0 <= j < headers.len() && (#[trigger] headers[j]).hash == hash;
    }
}

/// After headers with hashes of their own were stored, each of them is found,
/// what was stored before is found as before, and nothing else is.
proof fn lemma_with_headers_exact(view: StoreView, headers: Seq<HeaderInfoView>)
    requires
        distinct(headers),
    ensures
        forall|i: int|
            0 <= i < headers.len() ==> #[trigger] stored(with_headers(view, headers), headers, i),
        forall|hash: Seq<u8>|
            !has_hash(headers, hash) ==> {
                &&& (#[trigger] with_headers(view, headers).headers.contains_key(hash))
                    == view.headers.contains_key(hash)
                &&& with_headers(view, headers).headers[hash] == view.headers[hash]
            },
        forall|hash: Seq<u8>|
            !has_hash(headers, hash) ==> {
                &&& (#[trigger] with_headers(view, headers).heights.contains_key(hash))
                    == view.heights.contains_key(hash)
                &&& with_headers(view, headers).heights[hash] == view.heights[hash]
            },
{
    assert forall|i: int| 0 <= i < headers.len() implies #[trigger] stored(
        with_headers(view, headers),
        headers,
        i,
    ) by {
        assert(last_of_its_hash(headers, i));
        lemma_with_headers_holds(view, headers, i);
    }
    assert forall|hash: Seq<u8>| !has_hash(headers, hash) implies {
        &&& (#[trigger] with_headers(view, headers).headers.contains_key(hash))
            == view.headers.contains_key(hash)
        &&& with_headers(view, headers).headers[hash] == view.headers[hash]
    } by {
        lemma_has_or_none(headers, hash);
        lemma_with_headers_keeps(view, headers, hash);
    }
    assert forall|hash: Seq<u8>| !has_hash(headers, hash) implies {
        &&& (#[trigger] with_headers(view, headers).heights.contains_key(hash))
            == view.heights.contains_key(hash)
        &&& with_headers(view, headers).heights[hash] == view.heights[hash]
    } by {
        lemma_has_or_none(headers, hash);
        lemma_with_headers_keeps(view, headers, hash);
    }
}

/// After `init` succeeded on headers with hashes of their own, where nothing
/// was stored before, the records are those of the chain of these headers.
pub proof fn lemma_init_is_chain(
    view: StoreView,
    timeout: u64,
    pow_limit: nat,
    allow_min_difficulty: bool,
    headers: Seq<HeaderInfoView>,
)
    requires
        fresh(view),
        init_error(view, timeout, pow_limit, allow_min_difficulty, headers) is None,
        distinct(headers),
    ensures
        is_chain(initialized(view, headers), headers),
{
    let start = with_base(view, headers[0]);
    let after = initialized(view, headers);
    lemma_with_headers_frame(start, headers);
    lemma_with_headers_exact(start, headers);
    lemma_decoded_encoded(headers[0]);
    lemma_decoded_encoded(headers.last());
    assert(start.headers.dom() =~= Set::<Seq<u8>>::empty());
    assert forall|i: int| 0 <= i < headers.len() implies #[trigger] linked(headers, i) by {
        if i > 0 {
            let rest = headers.drop_first();
            assert(rest[i - 1] == headers[i]);
            lemma_verified_links(pow_limit, allow_min_difficulty, headers[0], rest, i - 1);
            if i > 1 {
                assert(rest[i - 2] == headers[i - 1]);
            }
        }
    }
    assert forall|i: int| 0 <= i < headers.len() implies #[trigger] stored(after, headers, i) by {
        assert(stored(with_headers(start, headers), headers, i));
    }
}

/// Where `hash` is among the headers of two runs joined.
proof fn lemma_has_hash_joined(a: Seq<HeaderInfoView>, b: Seq<HeaderInfoView>, hash: Seq<u8>)
    ensures
        has_hash(a + b, hash) == (has_hash(a, hash) || has_hash(b, hash)),
{
    let both = a + b;
    if has_hash(both, hash) {
        let j = choose|j: int| 0 <= j < both.len() && (#[trigger] both[j]).hash == hash;
        if j < a.len() {
            assert(a[j] == both[j]);
        } else {
            assert(b[j - a.len()] == both[j]);
        }
    }
    if has_hash(a, hash) {
        let j = choose|j: int| 0 <= j < a.len() && (#[trigger] a[j]).hash == hash;
        assert(both[j] == a[j]);
    }
    if has_hash(b, hash) {
        let j = choose|j: int| 0 <= j < b.len() && (#[trigger] b[j]).hash == hash;
        assert(both[j + a.len()] == b[j]);
    }
}

/// In a run whose headers have hashes of their own, so do those of each of
/// two parts of it, and no hash of the one part is among the other.
proof fn lemma_distinct_parts(a: Seq<HeaderInfoView>, b: Seq<HeaderInfoView>)
    requires
        distinct(a + b),
    ensures
        distinct(a),
        distinct(b),
        forall|i: int| 0 <= i < a.len() ==> !has_hash(b, (#[trigger] a[i]).hash),
        forall|i: int| 0 <= i < b.len() ==> !has_hash(a, (#[trigger] b[i]).hash),
{
    let both = a + b;
    assert forall|i: int, j: int| 0 <= i < j < a.len() implies (#[trigger] a[i]).hash != (
    #[trigger] a[j]).hash by {
        assert(both[i] == a[i] && both[j] == a[j]);
    }
    assert forall|i: int, j: int| 0 <= i < j < b.len() implies (#[trigger] b[i]).hash != (
    #[trigger] b[j]).hash by {
        assert(both[i + a.len()] == b[i] && both[j + a.len()] == b[j]);
    }
    assert forall|i: int| 0 <= i < a.len() implies !has_hash(b, (#[trigger] a[i]).hash) by {
        if has_hash(b, a[i].hash) {
            let j = choose|j: int| 0 <= j < b.len() && (#[trigger] b[j]).hash == a[i].hash;
            assert(both[i] == a[i] && both[j + a.len()] == b[j]);
        }
    }
    assert forall|i: int| 0 <= i < b.len() implies !has_hash(a, (#[trigger] b[i]).hash) by {
        if has_hash(a, b[i].hash) {
            let j = choose|j: int| 0 <= j < a.len() && (#[trigger] a[j]).hash == b[i].hash;
            assert(both[j] == a[j] && both[i + a.len()] == b[i]);
        }
    }
}

/// The headers that were verified as a chain after the last header of a
/// chain are linked when joined to it.
proof fn lemma_joined_linked(
    pow_limit: nat,
    allow_min_difficulty: bool,
    chain: Seq<HeaderInfoView>,
    new_headers: Seq<HeaderInfoView>,
)
    requires
        chain.len() > 0,
        forall|i: int| 0 <= i < chain.len() ==> #[trigger] linked(chain, i),
        verify_headers_error(pow_limit, allow_min_difficulty, chain.last(), new_headers) is None,
    ensures
        forall|i: int| 0 <= i < (chain + new_headers).len() ==> #[trigger] linked(
            chain + new_headers,
            i,
        ),
{
    let both = chain + new_headers;
    assert forall|i: int| 0 <= i < both.len() implies #[trigger] linked(both, i) by {
        if i < chain.len() {
            assert(linked(chain, i));
            assert(both[i] == chain[i]);
            if i > 0 {
                assert(both[i - 1] == chain[i - 1]);
            }
        } else {
            let n = i - chain.len();
            assert(both[i] == new_headers[n]);
            lemma_verified_links(
                pow_limit,
                allow_min_difficulty,
                chain.last(),
                new_headers,
                n,
            );
            if n > 0 {
                assert(both[i - 1] == new_headers[n - 1]);
            } else {
                assert(both[i - 1] == chain.last());
                assert(linked(chain, chain.len() - 1));
            }
        }
    }
}

/// An accepted extension of a chain, with hashes that neither the chain nor
/// the extension has twice, leaves the records of the chain with the new
/// headers joined to it.
pub proof fn lemma_extension_is_chain(
    view: StoreView,
    chain: Seq<HeaderInfoView>,
    pow_limit: nat,
    allow_min_difficulty: bool,
    new_headers: Seq<HeaderInfoView>,
)
    requires
        is_chain(view, chain),
        attaches_to(new_headers, chain.last().hash),
        verify_headers_error(pow_limit, allow_min_difficulty, chain.last(), new_headers) is None,
        distinct(chain + new_headers),
    ensures
        handled(view, pow_limit, allow_min_difficulty, new_headers).1 is None,
        is_chain(
            handled(view, pow_limit, allow_min_difficulty, new_headers).0,
            chain + new_headers,
        ),
{
    let both = chain + new_headers;
    let after = handled(view, pow_limit, allow_min_difficulty, new_headers).0;
    assert(after == with_tip(with_headers(view, new_headers), new_headers.last()));
    lemma_with_headers_frame(view, new_headers);
    lemma_distinct_parts(chain, new_headers);
    lemma_with_headers_exact(view, new_headers);
    lemma_decoded_encoded(new_headers.last());
    lemma_joined_linked(pow_limit, allow_min_difficulty, chain, new_headers);
    assert(both.last() == new_headers.last());
    assert(both[0] == chain[0]);
    assert forall|i: int| 0 <= i < both.len() implies #[trigger] stored(after, both, i) by {
        if i < chain.len() {
            assert(both[i] == chain[i]);
            assert(stored(view, chain, i));
            assert(!has_hash(new_headers, chain[i].hash));
        } else {
            assert(both[i] == new_headers[i - chain.len()]);
            assert(stored(with_headers(view, new_headers), new_headers, i - chain.len()));
        }
    }
    assert forall|hash: Seq<u8>| #[trigger] after.headers.contains_key(hash) implies has_hash(
        both,
        hash,
    ) by {
        lemma_has_hash_joined(chain, new_headers, hash);
    }
    assert forall|hash: Seq<u8>| #[trigger] after.heights.contains_key(hash) implies has_hash(
        both,
        hash,
    ) by {
        lemma_has_hash_joined(chain, new_headers, hash);
    }
}

/// The headers of a chain above position `k`, from the tip downwards.
pub open spec fn branch_above(chain: Seq<HeaderInfoView>, k: int) -> Seq<HeaderInfoView> {
    Seq::new((chain.len() - 1 - k) as nat, |j: int| chain[chain.len() - 1 - j])
}

/// What is asked of the header at position `i` of the branch above `k`.
spec fn branch_entry_ok(view: StoreView, chain: Seq<HeaderInfoView>, k: int, i: int) -> bool {
    let branch = branch_above(chain, k);
    &&& lookup(view.headers, branch[i].hash) == Ok::<HeaderInfoView, ErrorView>(branch[i])
    &&& branch[i].hash != chain[k].hash
    &&& decoded_header(branch[i].header) is Some
    &&& decoded_header(branch[i].header)->Some_0.prev_blockhash@ == if i + 1 < branch.len() {
        branch[i + 1].hash
    } else {
        chain[k].hash
    }
}

proof fn lemma_branch_entry(view: StoreView, chain: Seq<HeaderInfoView>, k: int, i: int)
    requires
        is_chain(view, chain),
        0 <= k < chain.len() - 1,
        0 <= i < chain.len() - 1 - k,
    ensures
        branch_entry_ok(view, chain, k, i),
{
    let branch = branch_above(chain, k);
    let top = chain.len() - 1;
    assert(branch[i] == chain[top - i]);
    assert(stored(view, chain, top - i));
    assert(linked(chain, top - i));
    assert(chain[k].hash != chain[top - i].hash);
    if i + 1 < branch.len() {
        assert(branch[i + 1] == chain[top - i - 1]);
    }
}

/// In the records of a chain, the headers above any position but the last
/// are a branch that runs from the tip back to the header at that position.
pub proof fn lemma_chain_has_branch(view: StoreView, chain: Seq<HeaderInfoView>, k: int)
    requires
        is_chain(view, chain),
        0 <= k < chain.len() - 1,
    ensures
        is_branch(view, branch_above(chain, k), chain[k].hash),
        branch_above(chain, k)[0] == chain.last(),
{
    let branch = branch_above(chain, k);
    let top = chain.len() - 1;
    assert(stored(view, chain, k));
    assert forall|i: int| 0 <= i < branch.len() implies {
        &&& lookup(view.headers, (#[trigger] branch[i]).hash) == Ok::<HeaderInfoView, ErrorView>(
            branch[i],
        )
        &&& branch[i].hash != chain[k].hash
        &&& decoded_header(branch[i].header) matches Some(header) && header.prev_blockhash@ == if i
            + 1 < branch.len() {
            branch[i + 1].hash
        } else {
            chain[k].hash
        }
    } by {
        lemma_branch_entry(view, chain, k, i);
    }
    assert forall|i: int, j: int| 0 <= i < j < branch.len() implies (#[trigger] branch[i]).hash != (
    #[trigger] branch[j]).hash by {
        assert(branch[i] == chain[top - i]);
        assert(branch[j] == chain[top - j]);
    }
}

/// Whether `hash` is among a chain is whether it is at or below position
/// `k`, or above it.
proof fn lemma_has_hash_cut(chain: Seq<HeaderInfoView>, k: int, hash: Seq<u8>)
    requires
        0 <= k < chain.len() - 1,
    ensures
        has_hash(chain, hash) == (has_hash(chain.take(k + 1), hash) || has_hash(
            branch_above(chain, k),
            hash,
        )),
{
    let low = chain.take(k + 1);
    let high = branch_above(chain, k);
    let top = chain.len() - 1;
    if has_hash(chain, hash) {
        let j = choose|j: int| 0 <= j < chain.len() && (#[trigger] chain[j]).hash == hash;
        if j <= k {
            assert(low[j] == chain[j]);
        } else {
            assert(high[top - j] == chain[j]);
        }
    }
    if has_hash(low, hash) {
        let j = choose|j: int| 0 <= j < low.len() && (#[trigger] low[j]).hash == hash;
        assert(chain[j] == low[j]);
    }
    if has_hash(high, hash) {
        let j = choose|j: int| 0 <= j < high.len() && (#[trigger] high[j]).hash == hash;
        assert(chain[top - j] == high[j]);
    }
}

/// The walk that follows an accepted fork off a chain ends without error
/// and removes the headers above the one that the fork attaches to.
proof fn lemma_fork_walk(
    view: StoreView,
    chain: Seq<HeaderInfoView>,
    k: int,
    pow_limit: nat,
    allow_min_difficulty: bool,
    new_headers: Seq<HeaderInfoView>,
    new_work: nat,
    cur_work: nat,
)
    requires
        is_chain(view, chain),
        0 <= k < chain.len() - 1,
        attaches_to(new_headers, chain[k].hash),
        verify_headers_error(pow_limit, allow_min_difficulty, chain[k], new_headers) is None,
        parsed_work(new_headers.last().work) == Some(new_work),
        parsed_work(chain.last().work) == Some(cur_work),
        new_work > cur_work,
        distinct(chain + new_headers),
    ensures
        handled(view, pow_limit, allow_min_difficulty, new_headers).1 is None,
        branch_removed(
            with_tip(with_headers(view, new_headers), new_headers.last()),
            handled(view, pow_limit, allow_min_difficulty, new_headers).0,
            branch_above(chain, k),
        ),
        with_headers(view, new_headers).headers.dom().finite(),
        with_headers(view, new_headers).base == view.base,
{
    let tip = chain.last();
    let stop = chain[k].hash;
    let high = branch_above(chain, k);
    let moved = with_tip(with_headers(view, new_headers), new_headers.last());
    lemma_distinct_parts(chain, new_headers);
    lemma_chain_has_branch(view, chain, k);
    assert(stored(view, chain, k));
    assert(chain[k].hash != tip.hash);
    assert(checked_fork(view, pow_limit, allow_min_difficulty, tip, stop, new_headers));
    assert(handled(view, pow_limit, allow_min_difficulty, new_headers) == fork_chosen(
        view,
        tip,
        stop,
        new_headers,
    ));
    assert(apart(new_headers, high)) by {
        assert forall|i: int, j: int|
            0 <= i < new_headers.len() && 0 <= j < high.len() implies (#[trigger] new_headers[i]).hash
            != (#[trigger] high[j]).hash by {
            assert(high[j] == chain[chain.len() - 1 - j]);
            assert(!has_hash(chain, new_headers[i].hash));
        }
    }
    lemma_with_headers_frame(view, new_headers);
    lemma_branch_after_store(view, new_headers, high, stop);
    lemma_rolled_back_branch(moved, high, stop);
}

/// The chain up to position `k` with verified headers joined to it is
/// linked, and no two of its headers share a hash.
proof fn lemma_fork_linked(
    chain: Seq<HeaderInfoView>,
    k: int,
    pow_limit: nat,
    allow_min_difficulty: bool,
    new_headers: Seq<HeaderInfoView>,
)
    requires
        0 <= k < chain.len() - 1,
        forall|i: int| 0 <= i < chain.len() ==> #[trigger] linked(chain, i),
        verify_headers_error(pow_limit, allow_min_difficulty, chain[k], new_headers) is None,
        distinct(chain + new_headers),
    ensures
        forall|i: int|
            0 <= i < (chain.take(k + 1) + new_headers).len() ==> #[trigger] linked(
                chain.take(k + 1) + new_headers,
                i,
            ),
        distinct(chain.take(k + 1) + new_headers),
{
    let low = chain.take(k + 1);
    let kept = low + new_headers;
    assert forall|n: int| 0 <= n < low.len() implies #[trigger] linked(low, n) by {
        assert(linked(chain, n));
        assert(low[n] == chain[n]);
        if n > 0 {
            assert(low[n - 1] == chain[n - 1]);
        }
    }
    assert(low.last() == chain[k]);
    lemma_joined_linked(pow_limit, allow_min_difficulty, low, new_headers);
    assert forall|i: int, j: int| 0 <= i < j < kept.len() implies (#[trigger] kept[i]).hash != (
    #[trigger] kept[j]).hash by {
        let both = chain + new_headers;
        let a = if i <= k {
            i
        } else {
            i - (k + 1) + chain.len()
        };
        let b = if j <= k {
            j
        } else {
            j - (k + 1) + chain.len()
        };
        assert(both[a] == kept[i]);
        assert(both[b] == kept[j]);
        assert(a < b);
    }
}

/// An accepted fork off a chain, with hashes that neither the chain nor the
/// fork has twice, leaves the records of the chain up to the header that the
/// fork attaches to, with the headers of the fork joined to it.
pub proof fn lemma_fork_is_chain(
    view: StoreView,
    chain: Seq<HeaderInfoView>,
    k: int,
    pow_limit: nat,
    allow_min_difficulty: bool,
    new_headers: Seq<HeaderInfoView>,
    new_work: nat,
    cur_work: nat,
)
    requires
        is_chain(view, chain),
        0 <= k < chain.len() - 1,
        attaches_to(new_headers, chain[k].hash),
        verify_headers_error(pow_limit, allow_min_difficulty, chain[k], new_headers) is None,
        parsed_work(new_headers.last().work) == Some(new_work),
        parsed_work(chain.last().work) == Some(cur_work),
        new_work > cur_work,
        distinct(chain + new_headers),
    ensures
        handled(view, pow_limit, allow_min_difficulty, new_headers).1 is None,
        is_chain(
            handled(view, pow_limit, allow_min_difficulty, new_headers).0,
            chain.take(k + 1) + new_headers,
        ),
{
    let kept = chain.take(k + 1) + new_headers;
    let moved = with_tip(with_headers(view, new_headers), new_headers.last());
    let after = handled(view, pow_limit, allow_min_difficulty, new_headers).0;
    lemma_fork_walk(
        view,
        chain,
        k,
        pow_limit,
        allow_min_difficulty,
        new_headers,
        new_work,
        cur_work,
    );
    lemma_fork_kept(view, moved, after, chain, k, new_headers);
    lemma_fork_linked(chain, k, pow_limit, allow_min_difficulty, new_headers);
    lemma_decoded_encoded(new_headers.last());
    lemma_fork_finite(moved, after, branch_above(chain, k));
    assert(kept.last() == new_headers.last());
    assert(kept[0] == chain[0]);
}

/// Removing a branch from finitely many headers leaves finitely many.
proof fn lemma_fork_finite(moved: StoreView, after: StoreView, branch: Seq<HeaderInfoView>)
    requires
        moved.headers.dom().finite(),
        branch_removed(moved, after, branch),
    ensures
        after.headers.dom().finite(),
{
    assert forall|hash: Seq<u8>| after.headers.dom().contains(hash) implies moved.headers.dom().contains(
        hash,
    ) by {
        assert(after.headers.contains_key(hash));
    }
    assert(after.headers.dom().subset_of(moved.headers.dom()));
    vstd::set_lib::lemma_len_subset(after.headers.dom(), moved.headers.dom());
}

/// What lies under one hash after a fork was stored and a branch removed.
proof fn lemma_after_fork_at(
    view: StoreView,
    new_headers: Seq<HeaderInfoView>,
    after: StoreView,
    branch: Seq<HeaderInfoView>,
    hash: Seq<u8>,
)
    requires
        new_headers.len() > 0,
        branch_removed(
            with_tip(with_headers(view, new_headers), new_headers.last()),
            after,
            branch,
        ),
    ensures
        has_hash(branch, hash) ==> !after.headers.contains_key(hash)
            && !after.heights.contains_key(hash),
        !has_hash(branch, hash) ==> {
            &&& after.headers.contains_key(hash) == with_headers(
                view,
                new_headers,
            ).headers.contains_key(hash)
            &&& after.headers[hash] == with_headers(view, new_headers).headers[hash]
            &&& after.heights.contains_key(hash) == with_headers(
                view,
                new_headers,
            ).heights.contains_key(hash)
            &&& after.heights[hash] == with_headers(view, new_headers).heights[hash]
        },
        !has_hash(branch, hash) && !has_hash(new_headers, hash) ==> {
            &&& after.headers.contains_key(hash) == view.headers.contains_key(hash)
            &&& after.headers[hash] == view.headers[hash]
            &&& after.heights.contains_key(hash) == view.heights.contains_key(hash)
            &&& after.heights[hash] == view.heights[hash]
        },
{
    assert(after.headers.contains_key(hash) || !after.headers.contains_key(hash));
    lemma_has_or_none(new_headers, hash);
    if none_has_hash(new_headers, hash) {
        lemma_with_headers_keeps(view, new_headers, hash);
    }
}

/// No header of a chain at or below position `k` has the hash of one above it.
proof fn lemma_low_not_high(chain: Seq<HeaderInfoView>, k: int, i: int)
    requires
        distinct(chain),
        0 <= i <= k < chain.len() - 1,
    ensures
        !has_hash(branch_above(chain, k), chain[i].hash),
{
    let high = branch_above(chain, k);
    if has_hash(high, chain[i].hash) {
        let j = choose|j: int| 0 <= j < high.len() && (#[trigger] high[j]).hash == chain[i].hash;
        assert(high[j] == chain[chain.len() - 1 - j]);
    }
}

/// After an accepted fork, each header of the chain up to position `k` and
/// of the fork is found under its hash, with its height.
proof fn lemma_fork_stored(
    view: StoreView,
    after: StoreView,
    chain: Seq<HeaderInfoView>,
    k: int,
    new_headers: Seq<HeaderInfoView>,
    i: int,
)
    requires
        is_chain(view, chain),
        0 <= k < chain.len() - 1,
        new_headers.len() > 0,
        distinct(chain + new_headers),
        branch_removed(
            with_tip(with_headers(view, new_headers), new_headers.last()),
            after,
            branch_above(chain, k),
        ),
        0 <= i < (chain.take(k + 1) + new_headers).len(),
    ensures
        stored(after, chain.take(k + 1) + new_headers, i),
{
    let kept = chain.take(k + 1) + new_headers;
    let high = branch_above(chain, k);
    lemma_distinct_parts(chain, new_headers);
    lemma_after_fork_at(view, new_headers, after, high, kept[i].hash);
    if i <= k {
        assert(kept[i] == chain[i]);
        assert(stored(view, chain, i));
        lemma_low_not_high(chain, k, i);
        assert(!has_hash(new_headers, chain[i].hash));
    } else {
        let n = i - (k + 1);
        assert(kept[i] == new_headers[n]);
        assert(last_of_its_hash(new_headers, n));
        lemma_with_headers_holds(view, new_headers, n);
        assert(!has_hash(chain, new_headers[n].hash));
        lemma_has_hash_cut(chain, k, new_headers[n].hash);
    }
}

/// After an accepted fork, nothing is stored but the chain up to position
/// `k` and the fork.
proof fn lemma_fork_nothing_else(
    view: StoreView,
    after: StoreView,
    chain: Seq<HeaderInfoView>,
    k: int,
    new_headers: Seq<HeaderInfoView>,
    hash: Seq<u8>,
)
    requires
        is_chain(view, chain),
        0 <= k < chain.len() - 1,
        new_headers.len() > 0,
        branch_removed(
            with_tip(with_headers(view, new_headers), new_headers.last()),
            after,
            branch_above(chain, k),
        ),
        after.headers.contains_key(hash) || after.heights.contains_key(hash),
    ensures
        has_hash(chain.take(k + 1) + new_headers, hash),
{
    let high = branch_above(chain, k);
    lemma_after_fork_at(view, new_headers, after, high, hash);
    lemma_has_hash_cut(chain, k, hash);
    lemma_has_hash_joined(chain.take(k + 1), new_headers, hash);
    if !has_hash(new_headers, hash) {
        if view.headers.contains_key(hash) {
            assert(has_hash(chain, hash));
        }
        if view.heights.contains_key(hash) {
            assert(has_hash(chain, hash));
        }
    }
}

/// What is found after a fork was stored and the branch above position `k`
/// removed: the chain up to `k` and the fork, and nothing else.
proof fn lemma_fork_kept(
    view: StoreView,
    moved: StoreView,
    after: StoreView,
    chain: Seq<HeaderInfoView>,
    k: int,
    new_headers: Seq<HeaderInfoView>,
)
    requires
        is_chain(view, chain),
        0 <= k < chain.len() - 1,
        new_headers.len() > 0,
        distinct(chain + new_headers),
        moved == with_tip(with_headers(view, new_headers), new_headers.last()),
        branch_removed(moved, after, branch_above(chain, k)),
    ensures
        forall|i: int|
            0 <= i < (chain.take(k + 1) + new_headers).len() ==> #[trigger] stored(
                after,
                chain.take(k + 1) + new_headers,
                i,
            ),
        forall|hash: Seq<u8>| #[trigger]
            after.headers.contains_key(hash) ==> has_hash(chain.take(k + 1) + new_headers, hash),
        forall|hash: Seq<u8>| #[trigger]
            after.heights.contains_key(hash) ==> has_hash(chain.take(k + 1) + new_headers, hash),
{
    let kept = chain.take(k + 1) + new_headers;
    assert forall|i: int| 0 <= i < kept.len() implies #[trigger] stored(after, kept, i) by {
        lemma_fork_stored(view, after, chain, k, new_headers, i);
    }
    assert forall|hash: Seq<u8>| #[trigger] after.headers.contains_key(hash) implies has_hash(
        kept,
        hash,
    ) by {
        lemma_fork_nothing_else(view, after, chain, k, new_headers, hash);
    }
    assert forall|hash: Seq<u8>| #[trigger] after.heights.contains_key(hash) implies has_hash(
        kept,
        hash,
    ) by {
        lemma_fork_nothing_else(view, after, chain, k, new_headers, hash);
    }
}

/// On the records of a chain, headers that are refused leave every record
/// as it is, as long as no hash occurs twice among the chain and the headers.
pub proof fn lemma_chain_refusal_writes_nothing(
    view: StoreView,
    chain: Seq<HeaderInfoView>,
    pow_limit: nat,
    allow_min_difficulty: bool,
    new_headers: Seq<HeaderInfoView>,
)
    requires
        is_chain(view, chain),
        distinct(chain + new_headers),
    ensures
        handled(view, pow_limit, allow_min_difficulty, new_headers).1 is Some ==> handled(
            view,
            pow_limit,
            allow_min_difficulty,
            new_headers,
        ).0 == view,
{
    let tip = chain.last();
    if new_headers.len() > 0 && decoded_header(new_headers[0].header) is Some {
        let stop = decoded_header(new_headers[0].header)->Some_0.prev_blockhash@;
        if stop != tip.hash && lookup(view.headers, stop) is Ok {
            assert(view.headers.contains_key(stop));
            let k = choose|k: int| 0 <= k < chain.len() && (#[trigger] chain[k]).hash == stop;
            assert(stored(view, chain, k));
            let new_work = parsed_work(new_headers.last().work);
            let cur_work = parsed_work(tip.work);
            if verify_headers_error(pow_limit, allow_min_difficulty, chain[k], new_headers) is None
                && new_work is Some && cur_work is Some && new_work->Some_0 > cur_work->Some_0 {
                lemma_fork_is_chain(
                    view,
                    chain,
                    k,
                    pow_limit,
                    allow_min_difficulty,
                    new_headers,
                    new_work->Some_0,
                    cur_work->Some_0,
                );
            }
        }
    }
}

/// The headers on which `init` succeeded are linked: each carries its own
/// hash, and each but the first names the one before it as its parent, is
/// one higher, and has the accumulated work of that one and its own together.
pub proof fn lemma_init_accepts_linked(
    view: StoreView,
    timeout: u64,
    pow_limit: nat,
    allow_min_difficulty: bool,
    headers: Seq<HeaderInfoView>,
    i: int,
)
    requires
        init_error(view, timeout, pow_limit, allow_min_difficulty, headers) is None,
        0 <= i < headers.len(),
    ensures
        linked(headers, i),
{
    if i > 0 {
        let rest = headers.drop_first();
        assert(rest[i - 1] == headers[i]);
        lemma_verified_links(pow_limit, allow_min_difficulty, headers[0], rest, i - 1);
        if i > 1 {
            assert(rest[i - 2] == headers[i - 1]);
        }
    }
}

/// The header that accepted headers were checked against: the tip, where
/// they attach to it, else the header stored under the hash they name.
pub open spec fn attached_to(view: StoreView, new_headers: Seq<HeaderInfoView>) -> HeaderInfoView {
    let tip = record_header(view.tip)->Ok_0;
    let named = decoded_header(new_headers[0].header)->Some_0.prev_blockhash@;
    if named == tip.hash {
        tip
    } else {
        lookup(view.headers, named)->Ok_0
    }
}

/// Headers are accepted only where they were verified as a chain after the
/// header they attach to: the first of them is one higher than that header
/// and has its accumulated work and its own together, and so on from each to
/// the next.
pub proof fn lemma_handled_accepts_verified(
    view: StoreView,
    pow_limit: nat,
    allow_min_difficulty: bool,
    new_headers: Seq<HeaderInfoView>,
    i: int,
)
    requires
        handled(view, pow_limit, allow_min_difficulty, new_headers).1 is None,
        0 <= i < new_headers.len(),
    ensures
        verify_headers_error(
            pow_limit,
            allow_min_difficulty,
            attached_to(view, new_headers),
            new_headers,
        ) is None,
        new_headers[0].height == attached_to(view, new_headers).height + 1,
        work_accumulated(attached_to(view, new_headers), new_headers[0]),
        linked(new_headers, i),
{
    lemma_verified_links(
        pow_limit,
        allow_min_difficulty,
        attached_to(view, new_headers),
        new_headers,
        i,
    );
    lemma_verified_links(
        pow_limit,
        allow_min_difficulty,
        attached_to(view, new_headers),
        new_headers,
        0,
    );
}

} // verus!
