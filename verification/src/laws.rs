//! What holds of the header chain across its operations.

use vstd::prelude::*;
use crate::block::block_hash_of;
use crate::block::decoded_header;
use crate::block::header_pow_ok;
use crate::error::ErrorView;
use crate::header_info::HeaderInfoView;
use crate::header_info::decoded;
use crate::header_info::lemma_decoded_encoded;
use crate::light_client::fork_chosen;
use crate::light_client::handled;
use crate::light_client::height_of;
use crate::light_client::init_error;
use crate::light_client::initialized;
use crate::light_client::lookup;
use crate::light_client::parsed_work;
use crate::light_client::record_header;
use crate::light_client::rolled_back;
use crate::light_client::verify_headers_error;
use crate::light_client::with_base;
use crate::light_client::with_header;
use crate::light_client::with_headers;
use crate::light_client::with_tip;
use crate::light_client::without_header;
use crate::storage::StoreView;

verus! {

/// Whether every header after position `i` that has the hash of the header
/// at `i` is that header once more.
pub open spec fn last_of_its_hash(headers: Seq<HeaderInfoView>, i: int) -> bool {
    forall|j: int|
        i < j < headers.len() && (#[trigger] headers[j]).hash == headers[i].hash ==> headers[j]
            == headers[i]
}

/// Whether none of the headers has the hash `hash`.
pub open spec fn none_has_hash(headers: Seq<HeaderInfoView>, hash: Seq<u8>) -> bool {
    forall|j: int| 0 <= j < headers.len() ==> (#[trigger] headers[j]).hash != hash
}

/// Storing headers leaves the base header, the tip and what is stored
/// besides the four records as they are, and keeps the map of headers finite.
pub proof fn lemma_with_headers_frame(view: StoreView, headers: Seq<HeaderInfoView>)
    ensures
        with_headers(view, headers).base == view.base,
        with_headers(view, headers).tip == view.tip,
        with_headers(view, headers).other == view.other,
        view.headers.dom().finite() ==> with_headers(view, headers).headers.dom().finite(),
    decreases headers.len(),
{
    if headers.len() > 0 {
        lemma_with_headers_frame(with_header(view, headers[0]), headers.drop_first());
    }
}

/// Storing headers leaves what lies under any other hash as it is.
pub proof fn lemma_with_headers_keeps(view: StoreView, headers: Seq<HeaderInfoView>, hash: Seq<u8>)
    requires
        none_has_hash(headers, hash),
    ensures
        with_headers(view, headers).headers.contains_key(hash) == view.headers.contains_key(hash),
        with_headers(view, headers).headers[hash] == view.headers[hash],
        with_headers(view, headers).heights.contains_key(hash) == view.heights.contains_key(hash),
        with_headers(view, headers).heights[hash] == view.heights[hash],
    decreases headers.len(),
{
    if headers.len() > 0 {
        let rest = headers.drop_first();
        assert(headers[0].hash != hash);
        assert forall|j: int| 0 <= j < rest.len() implies (#[trigger] rest[j]).hash != hash by {
            assert(rest[j] == headers[j + 1]);
        }
        lemma_with_headers_keeps(with_header(view, headers[0]), rest, hash);
    }
}

/// A header that is found under its hash, with its height, is still found
/// so after headers were stored of which none has its hash but itself.
pub proof fn lemma_with_headers_settled(
    view: StoreView,
    headers: Seq<HeaderInfoView>,
    found: HeaderInfoView,
)
    requires
        lookup(view.headers, found.hash) == Ok::<HeaderInfoView, ErrorView>(found),
        height_of(view.heights, found.hash) == Some(found.height),
        forall|j: int|
            0 <= j < headers.len() && (#[trigger] headers[j]).hash == found.hash ==> headers[j]
                == found,
    ensures
        lookup(with_headers(view, headers).headers, found.hash) == Ok::<HeaderInfoView, ErrorView>(
            found,
        ),
        height_of(with_headers(view, headers).heights, found.hash) == Some(found.height),
    decreases headers.len(),
{
    if headers.len() > 0 {
        let rest = headers.drop_first();
        lemma_decoded_encoded(headers[0]);
        assert forall|j: int| 0 <= j < rest.len() && (#[trigger] rest[j]).hash
            == found.hash implies rest[j] == found by {
            assert(rest[j] == headers[j + 1]);
        }
        lemma_with_headers_settled(with_header(view, headers[0]), rest, found);
    }
}

/// After headers were stored, each of them that no other header with its
/// hash follows is found under its hash, with its height.
pub proof fn lemma_with_headers_holds(view: StoreView, headers: Seq<HeaderInfoView>, i: int)
    requires
        0 <= i < headers.len(),
        last_of_its_hash(headers, i),
    ensures
        lookup(with_headers(view, headers).headers, headers[i].hash) == Ok::<
            HeaderInfoView,
            ErrorView,
        >(headers[i]),
        height_of(with_headers(view, headers).heights, headers[i].hash) == Some(headers[i].height),
    decreases headers.len(),
{
    let rest = headers.drop_first();
    let next = with_header(view, headers[0]);
    if i == 0 {
        assert forall|j: int| 0 <= j < rest.len() && (#[trigger] rest[j]).hash
            == headers[0].hash implies rest[j] == headers[0] by {
            assert(rest[j] == headers[j + 1]);
        }
        lemma_decoded_encoded(headers[0]);
        lemma_with_headers_settled(next, rest, headers[0]);
    } else {
        assert(rest[i - 1] == headers[i]);
        assert forall|j: int| i - 1 < j < rest.len() && (#[trigger] rest[j]).hash == rest[i
            - 1].hash implies rest[j] == rest[i - 1] by {
            assert(rest[j] == headers[j + 1]);
        }
        lemma_with_headers_holds(next, rest, i - 1);
    }
}

/// What could be read under a hash before headers were stored can be read
/// under it afterwards.
pub proof fn lemma_with_headers_readable(
    view: StoreView,
    headers: Seq<HeaderInfoView>,
    hash: Seq<u8>,
)
    requires
        lookup(view.headers, hash) is Ok,
    ensures
        lookup(with_headers(view, headers).headers, hash) is Ok,
        none_has_hash(headers, hash) ==> lookup(with_headers(view, headers).headers, hash)
            == lookup(view.headers, hash),
    decreases headers.len(),
{
    if headers.len() > 0 {
        lemma_decoded_encoded(headers[0]);
        lemma_with_headers_readable(with_header(view, headers[0]), headers.drop_first(), hash);
    }
    if none_has_hash(headers, hash) {
        lemma_with_headers_keeps(view, headers, hash);
    }
}

/// Whether the headers are a chain by themselves: the first decodes,
/// carries its own hash and meets its proof of work, and the others follow
/// it, each checked against the one before.
pub open spec fn valid_batch(
    pow_limit: nat,
    allow_min_difficulty: bool,
    headers: Seq<HeaderInfoView>,
) -> bool {
    &&& headers.len() > 0
    &&& decoded_header(headers[0].header) matches Some(base) && header_pow_ok(pow_limit, base)
        && headers[0].hash == block_hash_of(base)
    &&& verify_headers_error(pow_limit, allow_min_difficulty, headers[0], headers.drop_first())
        is None
}

/// On a chain that is not initialised yet, `init` succeeds on a valid batch
/// of headers exactly where the batch holds more headers than the timeout;
/// on no headers at all it fails.
pub proof fn lemma_init_succeeds_iff(
    view: StoreView,
    timeout: u64,
    pow_limit: nat,
    allow_min_difficulty: bool,
    headers: Seq<HeaderInfoView>,
)
    requires
        view.base is None,
        headers.len() > 0 ==> valid_batch(pow_limit, allow_min_difficulty, headers),
    ensures
        init_error(view, timeout, pow_limit, allow_min_difficulty, headers) is None <==> headers.len()
            >= timeout + 1,
{
}

/// A second initialisation fails.
pub proof fn lemma_init_once(
    view: StoreView,
    timeout: u64,
    pow_limit: nat,
    allow_min_difficulty: bool,
    first: Seq<HeaderInfoView>,
    second: Seq<HeaderInfoView>,
)
    requires
        first.len() > 0,
    ensures
        init_error(initialized(view, first), timeout, pow_limit, allow_min_difficulty, second)
            == Some(ErrorView::InitError),
{
    lemma_with_headers_frame(with_base(view, first[0]), first);
}

/// After `init`, the base header is the first header and the tip the last;
/// every header that no other header with its hash follows is found under its
/// hash, with its height.
pub proof fn lemma_after_init(view: StoreView, headers: Seq<HeaderInfoView>, i: int)
    requires
        0 <= i < headers.len(),
        last_of_its_hash(headers, i),
    ensures
        record_header(initialized(view, headers).base) == Ok::<HeaderInfoView, ErrorView>(
            headers[0],
        ),
        record_header(initialized(view, headers).tip) == Ok::<HeaderInfoView, ErrorView>(
            headers.last(),
        ),
        lookup(initialized(view, headers).headers, headers[i].hash) == Ok::<
            HeaderInfoView,
            ErrorView,
        >(headers[i]),
        height_of(initialized(view, headers).heights, headers[i].hash) == Some(headers[i].height),
{
    lemma_with_headers_frame(with_base(view, headers[0]), headers);
    lemma_with_headers_holds(with_base(view, headers[0]), headers, i);
    lemma_decoded_encoded(headers[0]);
    lemma_decoded_encoded(headers.last());
}

/// Whether `new_headers` attach to the header with the hash `hash`: there is
/// a first one, it decodes, and it names that hash as its parent.
pub open spec fn attaches_to(new_headers: Seq<HeaderInfoView>, hash: Seq<u8>) -> bool {
    &&& new_headers.len() > 0
    &&& decoded_header(new_headers[0].header) matches Some(first) && first.prev_blockhash@ == hash
}

/// New headers that attach to the tip are accepted exactly where they are a
/// valid chain after the tip. They are then stored: the last is the tip, and
/// every one that no other header with its hash follows is found under its
/// hash, with its height. Where they are refused, the records stay as they
/// are.
pub proof fn lemma_extension(
    view: StoreView,
    pow_limit: nat,
    allow_min_difficulty: bool,
    tip: HeaderInfoView,
    new_headers: Seq<HeaderInfoView>,
    i: int,
)
    requires
        record_header(view.tip) == Ok::<HeaderInfoView, ErrorView>(tip),
        attaches_to(new_headers, tip.hash),
        0 <= i < new_headers.len(),
        last_of_its_hash(new_headers, i),
    ensures
        handled(view, pow_limit, allow_min_difficulty, new_headers).1 == verify_headers_error(
            pow_limit,
            allow_min_difficulty,
            tip,
            new_headers,
        ),
        handled(view, pow_limit, allow_min_difficulty, new_headers).1 is Some ==> handled(
            view,
            pow_limit,
            allow_min_difficulty,
            new_headers,
        ).0 == view,
        handled(view, pow_limit, allow_min_difficulty, new_headers).1 is None ==> {
            let after = handled(view, pow_limit, allow_min_difficulty, new_headers).0;
            &&& record_header(after.tip) == Ok::<HeaderInfoView, ErrorView>(new_headers.last())
            &&& after.base == view.base
            &&& lookup(after.headers, new_headers[i].hash) == Ok::<HeaderInfoView, ErrorView>(
                new_headers[i],
            )
            &&& height_of(after.heights, new_headers[i].hash) == Some(new_headers[i].height)
        },
{
    lemma_with_headers_frame(view, new_headers);
    lemma_with_headers_holds(view, new_headers, i);
    lemma_decoded_encoded(new_headers.last());
}

/// Whether `new_headers` are a checked fork: they attach to the stored header
/// `parent` under a hash other than the tip's, and are a valid chain after it.
pub open spec fn checked_fork(
    view: StoreView,
    pow_limit: nat,
    allow_min_difficulty: bool,
    tip: HeaderInfoView,
    fork_point: Seq<u8>,
    new_headers: Seq<HeaderInfoView>,
) -> bool {
    &&& record_header(view.tip) == Ok::<HeaderInfoView, ErrorView>(tip)
    &&& attaches_to(new_headers, fork_point)
    &&& fork_point != tip.hash
    &&& lookup(view.headers, fork_point) matches Ok(parent) && verify_headers_error(
        pow_limit,
        allow_min_difficulty,
        parent,
        new_headers,
    ) is None
}

/// A checked fork whose accumulated work is not above that of the tip is
/// refused with both works, and the records stay as they are.
pub proof fn lemma_fork_rejected(
    view: StoreView,
    pow_limit: nat,
    allow_min_difficulty: bool,
    tip: HeaderInfoView,
    fork_point: Seq<u8>,
    new_headers: Seq<HeaderInfoView>,
    new_work: nat,
    cur_work: nat,
)
    requires
        checked_fork(view, pow_limit, allow_min_difficulty, tip, fork_point, new_headers),
        parsed_work(new_headers.last().work) == Some(new_work),
        parsed_work(tip.work) == Some(cur_work),
        new_work <= cur_work,
    ensures
        handled(view, pow_limit, allow_min_difficulty, new_headers) == (
            view,
            Some(ErrorView::BTCChainWithNotEnoughWork(new_work, cur_work)),
        ),
{
}

/// Whether `branch` is the run of stored headers from `branch[0]` back to
/// the header under `stop`: each is found under its own hash and names the
/// next as its parent, the last names `stop`, under which a header is found
/// too; no hash occurs twice in the run, and none is `stop`.
pub open spec fn is_branch(view: StoreView, branch: Seq<HeaderInfoView>, stop: Seq<u8>) -> bool {
    &&& branch.len() > 0
    &&& lookup(view.headers, stop) is Ok
    &&& forall|i: int|
        0 <= i < branch.len() ==> {
            &&& lookup(view.headers, (#[trigger] branch[i]).hash) == Ok::<
                HeaderInfoView,
                ErrorView,
            >(branch[i])
            &&& branch[i].hash != stop
            &&& decoded_header(branch[i].header) matches Some(header) && header.prev_blockhash@
                == if i + 1 < branch.len() {
                branch[i + 1].hash
            } else {
                stop
            }
        }
    &&& forall|i: int, j: int|
        0 <= i < j < branch.len() ==> (#[trigger] branch[i]).hash != (#[trigger] branch[j]).hash
}

/// Whether `hash` is the hash of one of the headers.
pub open spec fn has_hash(headers: Seq<HeaderInfoView>, hash: Seq<u8>) -> bool {
    exists|i: int| 0 <= i < headers.len() && (#[trigger] headers[i]).hash == hash
}

/// Whether `after` is `view` without the headers of `branch` and their
/// heights, and with every other record as it is.
pub open spec fn branch_removed(view: StoreView, after: StoreView, branch: Seq<HeaderInfoView>) -> bool {
    &&& after.base == view.base
    &&& after.tip == view.tip
    &&& forall|hash: Seq<u8>|
        has_hash(branch, hash) ==> !(#[trigger] after.headers.contains_key(hash))
            && !after.heights.contains_key(hash)
    &&& forall|hash: Seq<u8>|
        !has_hash(branch, hash) ==> {
            &&& (#[trigger] after.headers.contains_key(hash)) == view.headers.contains_key(hash)
            &&& after.headers[hash] == view.headers[hash]
            &&& after.heights.contains_key(hash) == view.heights.contains_key(hash)
            &&& after.heights[hash] == view.heights[hash]
        }
}

proof fn lemma_has_hash_split(branch: Seq<HeaderInfoView>, hash: Seq<u8>)
    requires
        branch.len() > 0,
    ensures
        has_hash(branch, hash) == (hash == branch[0].hash || has_hash(branch.drop_first(), hash)),
{
    let rest = branch.drop_first();
    if has_hash(branch, hash) {
        let i = choose|i: int| 0 <= i < branch.len() && (#[trigger] branch[i]).hash == hash;
        if i > 0 {
            assert(rest[i - 1] == branch[i]);
        }
    }
    if has_hash(rest, hash) {
        let i = choose|i: int| 0 <= i < rest.len() && (#[trigger] rest[i]).hash == hash;
        assert(branch[i + 1] == rest[i]);
    }
    if hash == branch[0].hash {
        assert(branch[0].hash == hash);
    }
}

proof fn lemma_branch_step(view: StoreView, branch: Seq<HeaderInfoView>, stop: Seq<u8>)
    requires
        is_branch(view, branch, stop),
        branch.len() > 1,
    ensures
        is_branch(without_header(view, branch[0].hash), branch.drop_first(), stop),
{
    let next = without_header(view, branch[0].hash);
    let rest = branch.drop_first();
    assert(branch[0].hash != stop);
    assert forall|i: int| 0 <= i < rest.len() implies {
        &&& lookup(next.headers, (#[trigger] rest[i]).hash) == Ok::<HeaderInfoView, ErrorView>(
            rest[i],
        )
        &&& rest[i].hash != stop
        &&& decoded_header(rest[i].header) matches Some(h) && h.prev_blockhash@ == if i + 1
            < rest.len() {
            rest[i + 1].hash
        } else {
            stop
        }
    } by {
        assert(rest[i] == branch[i + 1]);
        assert(branch[0].hash != branch[i + 1].hash);
        if i + 1 < rest.len() {
            assert(rest[i + 1] == branch[i + 2]);
        }
    }
    assert forall|i: int, j: int| 0 <= i < j < rest.len() implies (#[trigger] rest[i]).hash != (
    #[trigger] rest[j]).hash by {
        assert(rest[i] == branch[i + 1]);
        assert(rest[j] == branch[j + 1]);
    }
}

proof fn lemma_branch_removed_step(
    view: StoreView,
    after: StoreView,
    branch: Seq<HeaderInfoView>,
)
    requires
        branch.len() > 0,
        branch.len() > 1 ==> branch_removed(
            without_header(view, branch[0].hash),
            after,
            branch.drop_first(),
        ),
        branch.len() == 1 ==> after == without_header(view, branch[0].hash),
    ensures
        branch_removed(view, after, branch),
{
    assert forall|hash: Seq<u8>| true implies has_hash(branch, hash) == (hash == branch[0].hash
        || #[trigger] has_hash(branch.drop_first(), hash)) by {
        lemma_has_hash_split(branch, hash);
    }
    if branch.len() == 1 {
        assert forall|hash: Seq<u8>| !#[trigger] has_hash(branch.drop_first(), hash) by {
            if has_hash(branch.drop_first(), hash) {
                let i = choose|i: int|
                    0 <= i < branch.drop_first().len() && (#[trigger] branch.drop_first()[i]).hash
                        == hash;
            }
        }
    }
}

/// The first step of the walk along a branch.
proof fn lemma_rolled_back_unfold(view: StoreView, branch: Seq<HeaderInfoView>, stop: Seq<u8>)
    requires
        view.headers.dom().finite(),
        is_branch(view, branch, stop),
    ensures
        branch.len() == 1 ==> rolled_back(view, branch[0].hash, branch[0].header, stop) == (
            without_header(view, branch[0].hash),
            None::<ErrorView>,
        ),
        branch.len() > 1 ==> rolled_back(view, branch[0].hash, branch[0].header, stop)
            == rolled_back(
            without_header(view, branch[0].hash),
            branch[1].hash,
            branch[1].header,
            stop,
        ),
{
    let at = branch[0].hash;
    let next = without_header(view, at);
    assert(at != stop);
    let header = decoded_header(branch[0].header).unwrap();
    assert(next.headers.dom().finite());
    if branch.len() == 1 {
        assert(header.prev_blockhash@ == stop);
        assert(lookup(next.headers, stop) is Ok);
        let parent = lookup(next.headers, stop)->Ok_0;
        assert(rolled_back(next, stop, parent.header, stop) == (next, None::<ErrorView>));
    } else {
        assert(header.prev_blockhash@ == branch[1].hash);
        assert(branch[1].hash != at);
        assert(lookup(next.headers, branch[1].hash) == Ok::<HeaderInfoView, ErrorView>(branch[1]));
    }
}

/// The walk back along a branch ends without error; it removes the headers
/// of the branch and their heights, and leaves every other record as it is.
pub proof fn lemma_rolled_back_branch(
    view: StoreView,
    branch: Seq<HeaderInfoView>,
    stop: Seq<u8>,
)
    requires
        view.headers.dom().finite(),
        is_branch(view, branch, stop),
    ensures
        rolled_back(view, branch[0].hash, branch[0].header, stop).1 is None,
        branch_removed(
            view,
            rolled_back(view, branch[0].hash, branch[0].header, stop).0,
            branch,
        ),
    decreases branch.len(),
{
    let next = without_header(view, branch[0].hash);
    let after = rolled_back(view, branch[0].hash, branch[0].header, stop).0;
    lemma_rolled_back_unfold(view, branch, stop);
    if branch.len() > 1 {
        let rest = branch.drop_first();
        assert(rest[0] == branch[1]);
        lemma_branch_step(view, branch, stop);
        lemma_rolled_back_branch(next, rest, stop);
    }
    lemma_branch_removed_step(view, after, branch);
}

/// Whether none of `new_headers` has the hash of a header of `branch`.
pub open spec fn apart(new_headers: Seq<HeaderInfoView>, branch: Seq<HeaderInfoView>) -> bool {
    forall|i: int, j: int|
        0 <= i < new_headers.len() && 0 <= j < branch.len() ==> (#[trigger] new_headers[i]).hash != (
        #[trigger] branch[j]).hash
}

/// A branch stays a branch when headers that share no hash with it are
/// stored and the tip is moved.
pub proof fn lemma_branch_after_store(
    view: StoreView,
    new_headers: Seq<HeaderInfoView>,
    branch: Seq<HeaderInfoView>,
    stop: Seq<u8>,
)
    requires
        new_headers.len() > 0,
        is_branch(view, branch, stop),
        apart(new_headers, branch),
    ensures
        is_branch(with_tip(with_headers(view, new_headers), new_headers.last()), branch, stop),
{
    let moved = with_tip(with_headers(view, new_headers), new_headers.last());
    lemma_with_headers_readable(view, new_headers, stop);
    assert forall|j: int| 0 <= j < branch.len() implies lookup(
        moved.headers,
        (#[trigger] branch[j]).hash,
    ) == Ok::<HeaderInfoView, ErrorView>(branch[j]) by {
        assert forall|n: int| 0 <= n < new_headers.len() implies (#[trigger] new_headers[n]).hash
            != branch[j].hash by {}
        lemma_with_headers_keeps(view, new_headers, branch[j].hash);
    }
}

/// What `branch_removed` says of one hash.
proof fn lemma_branch_removed_at(
    view: StoreView,
    after: StoreView,
    branch: Seq<HeaderInfoView>,
    hash: Seq<u8>,
)
    requires
        branch_removed(view, after, branch),
    ensures
        has_hash(branch, hash) ==> !after.headers.contains_key(hash) && !after.heights.contains_key(
            hash,
        ),
        !has_hash(branch, hash) ==> lookup(after.headers, hash) == lookup(view.headers, hash)
            && height_of(after.heights, hash) == height_of(view.heights, hash),
{
    assert(after.headers.contains_key(hash) || !after.headers.contains_key(hash));
}

/// Whether a hash that the fork or the fork point has is on the branch.
proof fn lemma_not_on_branch(
    branch: Seq<HeaderInfoView>,
    stop: Seq<u8>,
    view: StoreView,
    new_headers: Seq<HeaderInfoView>,
    i: int,
)
    requires
        is_branch(view, branch, stop),
        apart(new_headers, branch),
        0 <= i < new_headers.len(),
    ensures
        !has_hash(branch, stop),
        !has_hash(branch, new_headers[i].hash),
{
    if has_hash(branch, stop) {
        let j = choose|j: int| 0 <= j < branch.len() && (#[trigger] branch[j]).hash == stop;
    }
    if has_hash(branch, new_headers[i].hash) {
        let j = choose|j: int|
            0 <= j < branch.len() && (#[trigger] branch[j]).hash == new_headers[i].hash;
    }
}

/// A checked fork with strictly more accumulated work than the tip is
/// accepted, where the old branch runs from the tip back to the header the
/// fork attaches to and shares no header with the fork. Afterwards the last
/// header of the fork is the tip; no header of the old branch is found under
/// its hash any more; a header is still found under the hash that the fork
/// attaches to, the same as before unless the fork holds one with that hash;
/// and every header of the fork that no other header with its hash follows
/// is found under its hash, with its height.
pub proof fn lemma_fork_accepted(
    view: StoreView,
    pow_limit: nat,
    allow_min_difficulty: bool,
    tip: HeaderInfoView,
    fork_point: Seq<u8>,
    new_headers: Seq<HeaderInfoView>,
    branch: Seq<HeaderInfoView>,
    new_work: nat,
    cur_work: nat,
    i: int,
    k: int,
)
    requires
        view.headers.dom().finite(),
        checked_fork(view, pow_limit, allow_min_difficulty, tip, fork_point, new_headers),
        parsed_work(new_headers.last().work) == Some(new_work),
        parsed_work(tip.work) == Some(cur_work),
        new_work > cur_work,
        is_branch(view, branch, fork_point),
        branch[0] == tip,
        apart(new_headers, branch),
        0 <= i < new_headers.len(),
        last_of_its_hash(new_headers, i),
        0 <= k < branch.len(),
    ensures
        handled(view, pow_limit, allow_min_difficulty, new_headers).1 is None,
        ({
            let after = handled(view, pow_limit, allow_min_difficulty, new_headers).0;
            &&& record_header(after.tip) == Ok::<HeaderInfoView, ErrorView>(new_headers.last())
            &&& after.base == view.base
            &&& lookup(after.headers, branch[k].hash) is Err
            &&& height_of(after.heights, branch[k].hash) is None
            &&& lookup(after.headers, fork_point) is Ok
            &&& none_has_hash(new_headers, fork_point) ==> lookup(after.headers, fork_point)
                == lookup(view.headers, fork_point)
            &&& lookup(after.headers, new_headers[i].hash) == Ok::<HeaderInfoView, ErrorView>(
                new_headers[i],
            )
            &&& height_of(after.heights, new_headers[i].hash) == Some(new_headers[i].height)
        }),
{
    let moved = with_tip(with_headers(view, new_headers), new_headers.last());
    lemma_with_headers_frame(view, new_headers);
    lemma_with_headers_holds(view, new_headers, i);
    lemma_with_headers_readable(view, new_headers, fork_point);
    lemma_decoded_encoded(new_headers.last());
    lemma_branch_after_store(view, new_headers, branch, fork_point);
    lemma_rolled_back_branch(moved, branch, fork_point);
    assert(handled(view, pow_limit, allow_min_difficulty, new_headers) == fork_chosen(
        view,
        tip,
        fork_point,
        new_headers,
    ));
    let after = handled(view, pow_limit, allow_min_difficulty, new_headers).0;
    assert(after == rolled_back(moved, tip.hash, tip.header, fork_point).0);
    assert(has_hash(branch, branch[k].hash));
    lemma_not_on_branch(branch, fork_point, view, new_headers, i);
    lemma_branch_removed_at(moved, after, branch, branch[k].hash);
    lemma_branch_removed_at(moved, after, branch, fork_point);
    lemma_branch_removed_at(moved, after, branch, new_headers[i].hash);
}

/// Whether the two maps go together: under every hash with a header lies a
/// persisted header with that hash, and its height lies under the same hash
/// in the map of heights, which holds nothing else.
pub open spec fn indexed(view: StoreView) -> bool {
    &&& forall|hash: Seq<u8>| #[trigger]
        view.headers.contains_key(hash) <==> view.heights.contains_key(hash)
    &&& forall|hash: Seq<u8>| #[trigger]
        view.headers.contains_key(hash) ==> stored_under(view, hash)
}

/// Whether what lies under `hash` is a persisted header with that hash and
/// with the height that lies under it.
pub open spec fn stored_under(view: StoreView, hash: Seq<u8>) -> bool {
    &&& decoded(view.headers[hash]) is Some
    &&& decoded(view.headers[hash])->Some_0.hash == hash
    &&& decoded(view.headers[hash])->Some_0.height == view.heights[hash]
}

/// Storing headers keeps the two maps together.
pub proof fn lemma_with_headers_indexed(view: StoreView, headers: Seq<HeaderInfoView>)
    requires
        indexed(view),
    ensures
        indexed(with_headers(view, headers)),
    decreases headers.len(),
{
    if headers.len() > 0 {
        lemma_decoded_encoded(headers[0]);
        lemma_with_headers_indexed(with_header(view, headers[0]), headers.drop_first());
    }
}

/// The walk that removes a branch, however it ends, leaves the base header,
/// the tip and what is stored besides the four records as they are, and
/// keeps the two maps together.
pub proof fn lemma_rolled_back_keeps(
    view: StoreView,
    at: Seq<u8>,
    at_header: Seq<u8>,
    stop: Seq<u8>,
)
    requires
        view.headers.dom().finite(),
    ensures
        rolled_back(view, at, at_header, stop).0.base == view.base,
        rolled_back(view, at, at_header, stop).0.tip == view.tip,
        rolled_back(view, at, at_header, stop).0.other == view.other,
        rolled_back(view, at, at_header, stop).0.headers.dom().finite(),
        indexed(view) ==> indexed(rolled_back(view, at, at_header, stop).0),
    decreases
            view.headers.dom().len() + if view.headers.contains_key(at) {
                0nat
            } else {
                1nat
            },
{
    if at != stop {
        if let Some(header) = decoded_header(at_header) {
            let next = without_header(view, at);
            if let Ok(parent) = lookup(next.headers, header.prev_blockhash@) {
                lemma_rolled_back_keeps(next, header.prev_blockhash@, parent.header, stop);
            }
        }
    }
}

/// `init` keeps the two maps together.
pub proof fn lemma_init_keeps_indexed(view: StoreView, headers: Seq<HeaderInfoView>)
    requires
        indexed(view),
    ensures
        indexed(initialized(view, headers)),
{
    lemma_with_headers_indexed(with_base(view, headers[0]), headers);
}

/// Whether the handling of the headers is the outcome of the walk that
/// removes the old branch, after the headers were stored and the tip moved.
pub open spec fn ends_in_walk(
    view: StoreView,
    pow_limit: nat,
    allow_min_difficulty: bool,
    new_headers: Seq<HeaderInfoView>,
) -> bool {
    &&& new_headers.len() > 0
    &&& record_header(view.tip) is Ok
    &&& decoded_header(new_headers[0].header) is Some
    &&& handled(view, pow_limit, allow_min_difficulty, new_headers) == rolled_back(
        with_tip(with_headers(view, new_headers), new_headers.last()),
        record_header(view.tip)->Ok_0.hash,
        record_header(view.tip)->Ok_0.header,
        decoded_header(new_headers[0].header)->Some_0.prev_blockhash@,
    )
}

/// Whatever headers are handled, and however the handling ends, the base
/// header and what is stored besides the four records stay as they are, and
/// the two maps stay together. Where the handling
/// ends with an error, nothing was written, unless it is the walk that removes
/// the old branch that failed.
pub proof fn lemma_handled_keeps(
    view: StoreView,
    pow_limit: nat,
    allow_min_difficulty: bool,
    new_headers: Seq<HeaderInfoView>,
)
    requires
        view.headers.dom().finite(),
    ensures
        handled(view, pow_limit, allow_min_difficulty, new_headers).0.base == view.base,
        handled(view, pow_limit, allow_min_difficulty, new_headers).0.other == view.other,
        handled(view, pow_limit, allow_min_difficulty, new_headers).0.headers.dom().finite(),
        indexed(view) ==> indexed(handled(view, pow_limit, allow_min_difficulty, new_headers).0),
        handled(view, pow_limit, allow_min_difficulty, new_headers).1 is Some ==> handled(
            view,
            pow_limit,
            allow_min_difficulty,
            new_headers,
        ).0 == view || ends_in_walk(view, pow_limit, allow_min_difficulty, new_headers),
{
    lemma_with_headers_frame(view, new_headers);
    if indexed(view) {
        lemma_with_headers_indexed(view, new_headers);
    }
    if let Ok(tip) = record_header(view.tip) {
        if new_headers.len() > 0 {
            if let Some(first) = decoded_header(new_headers[0].header) {
                lemma_rolled_back_keeps(
                    with_tip(with_headers(view, new_headers), new_headers.last()),
                    tip.hash,
                    tip.header,
                    first.prev_blockhash@,
                );
            }
        }
    }
}

/// The records after one batch of headers after another was handled, whether
/// accepted or refused.
pub open spec fn handled_all(
    view: StoreView,
    pow_limit: nat,
    allow_min_difficulty: bool,
    batches: Seq<Seq<HeaderInfoView>>,
) -> StoreView
    decreases batches.len(),
{
    if batches.len() == 0 {
        view
    } else {
        handled_all(
            handled(view, pow_limit, allow_min_difficulty, batches[0]).0,
            pow_limit,
            allow_min_difficulty,
            batches.drop_first(),
        )
    }
}

/// Through any number of calls that handle headers, the base header and
/// what is stored besides the four records stay as they are, and the two maps
/// stay together.
pub proof fn lemma_base_never_changes(
    view: StoreView,
    pow_limit: nat,
    allow_min_difficulty: bool,
    batches: Seq<Seq<HeaderInfoView>>,
)
    requires
        view.headers.dom().finite(),
    ensures
        handled_all(view, pow_limit, allow_min_difficulty, batches).base == view.base,
        handled_all(view, pow_limit, allow_min_difficulty, batches).other == view.other,
        handled_all(view, pow_limit, allow_min_difficulty, batches).headers.dom().finite(),
        indexed(view) ==> indexed(handled_all(view, pow_limit, allow_min_difficulty, batches)),
    decreases batches.len(),
{
    if batches.len() > 0 {
        lemma_handled_keeps(view, pow_limit, allow_min_difficulty, batches[0]);
        lemma_base_never_changes(
            handled(view, pow_limit, allow_min_difficulty, batches[0]).0,
            pow_limit,
            allow_min_difficulty,
            batches.drop_first(),
        );
    }
}

} // verus!
