use vstd::prelude::*;

use crate::contract::{add_request_error, is_first_with_op};
use crate::errors::PoolError;
use crate::paging::page_of;
use crate::storage::{
    active_of, admitted_view, completed_of, holds_op_id, is_last_index_of, memo_step, pool_inv,
    record_of_pair, settled_view, lemma_add_keeps_inv, lemma_settle_keeps_inv, PoolView,
    COMPLETED_REQUESTS_PAGE_SIZE,
};
use crate::types::{completed_from, Address, SwapRequest};

verus! {

/// Operation-id fencing: once a request with id `admitted` has been accepted
/// for any destination, every later request whose id is not greater is refused
/// as already consumed, whatever destination it names.
pub proof fn lemma_op_id_fencing(
    v: PoolView,
    earlier_destination: Address,
    admitted: u128,
    operator: Address,
    proxy_wallet: Address,
    op_id: u128,
)
    requires
        pool_inv(v),
        holds_op_id(v, earlier_destination, admitted),
        op_id <= admitted,
        v.operator == Some(operator),
    ensures
        add_request_error(v, operator, proxy_wallet, op_id) == Some(PoolError::OperationIdAlreadyConsumed),
{
    let d = earlier_destination;
    if exists|i: int| 0 <= i < active_of(v, d).len() && #[trigger] active_of(v, d)[i].op_id == admitted {
        let i = choose|i: int| 0 <= i < active_of(v, d).len() && #[trigger] active_of(v, d)[i].op_id == admitted;
        assert(active_of(v, d)[i].op_id <= v.last_operation_id);
    } else {
        let i = choose|i: int| 0 <= i < completed_of(v, d).len() && #[trigger] completed_of(v, d)[i].op_id == admitted;
        assert(completed_of(v, d)[i].op_id <= v.last_operation_id);
    }
}

/// Memo lookups are idempotent: asking twice for the memo of the same pair
/// gives the same code, and the second lookup changes nothing.
pub proof fn lemma_memo_idempotent(
    v0: PoolView,
    user: Address,
    token: Address,
    v1: PoolView,
    first: [u8; 28],
    v2: PoolView,
    second: [u8; 28],
)
    requires
        pool_inv(v0),
        pool_inv(v1),
        memo_step(v0, user, token, v1, first),
        memo_step(v1, user, token, v2, second),
    ensures
        second == first,
        v2 == v1,
{
    let n = v0.memos.len() as int;
    if !crate::storage::has_pair(v0.memos, user, token) {
        assert(record_of_pair(v1.memos, n, user, token));
    }
    let i = choose|i: int| #[trigger] record_of_pair(v1.memos, i, user, token) && v1.memos[i].memo == second;
    let j = choose|j: int| #[trigger] record_of_pair(v1.memos, j, user, token) && v1.memos[j].memo == first;
    if i != j {
        assert(v1.memos[i].user == v1.memos[j].user);
    }
}

/// Memo codes are collision-free: two lookups for different pairs give
/// different codes.
pub proof fn lemma_memo_distinct(
    v0: PoolView,
    user1: Address,
    token1: Address,
    v1: PoolView,
    memo1: [u8; 28],
    user2: Address,
    token2: Address,
    v2: PoolView,
    memo2: [u8; 28],
)
    requires
        pool_inv(v0),
        pool_inv(v1),
        pool_inv(v2),
        memo_step(v0, user1, token1, v1, memo1),
        memo_step(v1, user2, token2, v2, memo2),
        user1 != user2 || token1 != token2,
    ensures
        memo1 != memo2,
{
    let n0 = v0.memos.len() as int;
    let n1 = v1.memos.len() as int;
    if !crate::storage::has_pair(v0.memos, user1, token1) {
        assert(record_of_pair(v1.memos, n0, user1, token1));
    }
    let i = choose|i: int| #[trigger] record_of_pair(v1.memos, i, user1, token1) && v1.memos[i].memo == memo1;
    assert(v2.memos[i] == v1.memos[i]);
    if !crate::storage::has_pair(v1.memos, user2, token2) {
        assert(record_of_pair(v2.memos, n1, user2, token2));
    }
    let j = choose|j: int| #[trigger] record_of_pair(v2.memos, j, user2, token2) && v2.memos[j].memo == memo2;
    assert(i != j);
    assert(crate::memo::memo_value(v2.memos[i].memo@) == i);
    assert(crate::memo::memo_value(v2.memos[j].memo@) == j);
}

/// Page rollover: as `COMPLETED_REQUESTS_PAGE_SIZE + 1` completed entries are
/// appended one by one to a destination's log, the last-page pointer
/// (`len / page size`) stays on page 0 until that page is full, then moves to
/// page 1, once; the last entry is alone at offset 0 of page 1.
pub proof fn lemma_page_rollover<T>(items: Seq<T>)
    requires
        items.len() == COMPLETED_REQUESTS_PAGE_SIZE + 1,
    ensures
        forall|k: nat| k < COMPLETED_REQUESTS_PAGE_SIZE ==> #[trigger] (k / (COMPLETED_REQUESTS_PAGE_SIZE as nat)) == 0,
        (COMPLETED_REQUESTS_PAGE_SIZE as nat) / (COMPLETED_REQUESTS_PAGE_SIZE as nat) == 1,
        items.len() / (COMPLETED_REQUESTS_PAGE_SIZE as nat) == 1,
        page_of(items, COMPLETED_REQUESTS_PAGE_SIZE as nat, 0) == items.subrange(0, COMPLETED_REQUESTS_PAGE_SIZE as int),
        page_of(items, COMPLETED_REQUESTS_PAGE_SIZE as nat, 1) == seq![items[COMPLETED_REQUESTS_PAGE_SIZE as int]],
{
    let ps = COMPLETED_REQUESTS_PAGE_SIZE as int;
    assert forall|k: nat| k < COMPLETED_REQUESTS_PAGE_SIZE implies #[trigger] (k / (COMPLETED_REQUESTS_PAGE_SIZE as nat)) == 0 by {
        vstd::arithmetic::div_mod::lemma_basic_div(k as int, ps);
    }
    vstd::arithmetic::div_mod::lemma_fundamental_div_mod_converse(ps, ps, 1, 0);
    vstd::arithmetic::div_mod::lemma_fundamental_div_mod_converse(ps + 1, ps, 1, 1);
    assert(page_of(items, COMPLETED_REQUESTS_PAGE_SIZE as nat, 1) =~= seq![items[ps]]);
}

/// Lifecycle round trip: a request admitted for `destination` and then settled
/// with `amount_out` is no longer active, and the destination's completed log
/// holds exactly one entry with its operation id, which is the request with
/// `amount_out`.
pub proof fn lemma_lifecycle_round_trip(
    v0: PoolView,
    destination: Address,
    request: SwapRequest,
    first: int,
    last: int,
    amount_out: i128,
)
    requires
        pool_inv(v0),
        request.destination == destination,
        request.op_id > v0.last_operation_id,
        is_first_with_op(active_of(admitted_view(v0, destination, request), destination), request.op_id, first),
        is_last_index_of(
            active_of(admitted_view(v0, destination, request), destination),
            active_of(admitted_view(v0, destination, request), destination)[first],
            last,
        ),
    ensures
        ({
            let v2 = settled_view(admitted_view(v0, destination, request), destination, last, amount_out);
            &&& forall|i: int| 0 <= i < active_of(v2, destination).len() ==> (#[trigger] active_of(v2, destination)[i]).op_id != request.op_id
            &&& exists|j: int|
                0 <= j < completed_of(v2, destination).len() && completed_of(v2, destination)[j] == completed_from(request, amount_out)
                && forall|j2: int| 0 <= j2 < completed_of(v2, destination).len() && (#[trigger] completed_of(v2, destination)[j2]).op_id == request.op_id ==> j2 == j
        }),
{
    let d = destination;
    let v1 = admitted_view(v0, d, request);
    lemma_add_keeps_inv(v0, v1, d, request);
    let a1 = active_of(v1, d);
    let n = active_of(v0, d).len() as int;
    assert(a1 == active_of(v0, d).push(request));
    assert(a1[n] == request);
    if first != n {
        assert(a1[first].op_id != a1[n].op_id);
    }
    if last != first {
        assert(a1[last].op_id != a1[first].op_id);
    }
    let v2 = settled_view(v1, d, last, amount_out);
    lemma_settle_keeps_inv(v1, d, last, amount_out);
    assert(active_of(v2, d) == a1.remove(last));
    let c1 = completed_of(v1, d);
    assert(completed_of(v2, d) == c1.push(completed_from(request, amount_out)));
    assert forall|i: int| 0 <= i < active_of(v2, d).len() implies (#[trigger] active_of(v2, d)[i]).op_id != request.op_id by {
        let ii = if i < last { i } else { i + 1 };
        assert(active_of(v2, d)[i] == a1[ii]);
        assert(a1[ii].op_id != a1[last].op_id);
    }
    let j = c1.len() as int;
    assert(completed_of(v2, d)[j] == completed_from(request, amount_out));
    assert forall|j2: int| 0 <= j2 < completed_of(v2, d).len() && (#[trigger] completed_of(v2, d)[j2]).op_id == request.op_id implies j2 == j by {
        if j2 < j {
            assert(completed_of(v2, d)[j2] == c1[j2]);
            assert(a1[n].op_id != c1[j2].op_id);
        }
    }
}

/// A destination is indexed once: after requests for `destination` were admitted
/// and settled, admitting another one for it leaves the destination index as it
/// was, and the index lists the destination exactly once.
pub proof fn lemma_destination_indexed_once(
    v0: PoolView,
    destination: Address,
    first: SwapRequest,
    k: int,
    amount_out: i128,
    second: SwapRequest,
)
    requires
        pool_inv(v0),
        first.destination == destination,
        first.op_id > v0.last_operation_id,
        0 <= k < active_of(admitted_view(v0, destination, first), destination).len(),
        second.destination == destination,
        second.op_id > first.op_id,
    ensures
        ({
            let v1 = admitted_view(v0, destination, first);
            let v2 = settled_view(v1, destination, k, amount_out);
            let v3 = admitted_view(v2, destination, second);
            &&& v3.destinations == v1.destinations
            &&& exists|i: int| 0 <= i < v3.destinations.len() && v3.destinations[i] == destination
                && forall|i2: int| 0 <= i2 < v3.destinations.len() && #[trigger] v3.destinations[i2] == destination ==> i2 == i
        }),
{
    let d = destination;
    let v1 = admitted_view(v0, d, first);
    lemma_add_keeps_inv(v0, v1, d, first);
    let v2 = settled_view(v1, d, k, amount_out);
    lemma_settle_keeps_inv(v1, d, k, amount_out);
    assert(v2.requests.contains_key(d));
    let v3 = admitted_view(v2, d, second);
    assert(v3.destinations == v1.destinations);
    assert(v1.requests.contains_key(d));
    assert(v1.destinations.contains(d));
    let i = choose|i: int| 0 <= i < v1.destinations.len() && v1.destinations[i] == d;
    assert forall|i2: int| 0 <= i2 < v3.destinations.len() && #[trigger] v3.destinations[i2] == d implies i2 == i by {}
}

} // verus!
