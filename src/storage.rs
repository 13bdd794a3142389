use std::collections::HashMap;
use vstd::prelude::*;

use crate::errors::PoolError;
use crate::memo::{base_pow, is_memo_text, memo_value};
use crate::paging::{page_of, PagedList};
use crate::types::{Address, CompletedSwapRequest, MemoRecord, SwapRequest};

verus! {

broadcast use vstd::std_specs::hash::group_hash_axioms;

/// Capacity of one page of a destination's completed requests.
pub const COMPLETED_REQUESTS_PAGE_SIZE: u32 = 100;

/// Capacity of one page of the destination index.
pub const DESTINATIONS_PAGE_SIZE: u32 = 100;

/// Version of the pool's rules.
pub const VERSION: u32 = 104;

/// The state of a swap pool: its roles, intake policy, the fencing counter,
/// the active and completed requests of each destination, the destination
/// index and the memo registry.
pub struct PoolContract {
    pub(crate) admin: Option<Address>,
    pub(crate) operator: Option<Address>,
    pub(crate) swap_router: Option<Address>,
    pub(crate) proxy_wallets: HashMap<Address, Address>,
    pub(crate) wallet_by_token: HashMap<Address, Address>,
    pub(crate) operational_fees: HashMap<Address, i128>,
    pub(crate) last_operation_id: u128,
    pub(crate) requests: HashMap<Address, Vec<SwapRequest>>,
    pub(crate) completed: HashMap<Address, PagedList<CompletedSwapRequest>>,
    pub(crate) destinations: PagedList<Address>,
    pub(crate) memos: Vec<MemoRecord>,
    pub(crate) next_memo: [u8; 28],
    pub(crate) reject_zero_output: bool,
}

/// The pool as mathematical values.
pub struct PoolView {
    pub admin: Option<Address>,
    pub operator: Option<Address>,
    pub swap_router: Option<Address>,
    /// Intake wallet to the output token it serves.
    pub proxy_wallets: Map<Address, Address>,
    /// Fee taken at intake, by input token.
    pub operational_fees: Map<Address, i128>,
    /// The greatest operation id accepted so far, 0 before the first.
    pub last_operation_id: u128,
    /// Active requests of each destination ever seen, oldest first.
    pub requests: Map<Address, Seq<SwapRequest>>,
    /// Completed requests of each destination, in completion order.
    pub completed: Map<Address, Seq<CompletedSwapRequest>>,
    /// Every destination ever seen, in order of first appearance.
    pub destinations: Seq<Address>,
    /// Memo records, in assignment order.
    pub memos: Seq<MemoRecord>,
    /// Whether a swap that produced nothing is refused.
    pub reject_zero_output: bool,
}

/// Active requests of `d`; empty for a destination never seen.
pub open spec fn active_of(v: PoolView, d: Address) -> Seq<SwapRequest> {
    if v.requests.contains_key(d) {
        v.requests[d]
    } else {
        Seq::empty()
    }
}

/// Completed requests of `d`; empty when none.
pub open spec fn completed_of(v: PoolView, d: Address) -> Seq<CompletedSwapRequest> {
    if v.completed.contains_key(d) {
        v.completed[d]
    } else {
        Seq::empty()
    }
}

/// Fee taken at intake of `token`; 0 when none was set.
pub open spec fn fee_of(v: PoolView, token: Address) -> i128 {
    if v.operational_fees.contains_key(token) {
        v.operational_fees[token]
    } else {
        0
    }
}

/// `op_id` is held by a request of `d`, active or completed.
pub open spec fn holds_op_id(v: PoolView, d: Address, op_id: u128) -> bool {
    (exists|i: int| 0 <= i < active_of(v, d).len() && #[trigger] active_of(v, d)[i].op_id == op_id)
        || (exists|i: int|
        0 <= i < completed_of(v, d).len() && #[trigger] completed_of(v, d)[i].op_id == op_id)
}

/// Memo `i` is the base-62 form of `i`, and no pair has two memos.
pub open spec fn memos_inv(memos: Seq<MemoRecord>) -> bool {
    &&& forall|i: int|
        0 <= i < memos.len() ==> is_memo_text((#[trigger] memos[i]).memo@) && memo_value(
            memos[i].memo@,
        ) == i
    &&& forall|i: int, j: int|
        0 <= i < memos.len() && 0 <= j < memos.len() && i != j ==> !((#[trigger] memos[i]).user
            == (#[trigger] memos[j]).user && memos[i].token == memos[j].token)
}

/// What holds of every reachable pool.
pub open spec fn pool_inv(v: PoolView) -> bool {
    &&& v.destinations.no_duplicates()
    &&& forall|d: Address| #[trigger] v.requests.contains_key(d) <==> v.destinations.contains(d)
    &&& forall|d: Address| #[trigger] v.completed.contains_key(d) ==> v.requests.contains_key(d)
    &&& forall|d: Address, i: int|
        0 <= i < active_of(v, d).len() ==> (#[trigger] active_of(v, d)[i]).destination == d
            && 0 < active_of(v, d)[i].op_id <= v.last_operation_id
    &&& forall|d: Address, i: int|
        0 <= i < completed_of(v, d).len() ==> (#[trigger] completed_of(v, d)[i]).destination
            == d && 0 < completed_of(v, d)[i].op_id <= v.last_operation_id
    &&& forall|d: Address, i: int, j: int|
        0 <= i < active_of(v, d).len() && 0 <= j < active_of(v, d).len() && i != j
            ==> (#[trigger] active_of(v, d)[i]).op_id != (#[trigger] active_of(v, d)[j]).op_id
    &&& forall|d: Address, i: int, j: int|
        0 <= i < completed_of(v, d).len() && 0 <= j < completed_of(v, d).len() && i != j
            ==> (#[trigger] completed_of(v, d)[i]).op_id != (#[trigger] completed_of(
            v,
            d,
        )[j]).op_id
    &&& forall|d: Address, i: int, j: int|
        0 <= i < active_of(v, d).len() && 0 <= j < completed_of(v, d).len() ==> (
        #[trigger] active_of(v, d)[i]).op_id != (#[trigger] completed_of(v, d)[j]).op_id
    &&& memos_inv(v.memos)
}

impl PoolContract {
    pub open(crate) spec fn view(&self) -> PoolView {
        PoolView {
            admin: self.admin,
            operator: self.operator,
            swap_router: self.swap_router,
            proxy_wallets: self.proxy_wallets@,
            operational_fees: self.operational_fees@,
            last_operation_id: self.last_operation_id,
            requests: Map::new(|d: Address| self.requests@.contains_key(d), |d: Address| self.requests@[d]@),
            completed: Map::new(|d: Address| self.completed@.contains_key(d), |d: Address| self.completed@[d]@),
            destinations: self.destinations@,
            memos: self.memos@,
            reject_zero_output: self.reject_zero_output,
        }
    }

    /// The parts of the state that the view does not show are in order.
    pub open(crate) spec fn structure_ok(&self) -> bool {
        &&& self.destinations.wf()
        &&& self.destinations.capacity() == DESTINATIONS_PAGE_SIZE
        &&& forall|d: Address| #[trigger] self.completed@.contains_key(d) ==> self.completed@[d].wf()
            && self.completed@[d].capacity() == COMPLETED_REQUESTS_PAGE_SIZE
        &&& forall|w: Address| #[trigger] self.proxy_wallets@.contains_key(w)
            ==> self.wallet_by_token@.contains_key(self.proxy_wallets@[w])
            && self.wallet_by_token@[self.proxy_wallets@[w]] == w
        &&& forall|t: Address| #[trigger] self.wallet_by_token@.contains_key(t)
            ==> self.proxy_wallets@.contains_key(self.wallet_by_token@[t])
            && self.proxy_wallets@[self.wallet_by_token@[t]] == t
        &&& is_memo_text(self.next_memo@)
        &&& memo_value(self.next_memo@) == self.memos@.len()
    }

    pub open spec fn wf(&self) -> bool {
        self.structure_ok() && pool_inv(self@)
    }

    /// The destination index has room for one more destination.
    pub open spec fn can_add_destination(&self) -> bool {
        (self@.destinations.len() + 1) / (DESTINATIONS_PAGE_SIZE as nat) <= u32::MAX
    }

    /// The completed log of `d` has room for one more request.
    pub open spec fn can_complete_for(&self, d: Address) -> bool {
        (completed_of(self@, d).len() + 1) / (COMPLETED_REQUESTS_PAGE_SIZE as nat) <= u32::MAX
    }

    /// An empty pool: no roles, no wallets, no requests, no memos.
    pub fn new() -> (r: Self)
        ensures
            r.wf(),
            r@.admin is None,
            r@.operator is None,
            r@.swap_router is None,
            r@.proxy_wallets == Map::<Address, Address>::empty(),
            r@.operational_fees == Map::<Address, i128>::empty(),
            r@.last_operation_id == 0,
            r@.requests == Map::<Address, Seq<SwapRequest>>::empty(),
            r@.completed == Map::<Address, Seq<CompletedSwapRequest>>::empty(),
            r@.destinations == Seq::<Address>::empty(),
            r@.memos == Seq::<MemoRecord>::empty(),
            !r@.reject_zero_output,
    {
        let r = PoolContract {
            admin: None,
            operator: None,
            swap_router: None,
            proxy_wallets: HashMap::new(),
            wallet_by_token: HashMap::new(),
            operational_fees: HashMap::new(),
            last_operation_id: 0,
            requests: HashMap::new(),
            completed: HashMap::new(),
            destinations: PagedList::new(DESTINATIONS_PAGE_SIZE),
            memos: Vec::new(),
            next_memo: [48u8; 28],
            reject_zero_output: false,
        };
        proof {
            assert(r@.requests =~= Map::<Address, Seq<SwapRequest>>::empty());
            assert(r@.completed =~= Map::<Address, Seq<CompletedSwapRequest>>::empty());
            assert forall|i: int| 0 <= i < 28 implies r.next_memo@[i] == 48u8 by {}
            lemma_zero_memo(r.next_memo@);
        }
        r
    }
}

/// The active requests of `destination`, oldest first.
pub fn get_active_swap_requests(pool: &PoolContract, destination: Address) -> (r: Vec<SwapRequest>)
    ensures
        r@ == active_of(pool@, destination),
{
    match pool.requests.get(&destination) {
        Some(v) => crate::types::copy_vec(v),
        None => Vec::new(),
    }
}

/// No request was ever added for `destination`.
pub fn is_new_destination(pool: &PoolContract, destination: Address) -> (r: bool)
    ensures
        r == !pool@.requests.contains_key(destination),
{
    !pool.requests.contains_key(&destination)
}

/// The first active request of `destination` with operation id `op_id`.
pub fn get_swap_request_by_id(pool: &PoolContract, destination: Address, op_id: u128) -> (r:
    Result<SwapRequest, PoolError>)
    ensures
        match r {
            Ok(req) => exists|i: int|
                0 <= i < active_of(pool@, destination).len() && active_of(pool@, destination)[i]
                    == req && req.op_id == op_id && forall|j: int|
                    0 <= j < i ==> (#[trigger] active_of(pool@, destination)[j]).op_id != op_id,
            Err(e) => e == PoolError::ValueMissing && forall|i: int|
                0 <= i < active_of(pool@, destination).len() ==> (#[trigger] active_of(
                    pool@,
                    destination,
                )[i]).op_id != op_id,
        },
{
    let requests = match pool.requests.get(&destination) {
        Some(v) => v,
        None => {
            return Err(PoolError::ValueMissing);
        },
    };
    let ghost list = active_of(pool@, destination);
    assert(requests@ == list);
    let mut i: usize = 0;
    while i < requests.len()
        invariant
            requests@ == list,
            list == active_of(pool@, destination),
            i <= list.len(),
            forall|j: int| 0 <= j < i ==> (#[trigger] list[j]).op_id != op_id,
        decreases list.len() - i,
    {
        if requests[i].op_id == op_id {
            assert(active_of(pool@, destination)[i as int] == requests@[i as int]);
            return Ok(requests[i]);
        }
        i = i + 1;
    }
    Err(PoolError::ValueMissing)
}

/// The page of `destination`'s completed log that receives the next entry.
pub fn get_completed_swap_requests_last_page(pool: &PoolContract, destination: Address) -> (r: u32)
    requires
        pool.wf(),
    ensures
        r == completed_of(pool@, destination).len() / (COMPLETED_REQUESTS_PAGE_SIZE as nat),
{
    match pool.completed.get(&destination) {
        Some(list) => list.last_page(),
        None => 0,
    }
}

/// Page `page` of `destination`'s completed log.
pub fn get_completed_swap_requests_page(pool: &PoolContract, destination: Address, page: u32) -> (r:
    Vec<CompletedSwapRequest>)
    requires
        pool.wf(),
    ensures
        r@ == page_of(
            completed_of(pool@, destination),
            COMPLETED_REQUESTS_PAGE_SIZE as nat,
            page as nat,
        ),
{
    match pool.completed.get(&destination) {
        Some(list) => list.get_page(page),
        None => Vec::new(),
    }
}

/// Page `page` of the destination index.
pub fn get_destinations(pool: &PoolContract, page: u32) -> (r: Vec<Address>)
    requires
        pool.wf(),
    ensures
        r@ == page_of(pool@.destinations, DESTINATIONS_PAGE_SIZE as nat, page as nat),
{
    pool.destinations.get_page(page)
}

/// The page of the destination index that receives the next destination.
pub fn get_destinations_last_page(pool: &PoolContract) -> (r: u32)
    requires
        pool.wf(),
    ensures
        r == pool@.destinations.len() / (DESTINATIONS_PAGE_SIZE as nat),
{
    pool.destinations.last_page()
}

/// The pool after `r` was enqueued under `d`.
pub open spec fn admitted_view(v: PoolView, d: Address, r: SwapRequest) -> PoolView {
    PoolView {
        destinations: if v.requests.contains_key(d) {
            v.destinations
        } else {
            v.destinations.push(d)
        },
        requests: v.requests.insert(d, active_of(v, d).push(r)),
        last_operation_id: r.op_id,
        ..v
    }
}

/// Registers `destination` at the end of the destination index.
fn add_destination(pool: &mut PoolContract, destination: Address)
    requires
        old(pool).structure_ok(),
        old(pool).can_add_destination(),
    ensures
        final(pool).structure_ok(),
        final(pool)@ == (PoolView { destinations: old(pool)@.destinations.push(destination), ..old(pool)@ }),
{
    pool.destinations.append(destination);
    assert(pool@.requests =~= old(pool)@.requests);
    assert(pool@.completed =~= old(pool)@.completed);
}

/// Enqueues `value` under `destination`, registers the destination in the index
/// if it was never seen, and moves the fencing counter to the request's id.
pub fn add_swap_request(pool: &mut PoolContract, destination: Address, value: &SwapRequest)
    requires
        old(pool).wf(),
        value.destination == destination,
        value.op_id > old(pool)@.last_operation_id,
        !old(pool)@.requests.contains_key(destination) ==> old(pool).can_add_destination(),
    ensures
        final(pool).wf(),
        final(pool)@ == admitted_view(old(pool)@, destination, *value),
{
    let ghost v0 = pool@;
    if is_new_destination(pool, destination) {
        add_destination(pool, destination);
    }
    let mut requests = match pool.requests.remove(&destination) {
        Some(v) => v,
        None => Vec::new(),
    };
    assert(requests@ == active_of(v0, destination));
    pool.last_operation_id = value.op_id;
    requests.push(*value);
    pool.requests.insert(destination, requests);
    proof {
        let v1 = pool@;
        assert(v1.requests =~= v0.requests.insert(destination, active_of(v0, destination).push(*value)));
        assert(v1.completed =~= v0.completed);
        lemma_add_keeps_inv(v0, v1, destination, *value);
    }
}

pub(crate) proof fn lemma_add_keeps_inv(v0: PoolView, v1: PoolView, d: Address, r: SwapRequest)
    requires
        pool_inv(v0),
        r.destination == d,
        r.op_id > v0.last_operation_id,
        v1 == admitted_view(v0, d, r),
    ensures
        pool_inv(v1),
{
    assert forall|e: Address| #[trigger] v1.requests.contains_key(e) <==> v1.destinations.contains(e) by {
        if !v0.requests.contains_key(d) {
            if v1.destinations.contains(e) && e != d {
                let k = choose|k: int| 0 <= k < v1.destinations.len() && v1.destinations[k] == e;
                assert(v0.destinations[k] == e);
            }
            if v0.destinations.contains(e) {
                let k = choose|k: int| 0 <= k < v0.destinations.len() && v0.destinations[k] == e;
                assert(v1.destinations[k] == e);
            }
            assert(v1.destinations[v0.destinations.len() as int] == d);
        }
    }
    if !v0.requests.contains_key(d) {
        assert(!v0.destinations.contains(d));
        assert forall|i: int, j: int|
            0 <= i < v1.destinations.len() && 0 <= j < v1.destinations.len() && i != j implies
            v1.destinations[i] != v1.destinations[j] by {
            if i < v0.destinations.len() && j < v0.destinations.len() {
            } else if i < v0.destinations.len() {
                assert(v0.destinations.contains(v0.destinations[i]));
            } else if j < v0.destinations.len() {
                assert(v0.destinations.contains(v0.destinations[j]));
            }
        }
    }
    assert forall|e: Address, i: int| 0 <= i < active_of(v1, e).len() implies (#[trigger] active_of(v1, e)[i]).destination == e
        && 0 < active_of(v1, e)[i].op_id <= v1.last_operation_id by {
        if e != d {
            assert(active_of(v1, e) == active_of(v0, e));
        } else if i < active_of(v0, d).len() {
            assert(active_of(v1, e)[i] == active_of(v0, e)[i]);
        }
    }
    assert forall|e: Address, i: int| 0 <= i < completed_of(v1, e).len() implies (#[trigger] completed_of(v1, e)[i]).destination == e
        && 0 < completed_of(v1, e)[i].op_id <= v1.last_operation_id by {
        assert(completed_of(v1, e) == completed_of(v0, e));
    }
    assert forall|e: Address, i: int, j: int|
        0 <= i < active_of(v1, e).len() && 0 <= j < active_of(v1, e).len() && i != j
            implies (#[trigger] active_of(v1, e)[i]).op_id != (#[trigger] active_of(v1, e)[j]).op_id by {
        if e == d {
            let n = active_of(v0, d).len() as int;
            if i < n && j < n {
                assert(active_of(v1, e)[i] == active_of(v0, e)[i]);
                assert(active_of(v1, e)[j] == active_of(v0, e)[j]);
            } else if i < n {
                assert(active_of(v1, e)[i] == active_of(v0, e)[i]);
                assert(active_of(v0, e)[i].op_id <= v0.last_operation_id);
            } else if j < n {
                assert(active_of(v1, e)[j] == active_of(v0, e)[j]);
                assert(active_of(v0, e)[j].op_id <= v0.last_operation_id);
            }
        } else {
            assert(active_of(v1, e) == active_of(v0, e));
        }
    }
    assert forall|e: Address, i: int, j: int|
        0 <= i < completed_of(v1, e).len() && 0 <= j < completed_of(v1, e).len() && i != j
            implies (#[trigger] completed_of(v1, e)[i]).op_id != (#[trigger] completed_of(v1, e)[j]).op_id by {
        assert(completed_of(v1, e) == completed_of(v0, e));
    }
    assert forall|e: Address, i: int, j: int|
        0 <= i < active_of(v1, e).len() && 0 <= j < completed_of(v1, e).len() implies (
        #[trigger] active_of(v1, e)[i]).op_id != (#[trigger] completed_of(v1, e)[j]).op_id by {
        assert(completed_of(v1, e) == completed_of(v0, e));
        if e != d {
            assert(active_of(v1, e) == active_of(v0, e));
        } else if i < active_of(v0, d).len() {
            assert(active_of(v1, e)[i] == active_of(v0, e)[i]);
        } else {
            assert(completed_of(v0, e)[j].op_id <= v0.last_operation_id);
        }
    }
}

/// `k` is the position of the last occurrence of `x` in `s`.
pub open spec fn is_last_index_of<T>(s: Seq<T>, x: T, k: int) -> bool {
    &&& 0 <= k < s.len()
    &&& s[k] == x
    &&& forall|j: int| k < j < s.len() ==> s[j] != x
}

/// The pool after the active request at position `k` of `d` was settled with `amount_out`.
pub open spec fn settled_view(v: PoolView, d: Address, k: int, amount_out: i128) -> PoolView {
    PoolView {
        requests: v.requests.insert(d, active_of(v, d).remove(k)),
        completed: v.completed.insert(
            d,
            completed_of(v, d).push(crate::types::completed_from(active_of(v, d)[k], amount_out)),
        ),
        ..v
    }
}

/// Appends `value` to the completed log of `destination`, moving the log's
/// page pointer on when the last page fills up.
pub fn add_completed_swap_request(
    pool: &mut PoolContract,
    destination: Address,
    value: CompletedSwapRequest,
)
    requires
        old(pool).structure_ok(),
        old(pool).can_complete_for(destination),
    ensures
        final(pool).structure_ok(),
        final(pool)@ == (PoolView {
            completed: old(pool)@.completed.insert(
                destination,
                completed_of(old(pool)@, destination).push(value),
            ),
            ..old(pool)@
        }),
{
    let ghost v0 = pool@;
    let mut list = match pool.completed.remove(&destination) {
        Some(l) => l,
        None => PagedList::new(COMPLETED_REQUESTS_PAGE_SIZE),
    };
    assert(list@ == completed_of(v0, destination));
    list.append(value);
    pool.completed.insert(destination, list);
    assert(pool@.requests =~= v0.requests);
    assert(pool@.completed =~= v0.completed.insert(destination, completed_of(v0, destination).push(value)));
}

/// Settles an active request of `destination`: the last active entry equal to
/// `swap_request` in every field leaves the active list, and its completed form,
/// with `amount_out`, is appended to the destination's completed log.
pub fn set_swap_request_processed(
    pool: &mut PoolContract,
    destination: Address,
    swap_request: SwapRequest,
    amount_out: i128,
) -> (r: Result<(), PoolError>)
    requires
        old(pool).wf(),
        old(pool).can_complete_for(destination),
    ensures
        final(pool).wf(),
        old(pool)@.reject_zero_output && amount_out == 0 ==> r == Err::<(), PoolError>(
            PoolError::SwapNotPerformed,
        ) && final(pool)@ == old(pool)@,
        !(old(pool)@.reject_zero_output && amount_out == 0) && !active_of(
            old(pool)@,
            destination,
        ).contains(swap_request) ==> r == Err::<(), PoolError>(PoolError::ValueMissing)
            && final(pool)@ == old(pool)@,
        !(old(pool)@.reject_zero_output && amount_out == 0) && active_of(
            old(pool)@,
            destination,
        ).contains(swap_request) ==> r is Ok && exists|k: int|
            is_last_index_of(active_of(old(pool)@, destination), swap_request, k)
                && final(pool)@ == settled_view(old(pool)@, destination, k, amount_out),
{
    if pool.reject_zero_output && amount_out == 0 {
        return Err(PoolError::SwapNotPerformed);
    }
    let ghost v0 = pool@;
    let ghost list = active_of(v0, destination);
    let requests = match pool.requests.get(&destination) {
        Some(v) => v,
        None => {
            return Err(PoolError::ValueMissing);
        },
    };
    assert(requests@ == list);
    let mut i: usize = requests.len();
    let mut found: bool = false;
    while i > 0
        invariant_except_break
            !found,
            i <= list.len(),
            requests@ == list,
            forall|j: int| i <= j < list.len() ==> list[j] != swap_request,
        invariant
            requests@ == list,
        ensures
            found ==> is_last_index_of(list, swap_request, i as int),
            !found ==> forall|j: int| 0 <= j < list.len() ==> list[j] != swap_request,
        decreases i,
    {
        i = i - 1;
        if crate::types::same_request(&requests[i], &swap_request) {
            found = true;
            break;
        }
    }
    if !found {
        return Err(PoolError::ValueMissing);
    }
    let mut requests = pool.requests.remove(&destination).unwrap();
    requests.remove(i);
    pool.requests.insert(destination, requests);
    let ghost k = i as int;
    proof {
        assert(pool@.requests =~= v0.requests.insert(destination, list.remove(k)));
        assert(pool@.completed =~= v0.completed);
    }
    add_completed_swap_request(
        pool,
        destination,
        CompletedSwapRequest {
            tx_id: swap_request.tx_id,
            op_id: swap_request.op_id,
            destination: swap_request.destination,
            token_in: swap_request.token_in,
            amount_in: swap_request.amount_in,
            token_out: swap_request.token_out,
            amount_out,
        },
    );
    proof {
        assert(pool@ == settled_view(v0, destination, k, amount_out));
        lemma_settle_keeps_inv(v0, destination, k, amount_out);
    }
    Ok(())
}

pub(crate) proof fn lemma_settle_keeps_inv(v0: PoolView, d: Address, k: int, amount_out: i128)
    requires
        pool_inv(v0),
        0 <= k < active_of(v0, d).len(),
    ensures
        pool_inv(settled_view(v0, d, k, amount_out)),
{
    let v1 = settled_view(v0, d, k, amount_out);
    let a0 = active_of(v0, d);
    let c0 = completed_of(v0, d);
    let x = crate::types::completed_from(a0[k], amount_out);
    assert(v0.requests.contains_key(d));
    assert(active_of(v1, d) == a0.remove(k));
    assert(completed_of(v1, d) == c0.push(x));
    assert forall|e: Address| #[trigger] v1.requests.contains_key(e) <==> v1.destinations.contains(e) by {
        assert(v1.requests.contains_key(e) == v0.requests.contains_key(e));
    }
    assert forall|e: Address| #[trigger] v1.completed.contains_key(e) implies v1.requests.contains_key(e) by {
        if e != d {
            assert(v0.completed.contains_key(e));
        }
    }
    assert forall|e: Address, i: int| 0 <= i < active_of(v1, e).len() implies (#[trigger] active_of(v1, e)[i]).destination == e
        && 0 < active_of(v1, e)[i].op_id <= v1.last_operation_id by {
        if e != d {
            assert(active_of(v1, e) == active_of(v0, e));
        } else if i < k {
            assert(active_of(v1, e)[i] == a0[i]);
        } else {
            assert(active_of(v1, e)[i] == a0[i + 1]);
        }
    }
    assert forall|e: Address, i: int| 0 <= i < completed_of(v1, e).len() implies (#[trigger] completed_of(v1, e)[i]).destination == e
        && 0 < completed_of(v1, e)[i].op_id <= v1.last_operation_id by {
        if e != d {
            assert(completed_of(v1, e) == completed_of(v0, e));
        } else if i < c0.len() {
            assert(completed_of(v1, e)[i] == c0[i]);
        } else {
            assert(a0[k].destination == d);
        }
    }
    assert forall|e: Address, i: int, j: int|
        0 <= i < active_of(v1, e).len() && 0 <= j < active_of(v1, e).len() && i != j
            implies (#[trigger] active_of(v1, e)[i]).op_id != (#[trigger] active_of(v1, e)[j]).op_id by {
        if e != d {
            assert(active_of(v1, e) == active_of(v0, e));
        } else {
            let ii = if i < k { i } else { i + 1 };
            let jj = if j < k { j } else { j + 1 };
            assert(active_of(v1, e)[i] == a0[ii]);
            assert(active_of(v1, e)[j] == a0[jj]);
        }
    }
    assert forall|e: Address, i: int, j: int|
        0 <= i < completed_of(v1, e).len() && 0 <= j < completed_of(v1, e).len() && i != j
            implies (#[trigger] completed_of(v1, e)[i]).op_id != (#[trigger] completed_of(v1, e)[j]).op_id by {
        if e != d {
            assert(completed_of(v1, e) == completed_of(v0, e));
        } else {
            let n = c0.len() as int;
            if i < n && j < n {
                assert(completed_of(v1, e)[i] == c0[i]);
                assert(completed_of(v1, e)[j] == c0[j]);
            } else if i < n {
                assert(completed_of(v1, e)[i] == c0[i]);
                assert(a0[k].op_id != c0[i].op_id);
            } else {
                assert(completed_of(v1, e)[j] == c0[j]);
                assert(a0[k].op_id != c0[j].op_id);
            }
        }
    }
    assert forall|e: Address, i: int, j: int|
        0 <= i < active_of(v1, e).len() && 0 <= j < completed_of(v1, e).len() implies (
        #[trigger] active_of(v1, e)[i]).op_id != (#[trigger] completed_of(v1, e)[j]).op_id by {
        if e != d {
            assert(active_of(v1, e) == active_of(v0, e));
            assert(completed_of(v1, e) == completed_of(v0, e));
        } else {
            let ii = if i < k { i } else { i + 1 };
            assert(active_of(v1, e)[i] == a0[ii]);
            if j < c0.len() {
                assert(completed_of(v1, e)[j] == c0[j]);
            } else {
                assert(a0[ii].op_id != a0[k].op_id);
            }
        }
    }
}

/// Record `i` holds the pair `(user, token)`.
pub open spec fn record_of_pair(memos: Seq<MemoRecord>, i: int, user: Address, token: Address) -> bool {
    0 <= i < memos.len() && memos[i].user == user && memos[i].token == token
}

/// A memo was assigned to `(user, token)`.
pub open spec fn has_pair(memos: Seq<MemoRecord>, user: Address, token: Address) -> bool {
    exists|i: int| #[trigger] record_of_pair(memos, i, user, token)
}

/// Record `i` holds the memo `memo`.
pub open spec fn record_of_memo(memos: Seq<MemoRecord>, i: int, memo: Seq<u8>) -> bool {
    0 <= i < memos.len() && memos[i].memo@ == memo
}

/// `v1` and `memo` are what looking up the memo of `(user, token)` in `v0` gives:
/// the memo already assigned, with nothing changed, or else the next code in
/// base-62 order, recorded for the pair.
pub open spec fn memo_step(v0: PoolView, user: Address, token: Address, v1: PoolView, memo: [u8; 28]) -> bool {
    if has_pair(v0.memos, user, token) {
        &&& v1 == v0
        &&& exists|i: int| #[trigger] record_of_pair(v0.memos, i, user, token) && v0.memos[i].memo == memo
    } else {
        &&& is_memo_text(memo@)
        &&& memo_value(memo@) == v0.memos.len()
        &&& v1 == (PoolView { memos: v0.memos.push(MemoRecord { user, token, memo }), ..v0 })
    }
}

proof fn lemma_base_pow_monotone(m: nat, n: nat)
    requires
        m <= n,
    ensures
        base_pow(m) <= base_pow(n),
    decreases n - m,
{
    if m < n {
        lemma_base_pow_monotone(m, (n - 1) as nat);
        crate::memo::lemma_base_pow_positive((n - 1) as nat);
    }
}

/// No vector of records can reach the count at which memo codes would repeat.
proof fn lemma_memo_space_exceeds_usize()
    ensures
        base_pow(28) > usize::MAX + 1,
{
    reveal_with_fuel(base_pow, 12);
    assert(base_pow(11) == 52036560683837093888);
    lemma_base_pow_monotone(11, 28);
}

/// Position of the record of `(user, token)`, if there is one.
fn find_pair(pool: &PoolContract, user: Address, token: Address) -> (r: Option<usize>)
    ensures
        match r {
            Some(i) => record_of_pair(pool@.memos, i as int, user, token),
            None => !has_pair(pool@.memos, user, token),
        },
{
    let mut i: usize = 0;
    while i < pool.memos.len()
        invariant
            i <= pool@.memos.len(),
            forall|j: int| 0 <= j < i ==> !(#[trigger] record_of_pair(pool@.memos, j, user, token)),
        decreases pool@.memos.len() - i,
    {
        if pool.memos[i].user == user && pool.memos[i].token == token {
            return Some(i);
        }
        i = i + 1;
    }
    None
}

/// Whether a memo was assigned to `(user, token)`.
pub fn has_user_memo(pool: &PoolContract, user: Address, token: Address) -> (r: bool)
    ensures
        r == has_pair(pool@.memos, user, token),
{
    find_pair(pool, user, token).is_some()
}

/// The memo of `(user, token)`, which must have been assigned already.
pub fn find_user_memo(pool: &PoolContract, user: Address, token: Address) -> (r: Result<[u8; 28], PoolError>)
    ensures
        match r {
            Ok(m) => exists|i: int| #[trigger] record_of_pair(pool@.memos, i, user, token) && pool@.memos[i].memo == m,
            Err(e) => e == PoolError::ValueMissing && !has_pair(pool@.memos, user, token),
        },
{
    match find_pair(pool, user, token) {
        Some(i) => Ok(pool.memos[i].memo),
        None => Err(PoolError::ValueMissing),
    }
}

/// The memo of `(user, token)`. A pair seen for the first time gets the pool's
/// next memo, which then advances to its successor.
pub fn get_user_memo(pool: &mut PoolContract, user: Address, token: Address) -> (r: [u8; 28])
    requires
        old(pool).wf(),
    ensures
        final(pool).wf(),
        memo_step(old(pool)@, user, token, final(pool)@, r),
{
    if let Some(i) = find_pair(pool, user, token) {
        return pool.memos[i].memo;
    }
    let ghost v0 = pool@;
    let memo = pool.next_memo;
    let n = pool.memos.len();
    pool.memos.push(MemoRecord { user, token, memo });
    proof {
        lemma_memo_space_exceeds_usize();
    }
    let next = crate::memo::generate_next_memo(&memo);
    pool.next_memo = next;
    proof {
        let b = base_pow(28);
        let m = n as int + 1;
        assert(m % b == m) by (nonlinear_arith)
            requires
                0 <= m < b,
        ;
        let v1 = pool@;
        assert(v1.requests =~= v0.requests);
        assert(v1.completed =~= v0.completed);
        let memos = v1.memos;
        assert forall|i: int, j: int|
            0 <= i < memos.len() && 0 <= j < memos.len() && i != j implies !((#[trigger] memos[i]).user
                == (#[trigger] memos[j]).user && memos[i].token == memos[j].token) by {
            if i == n {
                assert(!record_of_pair(v0.memos, j, user, token));
            } else if j == n {
                assert(!record_of_pair(v0.memos, i, user, token));
            } else {
                assert(memos[i] == v0.memos[i]);
                assert(memos[j] == v0.memos[j]);
            }
        }
        assert forall|i: int| 0 <= i < memos.len() implies is_memo_text((#[trigger] memos[i]).memo@)
            && memo_value(memos[i].memo@) == i by {
            if i < n {
                assert(memos[i] == v0.memos[i]);
            } else {
                assert(memos[i].memo == memo);
            }
        }
        assert(memos_inv(memos));
        assert(v1 == (PoolView { memos: v0.memos.push(MemoRecord { user, token, memo }), ..v0 }));
        lemma_inv_frame(v0, v1);
    }
    memo
}

/// The pair whose memo is `memo`.
pub fn get_user_token_by_memo(pool: &PoolContract, memo: &[u8; 28]) -> (r: Result<(Address, Address), PoolError>)
    requires
        pool.wf(),
    ensures
        match r {
            Ok((user, token)) => exists|i: int| #[trigger] record_of_memo(pool@.memos, i, memo@)
                && pool@.memos[i].user == user && pool@.memos[i].token == token,
            Err(e) => e == PoolError::ValueMissing && forall|i: int| !#[trigger] record_of_memo(pool@.memos, i, memo@),
        },
{
    let mut i: usize = 0;
    while i < pool.memos.len()
        invariant
            i <= pool@.memos.len(),
            forall|j: int| 0 <= j < i ==> !(#[trigger] record_of_memo(pool@.memos, j, memo@)),
        decreases pool@.memos.len() - i,
    {
        if crate::types::same_memo(&pool.memos[i].memo, memo) {
            assert(record_of_memo(pool@.memos, i as int, memo@));
            return Ok((pool.memos[i].user, pool.memos[i].token));
        }
        i = i + 1;
    }
    Err(PoolError::ValueMissing)
}

/// The invariant depends only on the ledger parts and the memo records.
pub proof fn lemma_inv_frame(v0: PoolView, v1: PoolView)
    requires
        pool_inv(v0),
        v1.requests == v0.requests,
        v1.completed == v0.completed,
        v1.destinations == v0.destinations,
        v1.last_operation_id == v0.last_operation_id,
        memos_inv(v1.memos),
    ensures
        pool_inv(v1),
{
    assert forall|d: Address| active_of(v1, d) == active_of(v0, d) && completed_of(v1, d)
        == completed_of(v0, d) by {}
}

proof fn lemma_zero_memo(s: Seq<u8>)
    requires
        forall|i: int| 0 <= i < s.len() ==> s[i] == 48u8,
    ensures
        is_memo_text(s),
        memo_value(s) == 0,
    decreases s.len(),
{
    if s.len() > 0 {
        lemma_zero_memo(s.drop_last());
    }
}

} // verus!
