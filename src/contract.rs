use std::collections::HashMap;
use vstd::prelude::*;

use crate::errors::PoolError;
use crate::paging::page_of;
use crate::storage::{
    active_of, admitted_view, completed_of, fee_of, lemma_inv_frame, settled_view,
    is_last_index_of, PoolContract, PoolView, COMPLETED_REQUESTS_PAGE_SIZE,
    DESTINATIONS_PAGE_SIZE, VERSION,
};
use crate::swap_router::{swap_with_router, RouteHop, SwapOrder};
use crate::types::{Address, CompletedSwapRequest, SwapRequest};

verus! {

broadcast use vstd::std_specs::hash::group_hash_axioms;

/// The custody moves that admitting a request calls for.
#[derive(Clone, Copy, Debug, PartialEq, Eq)]
pub struct Intake {
    /// Pull `amount` of `token` from this wallet into the pool's custody.
    pub proxy_wallet: Address,
    pub token: Address,
    pub amount: i128,
    /// Pay this much of `token` from custody to `operator`, when it is there.
    pub fee: Option<i128>,
    pub operator: Address,
    /// The request as it was enqueued.
    pub request: SwapRequest,
}

/// The transfer of a swap's proceeds from custody to the destination.
#[derive(Clone, Copy, Debug, PartialEq, Eq)]
pub struct Payout {
    pub token: Address,
    pub to: Address,
    pub amount: i128,
}

/// Wallet-to-token map `m` once `wallet` is registered for `token`: the wallet
/// that served `token` before is dropped.
pub open spec fn register_wallet(m: Map<Address, Address>, wallet: Address, token: Address) -> Map<
    Address,
    Address,
> {
    Map::new(|w: Address| m.contains_key(w) && m[w] != token, |w: Address| m[w]).insert(
        wallet,
        token,
    )
}

/// Why admitting a request with these parameters fails, if it does.
pub open spec fn add_request_error(v: PoolView, operator: Address, proxy_wallet: Address, op_id: u128) -> Option<PoolError> {
    if v.operator != Some(operator) {
        Some(PoolError::UnauthorizedOperator)
    } else if op_id <= v.last_operation_id {
        Some(PoolError::OperationIdAlreadyConsumed)
    } else if !v.proxy_wallets.contains_key(proxy_wallet) {
        Some(PoolError::UnauthorizedProxyWallet)
    } else {
        None
    }
}

/// The request that admission enqueues: the fee for `token_in` is taken off
/// the deposit, and the output token is the one the intake wallet serves.
pub open spec fn intake_request(
    v: PoolView,
    proxy_wallet: Address,
    tx_id: [u8; 32],
    op_id: u128,
    destination: Address,
    token_in: Address,
    amount_in: i128,
) -> SwapRequest {
    SwapRequest {
        tx_id,
        op_id,
        destination,
        token_in,
        amount_in: (amount_in - fee_of(v, token_in)) as i128,
        token_out: v.proxy_wallets[proxy_wallet],
    }
}

/// `k` is the first position in `s` of a request with id `op_id`.
pub open spec fn is_first_with_op(s: Seq<SwapRequest>, op_id: u128, k: int) -> bool {
    &&& 0 <= k < s.len()
    &&& s[k].op_id == op_id
    &&& forall|j: int| 0 <= j < k ==> s[j].op_id != op_id
}

/// Some request in `s` has id `op_id`.
pub open spec fn has_op(s: Seq<SwapRequest>, op_id: u128) -> bool {
    exists|k: int| 0 <= k < s.len() && #[trigger] s[k].op_id == op_id
}

/// Why preparing the settlement of `(destination, op_id)` fails, if it does.
pub open spec fn swap_error(v: PoolView, operator: Address, destination: Address, op_id: u128) -> Option<PoolError> {
    if v.operator != Some(operator) {
        Some(PoolError::UnauthorizedOperator)
    } else if !has_op(active_of(v, destination), op_id) {
        Some(PoolError::ValueMissing)
    } else if v.swap_router is None {
        Some(PoolError::ValueMissing)
    } else {
        None
    }
}

/// The view of a request as `get_requests` lists it.
pub open spec fn request_row(r: SwapRequest) -> ([u8; 32], u128, Address, Address, i128, Address) {
    (r.tx_id, r.op_id, r.destination, r.token_in, r.amount_in, r.token_out)
}

/// The view of a completed request as `get_completed_requests` lists it.
pub open spec fn completed_row(c: CompletedSwapRequest) -> (
    [u8; 32],
    u128,
    Address,
    Address,
    i128,
    Address,
    i128,
) {
    (c.tx_id, c.op_id, c.destination, c.token_in, c.amount_in, c.token_out, c.amount_out)
}

impl PoolContract {
    /// Sets the administrator, once.
    pub fn set_admin(&mut self, admin: Address) -> (r: Result<(), PoolError>)
        requires
            old(self).wf(),
        ensures
            final(self).wf(),
            old(self)@.admin is Some ==> r == Err::<(), PoolError>(PoolError::AlreadyInitialized)
                && final(self)@ == old(self)@,
            old(self)@.admin is None ==> r is Ok && final(self)@ == (PoolView {
                admin: Some(admin),
                ..old(self)@
            }),
    {
        if self.admin.is_some() {
            return Err(PoolError::AlreadyInitialized);
        }
        let ghost v0 = self@;
        self.admin = Some(admin);
        proof {
            assert(self@.requests =~= v0.requests);
            assert(self@.completed =~= v0.completed);
            lemma_inv_frame(v0, self@);
        }
        Ok(())
    }

    pub fn get_admin(&self) -> (r: Option<Address>)
        ensures
            r == self@.admin,
    {
        self.admin
    }

    /// Makes `operator` the only principal that may admit and settle requests.
    pub fn set_operator(&mut self, operator: Address)
        requires
            old(self).wf(),
        ensures
            final(self).wf(),
            final(self)@ == (PoolView { operator: Some(operator), ..old(self)@ }),
    {
        let ghost v0 = self@;
        self.operator = Some(operator);
        proof {
            assert(self@.requests =~= v0.requests);
            assert(self@.completed =~= v0.completed);
            lemma_inv_frame(v0, self@);
        }
    }

    pub fn get_operator(&self) -> (r: Option<Address>)
        ensures
            r == self@.operator,
    {
        self.operator
    }

    /// Sets the router that executes swap routes.
    pub fn set_swap_router(&mut self, swap_router: Address)
        requires
            old(self).wf(),
        ensures
            final(self).wf(),
            final(self)@ == (PoolView { swap_router: Some(swap_router), ..old(self)@ }),
    {
        let ghost v0 = self@;
        self.swap_router = Some(swap_router);
        proof {
            assert(self@.requests =~= v0.requests);
            assert(self@.completed =~= v0.completed);
            lemma_inv_frame(v0, self@);
        }
    }

    pub fn get_swap_router(&self) -> (r: Option<Address>)
        ensures
            r == self@.swap_router,
    {
        self.swap_router
    }

    /// Chooses whether a settlement that produced nothing is refused.
    pub fn set_reject_zero_output(&mut self, reject: bool)
        requires
            old(self).wf(),
        ensures
            final(self).wf(),
            final(self)@ == (PoolView { reject_zero_output: reject, ..old(self)@ }),
    {
        let ghost v0 = self@;
        self.reject_zero_output = reject;
        proof {
            assert(self@.requests =~= v0.requests);
            assert(self@.completed =~= v0.completed);
            lemma_inv_frame(v0, self@);
        }
    }

    pub fn get_reject_zero_output(&self) -> (r: bool)
        ensures
            r == self@.reject_zero_output,
    {
        self.reject_zero_output
    }

    /// Registers `proxy_wallet` as the intake wallet of `token_out`. A wallet
    /// that served `token_out` before stops being registered.
    pub fn add_proxy_wallet(&mut self, proxy_wallet: Address, token_out: Address)
        requires
            old(self).wf(),
        ensures
            final(self).wf(),
            final(self)@ == (PoolView {
                proxy_wallets: register_wallet(old(self)@.proxy_wallets, proxy_wallet, token_out),
                ..old(self)@
            }),
    {
        let ghost v0 = self@;
        let ghost pw0 = self.proxy_wallets@;
        let ghost wt0 = self.wallet_by_token@;
        match self.proxy_wallets.get(&proxy_wallet) {
            Some(t) => {
                let t = *t;
                self.wallet_by_token.remove(&t);
            },
            None => {},
        }
        let ghost wt1 = self.wallet_by_token@;
        match self.wallet_by_token.get(&token_out) {
            Some(w) => {
                let w = *w;
                self.proxy_wallets.remove(&w);
            },
            None => {},
        }
        self.proxy_wallets.insert(proxy_wallet, token_out);
        self.wallet_by_token.insert(token_out, proxy_wallet);
        proof {
            let pw = self.proxy_wallets@;
            let wt = self.wallet_by_token@;
            assert(pw =~= register_wallet(pw0, proxy_wallet, token_out));
            assert forall|w: Address| #[trigger] pw.contains_key(w) implies wt.contains_key(pw[w])
                && wt[pw[w]] == w by {
                if w != proxy_wallet {
                    assert(pw0.contains_key(w) && pw0[w] != token_out);
                    assert(wt0[pw0[w]] == w);
                }
            }
            assert forall|t: Address| #[trigger] wt.contains_key(t) implies pw.contains_key(wt[t])
                && pw[wt[t]] == t by {
                if t != token_out {
                    assert(wt1.contains_key(t));
                    assert(wt0.contains_key(t));
                    assert(pw0[wt0[t]] == t);
                }
            }
            assert(self@.requests =~= v0.requests);
            assert(self@.completed =~= v0.completed);
            lemma_inv_frame(v0, self@);
        }
    }

    /// The registered intake wallets, each with the output token it serves.
    pub fn get_proxy_wallets(&self) -> (r: HashMap<Address, Address>)
        ensures
            r@ == self@.proxy_wallets,
    {
        self.proxy_wallets.clone()
    }

    /// The output token served by the intake wallet `proxy_wallet`.
    pub fn resolve_output_token(&self, proxy_wallet: Address) -> (r: Result<Address, PoolError>)
        ensures
            match r {
                Ok(token) => self@.proxy_wallets.contains_key(proxy_wallet)
                    && self@.proxy_wallets[proxy_wallet] == token,
                Err(e) => e == PoolError::UnauthorizedProxyWallet
                    && !self@.proxy_wallets.contains_key(proxy_wallet),
            },
    {
        match self.proxy_wallets.get(&proxy_wallet) {
            Some(t) => Ok(*t),
            None => Err(PoolError::UnauthorizedProxyWallet),
        }
    }

    /// Sets the fee taken at intake of `token`; only the operator may.
    pub fn set_operational_fee(&mut self, operator: Address, token: Address, fee: i128) -> (r:
        Result<(), PoolError>)
        requires
            old(self).wf(),
        ensures
            final(self).wf(),
            old(self)@.operator != Some(operator) ==> r == Err::<(), PoolError>(
                PoolError::UnauthorizedOperator,
            ) && final(self)@ == old(self)@,
            old(self)@.operator == Some(operator) ==> r is Ok && final(self)@ == (PoolView {
                operational_fees: old(self)@.operational_fees.insert(token, fee),
                ..old(self)@
            }),
    {
        if self.operator != Some(operator) {
            return Err(PoolError::UnauthorizedOperator);
        }
        let ghost v0 = self@;
        self.operational_fees.insert(token, fee);
        proof {
            assert(self@.requests =~= v0.requests);
            assert(self@.completed =~= v0.completed);
            lemma_inv_frame(v0, self@);
        }
        Ok(())
    }

    /// Fee taken at intake of `token`; 0 when none was set.
    pub fn get_operational_fee(&self, token: Address) -> (r: i128)
        ensures
            r == fee_of(self@, token),
    {
        match self.operational_fees.get(&token) {
            Some(f) => *f,
            None => 0,
        }
    }

    /// Admits a swap request observed by the operator: checks the operator, fences
    /// the operation id, resolves the output token from the intake wallet, takes
    /// the fee for `token_in` off the deposit and enqueues the request under
    /// `destination`. The result lists the custody moves the host must make.
    pub fn add_request(
        &mut self,
        operator: Address,
        proxy_wallet: Address,
        tx_id: [u8; 32],
        op_id: u128,
        destination: Address,
        token_in: Address,
        amount_in: i128,
    ) -> (r: Result<Intake, PoolError>)
        requires
            old(self).wf(),
            !old(self)@.requests.contains_key(destination) ==> old(self).can_add_destination(),
            i128::MIN <= amount_in - fee_of(old(self)@, token_in) <= i128::MAX,
        ensures
            final(self).wf(),
            match r {
                Ok(intake) => {
                    let req = intake_request(
                        old(self)@,
                        proxy_wallet,
                        tx_id,
                        op_id,
                        destination,
                        token_in,
                        amount_in,
                    );
                    let fee = fee_of(old(self)@, token_in);
                    &&& add_request_error(old(self)@, operator, proxy_wallet, op_id) is None
                    &&& final(self)@ == admitted_view(old(self)@, destination, req)
                    &&& intake == (Intake {
                        proxy_wallet,
                        token: token_in,
                        amount: amount_in,
                        fee: if fee > 0 {
                            Some(fee)
                        } else {
                            None
                        },
                        operator,
                        request: req,
                    })
                },
                Err(e) => add_request_error(old(self)@, operator, proxy_wallet, op_id) == Some(e)
                    && final(self)@ == old(self)@,
            },
    {
        if self.operator != Some(operator) {
            return Err(PoolError::UnauthorizedOperator);
        }
        if op_id <= self.last_operation_id {
            return Err(PoolError::OperationIdAlreadyConsumed);
        }
        let token_out = match self.resolve_output_token(proxy_wallet) {
            Ok(t) => t,
            Err(e) => {
                return Err(e);
            },
        };
        let fee = self.get_operational_fee(token_in);
        let request = SwapRequest {
            tx_id,
            op_id,
            destination,
            token_in,
            amount_in: amount_in - fee,
            token_out,
        };
        crate::storage::add_swap_request(self, destination, &request);
        Ok(Intake {
            proxy_wallet,
            token: token_in,
            amount: amount_in,
            fee: if fee > 0 {
                Some(fee)
            } else {
                None
            },
            operator,
            request,
        })
    }

    /// First step of settling the active request `op_id` of `destination`:
    /// checks the operator, finds the request, and returns the router call to
    /// make, with an authorization for exactly the request's input amount.
    pub fn swap_chained_via_router(
        &self,
        operator: Address,
        destination: Address,
        op_id: u128,
        swaps_chain: Vec<RouteHop>,
        out_min: i128,
    ) -> (r: Result<SwapOrder, PoolError>)
        requires
            self.wf(),
        ensures
            match r {
                Ok(order) => {
                    &&& swap_error(self@, operator, destination, op_id) is None
                    &&& exists|k: int|
                        is_first_with_op(active_of(self@, destination), op_id, k) && active_of(
                            self@,
                            destination,
                        )[k] == order.request
                    &&& self@.swap_router == Some(order.router)
                    &&& order.authorization.spec_token() == order.request.token_in
                    &&& order.authorization.spec_spender() == order.router
                    &&& order.authorization.spec_amount() == order.request.amount_in
                    &&& order.swaps_chain == swaps_chain
                    &&& order.token_in == order.request.token_in
                    &&& order.in_amount == order.request.amount_in
                    &&& order.out_min == out_min
                },
                Err(e) => swap_error(self@, operator, destination, op_id) == Some(e),
            },
    {
        if self.operator != Some(operator) {
            return Err(PoolError::UnauthorizedOperator);
        }
        let request = match crate::storage::get_swap_request_by_id(self, destination, op_id) {
            Ok(req) => req,
            Err(e) => {
                assert(!has_op(active_of(self@, destination), op_id));
                return Err(e);
            },
        };
        assert(has_op(active_of(self@, destination), op_id));
        let router = match self.swap_router {
            Some(a) => a,
            None => {
                return Err(PoolError::ValueMissing);
            },
        };
        Ok(swap_with_router(request, router, swaps_chain, request.token_in, request.amount_in, out_min))
    }

    /// Last step of settling: the route produced `amount_out` for `request`,
    /// which leaves the active list of `destination` for its completed log.
    /// The result is the payout the host must make to the destination.
    pub fn finish_swap(&mut self, destination: Address, request: SwapRequest, amount_out: i128) -> (r:
        Result<Payout, PoolError>)
        requires
            old(self).wf(),
            old(self).can_complete_for(destination),
        ensures
            final(self).wf(),
            old(self)@.reject_zero_output && amount_out == 0 ==> r == Err::<Payout, PoolError>(
                PoolError::SwapNotPerformed,
            ) && final(self)@ == old(self)@,
            !(old(self)@.reject_zero_output && amount_out == 0) && !active_of(
                old(self)@,
                destination,
            ).contains(request) ==> r == Err::<Payout, PoolError>(PoolError::ValueMissing)
                && final(self)@ == old(self)@,
            !(old(self)@.reject_zero_output && amount_out == 0) && active_of(
                old(self)@,
                destination,
            ).contains(request) ==> r == Ok::<Payout, PoolError>(
                Payout { token: request.token_out, to: request.destination, amount: amount_out },
            ) && exists|k: int|
                is_last_index_of(active_of(old(self)@, destination), request, k) && final(self)@
                    == settled_view(old(self)@, destination, k, amount_out),
    {
        match crate::storage::set_swap_request_processed(self, destination, request, amount_out) {
            Ok(()) => Ok(Payout { token: request.token_out, to: request.destination, amount: amount_out }),
            Err(e) => Err(e),
        }
    }

    /// The greatest operation id accepted so far.
    pub fn get_last_operation_id(&self) -> (r: u128)
        ensures
            r == self@.last_operation_id,
    {
        self.last_operation_id
    }

    /// The active requests of `destination`, oldest first, as rows.
    pub fn get_requests(&self, destination: Address) -> (r: Vec<([u8; 32], u128, Address, Address, i128, Address)>)
        ensures
            r@ == active_of(self@, destination).map_values(|q: SwapRequest| request_row(q)),
    {
        let list = crate::storage::get_active_swap_requests(self, destination);
        let mut rows: Vec<([u8; 32], u128, Address, Address, i128, Address)> = Vec::new();
        let mut i: usize = 0;
        while i < list.len()
            invariant
                i <= list@.len(),
                list@ == active_of(self@, destination),
                rows@ == list@.subrange(0, i as int).map_values(|q: SwapRequest| request_row(q)),
            decreases list@.len() - i,
        {
            let q = list[i];
            rows.push((q.tx_id, q.op_id, q.destination, q.token_in, q.amount_in, q.token_out));
            i = i + 1;
            assert(rows@ =~= list@.subrange(0, i as int).map_values(|q: SwapRequest| request_row(q)));
        }
        assert(list@.subrange(0, i as int) =~= list@);
        rows
    }

    /// The page of `destination`'s completed log that receives the next entry.
    pub fn get_completed_requests_last_page(&self, destination: Address) -> (r: u32)
        requires
            self.wf(),
        ensures
            r == completed_of(self@, destination).len() / (COMPLETED_REQUESTS_PAGE_SIZE as nat),
    {
        crate::storage::get_completed_swap_requests_last_page(self, destination)
    }

    /// Page `page` of `destination`'s completed log, as rows.
    pub fn get_completed_requests(&self, destination: Address, page: u32) -> (r: Vec<
        ([u8; 32], u128, Address, Address, i128, Address, i128),
    >)
        requires
            self.wf(),
        ensures
            r@ == page_of(
                completed_of(self@, destination),
                COMPLETED_REQUESTS_PAGE_SIZE as nat,
                page as nat,
            ).map_values(|c: CompletedSwapRequest| completed_row(c)),
    {
        let list = crate::storage::get_completed_swap_requests_page(self, destination, page);
        let mut rows: Vec<([u8; 32], u128, Address, Address, i128, Address, i128)> = Vec::new();
        let mut i: usize = 0;
        while i < list.len()
            invariant
                i <= list@.len(),
                rows@ == list@.subrange(0, i as int).map_values(|c: CompletedSwapRequest| completed_row(c)),
            decreases list@.len() - i,
        {
            let c = list[i];
            rows.push((c.tx_id, c.op_id, c.destination, c.token_in, c.amount_in, c.token_out, c.amount_out));
            i = i + 1;
            assert(rows@ =~= list@.subrange(0, i as int).map_values(|c: CompletedSwapRequest| completed_row(c)));
        }
        assert(list@.subrange(0, i as int) =~= list@);
        rows
    }

    /// The page of the destination index that receives the next destination.
    pub fn get_destinations_last_page(&self) -> (r: u32)
        requires
            self.wf(),
        ensures
            r == self@.destinations.len() / (DESTINATIONS_PAGE_SIZE as nat),
    {
        crate::storage::get_destinations_last_page(self)
    }

    /// Page `page` of the destination index.
    pub fn get_destinations(&self, page: u32) -> (r: Vec<Address>)
        requires
            self.wf(),
        ensures
            r@ == page_of(self@.destinations, DESTINATIONS_PAGE_SIZE as nat, page as nat),
    {
        crate::storage::get_destinations(self, page)
    }

    /// The destination index can take one more destination.
    pub fn destinations_have_room(&self) -> (r: bool)
        requires
            self.wf(),
        ensures
            r == self.can_add_destination(),
    {
        self.destinations.has_room()
    }

    /// The completed log of `destination` can take one more entry.
    pub fn completed_has_room(&self, destination: Address) -> (r: bool)
        requires
            self.wf(),
        ensures
            r == self.can_complete_for(destination),
    {
        match self.completed.get(&destination) {
            Some(list) => list.has_room(),
            None => {
                proof {
                    vstd::arithmetic::div_mod::lemma_basic_div(1, COMPLETED_REQUESTS_PAGE_SIZE as int);
                }
                true
            },
        }
    }

    /// Version of the pool's rules.
    pub fn version() -> (r: u32)
        ensures
            r == VERSION,
    {
        VERSION
    }
}

} // verus!
