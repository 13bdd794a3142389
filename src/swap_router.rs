use vstd::prelude::*;

use crate::types::{Address, SwapRequest};

verus! {

/// One hop of a route: the tokens of the pool, the pool's index, and the token bought.
pub type RouteHop = (Vec<Address>, [u8; 32], Address);

/// Permission for `spender` to move exactly `amount` of `token` out of the
/// pool's custody, once, with no further delegation. It has no `Clone`: the
/// host consumes it in the one call that executes the route.
pub struct TransferAuthorization {
    token: Address,
    spender: Address,
    amount: i128,
}

impl TransferAuthorization {
    pub closed spec fn spec_token(&self) -> Address {
        self.token
    }

    pub closed spec fn spec_spender(&self) -> Address {
        self.spender
    }

    pub closed spec fn spec_amount(&self) -> i128 {
        self.amount
    }

    pub fn token(&self) -> (r: Address)
        ensures
            r == self.spec_token(),
    {
        self.token
    }

    pub fn spender(&self) -> (r: Address)
        ensures
            r == self.spec_spender(),
    {
        self.spender
    }

    pub fn amount(&self) -> (r: i128)
        ensures
            r == self.spec_amount(),
    {
        self.amount
    }
}

/// What the host must do to settle a request: authorize the router for the
/// input, call its chained swap with these arguments, and report what came out.
pub struct SwapOrder {
    /// The request being settled.
    pub request: SwapRequest,
    pub router: Address,
    pub authorization: TransferAuthorization,
    pub swaps_chain: Vec<RouteHop>,
    pub token_in: Address,
    pub in_amount: i128,
    pub out_min: i128,
}

/// The router call for `request`: the router may pull `in_amount` of
/// `token_in` from custody, and is asked to swap it along `swaps_chain` for
/// at least `out_min`.
pub fn swap_with_router(
    request: SwapRequest,
    router: Address,
    swaps_chain: Vec<RouteHop>,
    token_in: Address,
    in_amount: i128,
    out_min: i128,
) -> (r: SwapOrder)
    ensures
        r.request == request,
        r.router == router,
        r.authorization.spec_token() == token_in,
        r.authorization.spec_spender() == router,
        r.authorization.spec_amount() == in_amount,
        r.swaps_chain == swaps_chain,
        r.token_in == token_in,
        r.in_amount == in_amount,
        r.out_min == out_min,
{
    let authorization = TransferAuthorization { token: token_in, spender: router, amount: in_amount };
    SwapOrder { request, router, authorization, swaps_chain, token_in, in_amount, out_min }
}

} // verus!
