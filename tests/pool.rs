use std::collections::HashMap;

use swap_pool::contract::{Intake, Payout};
use swap_pool::errors::PoolError;
use swap_pool::storage::PoolContract;

const ADMIN: u64 = 1;
const PROXY_WALLET: u64 = 2;
const OPERATOR: u64 = 3;
const DESTINATION: u64 = 4;
const ROUTER: u64 = 20;
const TOKEN1: u64 = 10;
const TOKEN2: u64 = 11;
const TOKEN3: u64 = 12;
const POOL_INDEX1: [u8; 32] = [7; 32];
const POOL_INDEX2: [u8; 32] = [8; 32];

fn deploy_swap_pool() -> PoolContract {
    PoolContract::new()
}

#[test]
fn test_chained_swap() {
    let mut swap_pool = deploy_swap_pool();
    swap_pool.set_admin(ADMIN).unwrap();
    swap_pool.set_operator(OPERATOR);
    swap_pool.set_swap_router(ROUTER);
    swap_pool.add_proxy_wallet(PROXY_WALLET, TOKEN3);

    let operation_id: u128 = 1;
    let token_in = TOKEN1;
    let tokens1 = vec![TOKEN1, TOKEN2];
    let tokens2 = vec![TOKEN2, TOKEN3];
    let swaps_chain = vec![
        (tokens1.clone(), POOL_INDEX1, TOKEN2),
        (tokens2.clone(), POOL_INDEX2, TOKEN3),
    ];

    assert_eq!(swap_pool.get_requests(DESTINATION), vec![]);
    assert_eq!(swap_pool.get_completed_requests(DESTINATION, 0), vec![]);
    assert_eq!(swap_pool.get_destinations(0), Vec::<u64>::new());

    let intake = swap_pool
        .add_request(OPERATOR, PROXY_WALLET, [0; 32], operation_id, DESTINATION, token_in, 100)
        .unwrap();
    assert_eq!(intake.proxy_wallet, PROXY_WALLET);
    assert_eq!(intake.token, token_in);
    assert_eq!(intake.amount, 100);
    assert_eq!(intake.fee, None);

    // check storage
    assert_eq!(
        swap_pool.get_requests(DESTINATION),
        vec![([0; 32], operation_id, DESTINATION, token_in, 100, TOKEN3)]
    );
    assert_eq!(swap_pool.get_completed_requests_last_page(DESTINATION), 0);
    assert_eq!(swap_pool.get_completed_requests(DESTINATION, 0), vec![]);
    assert_eq!(swap_pool.get_destinations_last_page(), 0);
    assert_eq!(swap_pool.get_destinations(0), vec![DESTINATION]);

    let order = swap_pool
        .swap_chained_via_router(OPERATOR, DESTINATION, operation_id, swaps_chain.clone(), 95)
        .unwrap();
    assert_eq!(order.router, ROUTER);
    assert_eq!(order.authorization.token(), token_in);
    assert_eq!(order.authorization.spender(), ROUTER);
    assert_eq!(order.authorization.amount(), 100);
    assert_eq!(order.swaps_chain, swaps_chain);
    assert_eq!(order.token_in, token_in);
    assert_eq!(order.in_amount, 100);
    assert_eq!(order.out_min, 95);

    // the route produced 96 of the third token
    let amount_out: i128 = 96;
    let payout = swap_pool.finish_swap(DESTINATION, order.request, amount_out).unwrap();
    assert_eq!(payout, Payout { token: TOKEN3, to: DESTINATION, amount: 96 });

    // check storage
    assert_eq!(swap_pool.get_requests(DESTINATION), vec![]);
    assert_eq!(swap_pool.get_completed_requests_last_page(DESTINATION), 0);
    assert_eq!(
        swap_pool.get_completed_requests(DESTINATION, 0),
        vec![([0; 32], operation_id, DESTINATION, token_in, 100, TOKEN3, 96)]
    );
    assert_eq!(swap_pool.get_destinations_last_page(), 0);
    assert_eq!(swap_pool.get_destinations(0), vec![DESTINATION]);
}

#[test]
fn test_duplicate_destination() {
    let mut swap_pool = deploy_swap_pool();
    swap_pool.set_admin(ADMIN).unwrap();
    swap_pool.set_operator(OPERATOR);
    swap_pool.set_swap_router(ROUTER);
    swap_pool.add_proxy_wallet(PROXY_WALLET, TOKEN2);

    let mut operation_id: u128 = 1;
    let token_in = TOKEN1;
    let swaps_chain = vec![(vec![TOKEN1, TOKEN2], POOL_INDEX1, TOKEN2)];

    assert_eq!(swap_pool.get_destinations(0), Vec::<u64>::new());

    swap_pool
        .add_request(OPERATOR, PROXY_WALLET, [0; 32], operation_id, DESTINATION, token_in, 100)
        .unwrap();
    let order = swap_pool
        .swap_chained_via_router(OPERATOR, DESTINATION, operation_id, swaps_chain.clone(), 90)
        .unwrap();
    swap_pool.finish_swap(DESTINATION, order.request, 98).unwrap();

    operation_id += 1;
    swap_pool
        .add_request(OPERATOR, PROXY_WALLET, [0; 32], operation_id, DESTINATION, token_in, 100)
        .unwrap();
    let order = swap_pool
        .swap_chained_via_router(OPERATOR, DESTINATION, operation_id, swaps_chain.clone(), 90)
        .unwrap();
    swap_pool.finish_swap(DESTINATION, order.request, 97).unwrap();

    // check storage
    assert_eq!(swap_pool.get_destinations_last_page(), 0);
    assert_eq!(swap_pool.get_destinations(0), vec![DESTINATION]);
}

#[test]
fn test_overwrite_wallet() {
    let proxy_wallet1: u64 = 31;
    let proxy_wallet2: u64 = 32;
    let proxy_wallet3: u64 = 33;
    let token1: u64 = 41;
    let token2: u64 = 42;

    let mut swap_pool = deploy_swap_pool();
    swap_pool.set_admin(ADMIN).unwrap();
    swap_pool.add_proxy_wallet(proxy_wallet1, token1);
    assert_eq!(swap_pool.get_proxy_wallets(), HashMap::from([(proxy_wallet1, token1)]));
    swap_pool.add_proxy_wallet(proxy_wallet2, token1);
    assert_eq!(swap_pool.get_proxy_wallets(), HashMap::from([(proxy_wallet2, token1)]));
    swap_pool.add_proxy_wallet(proxy_wallet3, token2);
    assert_eq!(
        swap_pool.get_proxy_wallets(),
        HashMap::from([(proxy_wallet2, token1), (proxy_wallet3, token2)])
    );
}

#[should_panic(expected = "UnauthorizedProxyWallet")]
#[test]
fn test_unregistered_proxy_wallet() {
    let token_in: u64 = 50;
    let token_out: u64 = 51;
    let other_wallet: u64 = 52;

    let mut swap_pool = deploy_swap_pool();
    swap_pool.set_admin(ADMIN).unwrap();
    swap_pool.set_operator(OPERATOR);
    swap_pool.add_proxy_wallet(other_wallet, token_out);

    let result: Result<Intake, PoolError> =
        swap_pool.add_request(OPERATOR, PROXY_WALLET, [0; 32], 1, DESTINATION, token_in, 100);
    result.unwrap();
}
