use swap_pool::contract::Payout;
use swap_pool::errors::PoolError;
use swap_pool::storage::{
    add_swap_request, get_active_swap_requests, get_completed_swap_requests_last_page,
    get_completed_swap_requests_page, get_swap_request_by_id, is_new_destination,
    set_swap_request_processed, PoolContract, COMPLETED_REQUESTS_PAGE_SIZE,
    DESTINATIONS_PAGE_SIZE,
};
use swap_pool::types::{CompletedSwapRequest, SwapRequest};

const ADMIN: u64 = 1;
const WALLET: u64 = 2;
const OPERATOR: u64 = 3;
const DEST_A: u64 = 4;
const DEST_B: u64 = 5;
const TOKEN_IN: u64 = 10;
const TOKEN_OUT: u64 = 11;
const ROUTER: u64 = 20;

fn ready_pool() -> PoolContract {
    let mut pool = PoolContract::new();
    pool.set_admin(ADMIN).unwrap();
    pool.set_operator(OPERATOR);
    pool.set_swap_router(ROUTER);
    pool.add_proxy_wallet(WALLET, TOKEN_OUT);
    pool
}

fn request(op_id: u128, destination: u64, amount_in: i128) -> SwapRequest {
    SwapRequest {
        tx_id: [op_id as u8; 32],
        op_id,
        destination,
        token_in: TOKEN_IN,
        amount_in,
        token_out: TOKEN_OUT,
    }
}

#[test]
fn set_admin_twice_is_refused() {
    let mut pool = PoolContract::new();
    assert_eq!(pool.set_admin(ADMIN), Ok(()));
    assert_eq!(pool.set_admin(9), Err(PoolError::AlreadyInitialized));
    assert_eq!(pool.get_admin(), Some(ADMIN));
}

#[test]
fn fencing_refuses_old_ids_for_any_destination() {
    let mut pool = ready_pool();
    pool.add_request(OPERATOR, WALLET, [1; 32], 5, DEST_A, TOKEN_IN, 100).unwrap();
    assert_eq!(pool.get_last_operation_id(), 5);
    for op_id in [0u128, 1, 4, 5] {
        for dest in [DEST_A, DEST_B] {
            assert_eq!(
                pool.add_request(OPERATOR, WALLET, [1; 32], op_id, dest, TOKEN_IN, 100).map(|_| ()),
                Err(PoolError::OperationIdAlreadyConsumed)
            );
        }
    }
    // settled ids stay consumed
    let order = pool.swap_chained_via_router(OPERATOR, DEST_A, 5, vec![], 1).unwrap();
    pool.finish_swap(DEST_A, order.request, 50).unwrap();
    assert_eq!(
        pool.add_request(OPERATOR, WALLET, [1; 32], 5, DEST_B, TOKEN_IN, 100).map(|_| ()),
        Err(PoolError::OperationIdAlreadyConsumed)
    );
    assert!(pool.add_request(OPERATOR, WALLET, [1; 32], 6, DEST_B, TOKEN_IN, 100).is_ok());
    assert_eq!(pool.get_last_operation_id(), 6);
}

#[test]
fn wrong_operator_is_refused() {
    let mut pool = ready_pool();
    assert_eq!(
        pool.add_request(9, WALLET, [1; 32], 1, DEST_A, TOKEN_IN, 100).map(|_| ()),
        Err(PoolError::UnauthorizedOperator)
    );
    assert_eq!(pool.set_operational_fee(9, TOKEN_IN, 3), Err(PoolError::UnauthorizedOperator));
    pool.add_request(OPERATOR, WALLET, [1; 32], 1, DEST_A, TOKEN_IN, 100).unwrap();
    assert_eq!(
        pool.swap_chained_via_router(9, DEST_A, 1, vec![], 1).map(|_| ()),
        Err(PoolError::UnauthorizedOperator)
    );
    // no operator at all
    let mut fresh = PoolContract::new();
    fresh.add_proxy_wallet(WALLET, TOKEN_OUT);
    assert_eq!(
        fresh.add_request(OPERATOR, WALLET, [1; 32], 1, DEST_A, TOKEN_IN, 100).map(|_| ()),
        Err(PoolError::UnauthorizedOperator)
    );
}

#[test]
fn unknown_request_or_router_is_missing() {
    let mut pool = ready_pool();
    assert_eq!(
        pool.swap_chained_via_router(OPERATOR, DEST_A, 1, vec![], 1).map(|_| ()),
        Err(PoolError::ValueMissing)
    );
    pool.add_request(OPERATOR, WALLET, [1; 32], 1, DEST_A, TOKEN_IN, 100).unwrap();
    assert_eq!(
        pool.swap_chained_via_router(OPERATOR, DEST_A, 2, vec![], 1).map(|_| ()),
        Err(PoolError::ValueMissing)
    );
    assert_eq!(
        pool.swap_chained_via_router(OPERATOR, DEST_B, 1, vec![], 1).map(|_| ()),
        Err(PoolError::ValueMissing)
    );
    assert_eq!(get_swap_request_by_id(&pool, DEST_A, 7), Err(PoolError::ValueMissing));

    let mut no_router = PoolContract::new();
    no_router.set_operator(OPERATOR);
    no_router.add_proxy_wallet(WALLET, TOKEN_OUT);
    no_router.add_request(OPERATOR, WALLET, [1; 32], 1, DEST_A, TOKEN_IN, 100).unwrap();
    assert_eq!(
        no_router.swap_chained_via_router(OPERATOR, DEST_A, 1, vec![], 1).map(|_| ()),
        Err(PoolError::ValueMissing)
    );
}

#[test]
fn fee_is_taken_off_the_deposit() {
    let mut pool = ready_pool();
    assert_eq!(pool.get_operational_fee(TOKEN_IN), 0);
    pool.set_operational_fee(OPERATOR, TOKEN_IN, 7).unwrap();
    assert_eq!(pool.get_operational_fee(TOKEN_IN), 7);
    assert_eq!(pool.get_operational_fee(TOKEN_OUT), 0);
    let intake = pool.add_request(OPERATOR, WALLET, [3; 32], 1, DEST_A, TOKEN_IN, 100).unwrap();
    assert_eq!(intake.amount, 100);
    assert_eq!(intake.fee, Some(7));
    assert_eq!(intake.operator, OPERATOR);
    assert_eq!(intake.request.amount_in, 93);
    assert_eq!(pool.get_requests(DEST_A), vec![([3; 32], 1, DEST_A, TOKEN_IN, 93, TOKEN_OUT)]);
    // a zero fee moves nothing to the operator
    pool.set_operational_fee(OPERATOR, TOKEN_IN, 0).unwrap();
    let intake = pool.add_request(OPERATOR, WALLET, [4; 32], 2, DEST_A, TOKEN_IN, 100).unwrap();
    assert_eq!(intake.fee, None);
    assert_eq!(intake.request.amount_in, 100);
}

#[test]
fn settle_moves_request_to_completed_log() {
    let mut pool = ready_pool();
    pool.add_request(OPERATOR, WALLET, [1; 32], 1, DEST_A, TOKEN_IN, 100).unwrap();
    pool.add_request(OPERATOR, WALLET, [2; 32], 2, DEST_A, TOKEN_IN, 200).unwrap();
    let order = pool.swap_chained_via_router(OPERATOR, DEST_A, 2, vec![], 150).unwrap();
    assert_eq!(order.request, request(2, DEST_A, 200));
    let payout = pool.finish_swap(DEST_A, order.request, 180).unwrap();
    assert_eq!(payout, Payout { token: TOKEN_OUT, to: DEST_A, amount: 180 });
    assert_eq!(get_active_swap_requests(&pool, DEST_A), vec![request(1, DEST_A, 100)]);
    assert_eq!(
        get_completed_swap_requests_page(&pool, DEST_A, 0),
        vec![CompletedSwapRequest {
            tx_id: [2; 32],
            op_id: 2,
            destination: DEST_A,
            token_in: TOKEN_IN,
            amount_in: 200,
            token_out: TOKEN_OUT,
            amount_out: 180,
        }]
    );
    // settling again finds nothing
    assert_eq!(pool.finish_swap(DEST_A, order.request, 180), Err(PoolError::ValueMissing));
}

#[test]
fn zero_output_policy() {
    let mut pool = ready_pool();
    pool.add_request(OPERATOR, WALLET, [1; 32], 1, DEST_A, TOKEN_IN, 100).unwrap();
    let req = request(1, DEST_A, 100);
    pool.set_reject_zero_output(true);
    assert!(pool.get_reject_zero_output());
    assert_eq!(pool.finish_swap(DEST_A, req, 0), Err(PoolError::SwapNotPerformed));
    assert_eq!(get_active_swap_requests(&pool, DEST_A), vec![req]);
    pool.set_reject_zero_output(false);
    assert_eq!(pool.finish_swap(DEST_A, req, 0), Ok(Payout { token: TOKEN_OUT, to: DEST_A, amount: 0 }));
    assert_eq!(get_active_swap_requests(&pool, DEST_A), vec![]);
}

#[test]
fn removal_matches_every_field() {
    let mut pool = ready_pool();
    add_swap_request(&mut pool, DEST_A, &request(1, DEST_A, 100));
    let mut other = request(1, DEST_A, 100);
    other.amount_in = 99;
    assert_eq!(set_swap_request_processed(&mut pool, DEST_A, other, 5), Err(PoolError::ValueMissing));
    other.tx_id[31] = 0;
    other.amount_in = 100;
    assert_eq!(set_swap_request_processed(&mut pool, DEST_A, other, 5), Err(PoolError::ValueMissing));
    assert_eq!(set_swap_request_processed(&mut pool, DEST_A, request(1, DEST_A, 100), 5), Ok(()));
}

#[test]
fn new_destination_is_registered_once() {
    let mut pool = ready_pool();
    assert!(is_new_destination(&pool, DEST_A));
    add_swap_request(&mut pool, DEST_A, &request(1, DEST_A, 10));
    assert!(!is_new_destination(&pool, DEST_A));
    add_swap_request(&mut pool, DEST_B, &request(2, DEST_B, 10));
    add_swap_request(&mut pool, DEST_A, &request(3, DEST_A, 10));
    assert_eq!(pool.get_destinations(0), vec![DEST_A, DEST_B]);
    assert_eq!(pool.get_destinations(1), Vec::<u64>::new());
    assert_eq!(get_active_swap_requests(&pool, DEST_A), vec![request(1, DEST_A, 10), request(3, DEST_A, 10)]);
    assert_eq!(get_swap_request_by_id(&pool, DEST_A, 3), Ok(request(3, DEST_A, 10)));
}

#[test]
fn completed_log_rolls_over_after_a_full_page() {
    let mut pool = ready_pool();
    let size = COMPLETED_REQUESTS_PAGE_SIZE as u128;
    for op_id in 1..=size + 1 {
        pool.add_request(OPERATOR, WALLET, [0; 32], op_id, DEST_A, TOKEN_IN, 10).unwrap();
        let order = pool.swap_chained_via_router(OPERATOR, DEST_A, op_id, vec![], 1).unwrap();
        pool.finish_swap(DEST_A, order.request, op_id as i128).unwrap();
        let expected_page: u32 = if op_id < size { 0 } else { 1 };
        assert_eq!(get_completed_swap_requests_last_page(&pool, DEST_A), expected_page);
    }
    let first = pool.get_completed_requests(DEST_A, 0);
    assert_eq!(first.len(), COMPLETED_REQUESTS_PAGE_SIZE as usize);
    assert_eq!(first[0].1, 1);
    assert_eq!(first[first.len() - 1].1, size);
    let second = pool.get_completed_requests(DEST_A, 1);
    assert_eq!(second, vec![([0; 32], size + 1, DEST_A, TOKEN_IN, 10, TOKEN_OUT, (size + 1) as i128)]);
    assert_eq!(pool.get_completed_requests(DEST_A, 2), vec![]);
    assert_eq!(pool.get_completed_requests_last_page(DEST_A), 1);
}

#[test]
fn destination_index_rolls_over() {
    let mut pool = ready_pool();
    let size = DESTINATIONS_PAGE_SIZE as u64;
    for i in 0..=size {
        add_swap_request(&mut pool, 1000 + i, &request(i as u128 + 1, 1000 + i, 1));
    }
    assert_eq!(pool.get_destinations_last_page(), 1);
    assert_eq!(pool.get_destinations(0).len(), DESTINATIONS_PAGE_SIZE as usize);
    assert_eq!(pool.get_destinations(1), vec![1000 + size]);
}

#[test]
fn version_is_fixed() {
    assert_eq!(PoolContract::version(), 104);
}

#[test]
fn output_token_follows_the_wallet() {
    let mut pool = ready_pool();
    assert_eq!(pool.resolve_output_token(WALLET), Ok(TOKEN_OUT));
    assert_eq!(pool.resolve_output_token(77), Err(PoolError::UnauthorizedProxyWallet));
    pool.add_proxy_wallet(77, TOKEN_OUT);
    assert_eq!(pool.resolve_output_token(77), Ok(TOKEN_OUT));
    assert_eq!(pool.resolve_output_token(WALLET), Err(PoolError::UnauthorizedProxyWallet));
}
