use swap_pool::errors::PoolError;
use swap_pool::memo::{generate_next_memo, get_next_symbol};
use swap_pool::storage::{
    find_user_memo, get_user_memo, get_user_token_by_memo, has_user_memo, PoolContract,
};

fn memo(text: &str) -> [u8; 28] {
    let mut out = [0u8; 28];
    out.copy_from_slice(text.as_bytes());
    out
}

#[test]
fn next_symbol_walks_the_alphabet() {
    assert_eq!(get_next_symbol(b'0'), (b'1', false));
    assert_eq!(get_next_symbol(b'9'), (b'a', false));
    assert_eq!(get_next_symbol(b'z'), (b'A', false));
    assert_eq!(get_next_symbol(b'Y'), (b'Z', false));
    assert_eq!(get_next_symbol(b'Z'), (b'0', true));
}

#[test]
fn next_memo_carries_to_the_left() {
    assert_eq!(
        generate_next_memo(&memo("0000000000000000000000000000")),
        memo("0000000000000000000000000001")
    );
    assert_eq!(
        generate_next_memo(&memo("000000000000000000000000000Z")),
        memo("0000000000000000000000000010")
    );
    assert_eq!(
        generate_next_memo(&memo("00000000000000000000000000ZZ")),
        memo("0000000000000000000000000100")
    );
    assert_eq!(
        generate_next_memo(&memo("0000000000000000000000000a9Z")),
        memo("0000000000000000000000000aa0")
    );
}

#[test]
fn next_memo_wraps_after_the_last_code() {
    assert_eq!(
        generate_next_memo(&memo("ZZZZZZZZZZZZZZZZZZZZZZZZZZZZ")),
        memo("0000000000000000000000000000")
    );
}

#[test]
fn thousandth_memo_matches_fixture() {
    let mut pool = PoolContract::new();
    let mut codes = Vec::new();
    for user in 0..1000u64 {
        codes.push(get_user_memo(&mut pool, user, 7));
    }
    assert_eq!(codes[0], memo("0000000000000000000000000000"));
    assert_eq!(codes[1], memo("0000000000000000000000000001"));
    assert_eq!(codes[61], memo("000000000000000000000000000Z"));
    assert_eq!(codes[62], memo("0000000000000000000000000010"));
    assert_eq!(codes[999], memo("00000000000000000000000000g7"));
}

#[test]
fn memo_lookup_is_idempotent_and_distinct() {
    let mut pool = PoolContract::new();
    assert!(!has_user_memo(&pool, 1, 2));
    assert_eq!(find_user_memo(&pool, 1, 2), Err(PoolError::ValueMissing));
    let a = get_user_memo(&mut pool, 1, 2);
    let again = get_user_memo(&mut pool, 1, 2);
    assert_eq!(a, again);
    assert!(has_user_memo(&pool, 1, 2));
    assert_eq!(find_user_memo(&pool, 1, 2), Ok(a));
    let b = get_user_memo(&mut pool, 1, 3);
    let c = get_user_memo(&mut pool, 2, 2);
    assert_ne!(a, b);
    assert_ne!(a, c);
    assert_ne!(b, c);
    assert_eq!(b, memo("0000000000000000000000000001"));
    assert_eq!(get_user_memo(&mut pool, 1, 2), a);
}

#[test]
fn memo_resolves_back_to_its_pair() {
    let mut pool = PoolContract::new();
    let a = get_user_memo(&mut pool, 11, 22);
    let b = get_user_memo(&mut pool, 33, 44);
    assert_eq!(get_user_token_by_memo(&pool, &a), Ok((11, 22)));
    assert_eq!(get_user_token_by_memo(&pool, &b), Ok((33, 44)));
    assert_eq!(
        get_user_token_by_memo(&pool, &memo("00000000000000000000000000zz")),
        Err(PoolError::ValueMissing)
    );
}
