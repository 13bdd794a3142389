use vstd::prelude::*;

verus! {

/// An account or contract identity, as a handle the host assigns.
pub type Address = u64;

/// A swap obligation waiting to be settled.
#[derive(Clone, Copy, Debug, PartialEq, Eq)]
pub struct SwapRequest {
    pub tx_id: [u8; 32],
    pub op_id: u128,
    pub destination: Address,
    pub token_in: Address,
    pub amount_in: i128,
    pub token_out: Address,
}

/// A settled swap: the request and what the route produced.
#[derive(Clone, Copy, Debug, PartialEq, Eq)]
pub struct CompletedSwapRequest {
    pub tx_id: [u8; 32],
    pub op_id: u128,
    pub destination: Address,
    pub token_in: Address,
    pub amount_in: i128,
    pub token_out: Address,
    pub amount_out: i128,
}

/// The memo assigned to a (user, token) pair.
#[derive(Clone, Copy, Debug, PartialEq, Eq)]
pub struct MemoRecord {
    pub user: Address,
    pub token: Address,
    pub memo: [u8; 28],
}

/// The completed form of `r`.
pub open spec fn completed_from(r: SwapRequest, amount_out: i128) -> CompletedSwapRequest {
    CompletedSwapRequest {
        tx_id: r.tx_id,
        op_id: r.op_id,
        destination: r.destination,
        token_in: r.token_in,
        amount_in: r.amount_in,
        token_out: r.token_out,
        amount_out,
    }
}

/// Byte-wise equality of two hashes.
pub fn same_hash(a: &[u8; 32], b: &[u8; 32]) -> (r: bool)
    ensures
        r == (*a == *b),
{
    let mut i: usize = 0;
    while i < 32
        invariant
            i <= 32,
            a@.len() == 32,
            b@.len() == 32,
            forall|j: int| 0 <= j < i ==> a@[j] == b@[j],
        decreases 32 - i,
    {
        if a[i] != b[i] {
            return false;
        }
        i = i + 1;
    }
    assert(*a =~= *b);
    true
}

/// Field-by-field equality of two requests.
pub fn same_request(a: &SwapRequest, b: &SwapRequest) -> (r: bool)
    ensures
        r == (*a == *b),
{
    let same = a.op_id == b.op_id && a.destination == b.destination && a.token_in == b.token_in
        && a.amount_in == b.amount_in && a.token_out == b.token_out;
    same && same_hash(&a.tx_id, &b.tx_id)
}

/// Byte-wise equality of two memos.
pub fn same_memo(a: &[u8; 28], b: &[u8; 28]) -> (r: bool)
    ensures
        r == (*a == *b),
        r == (a@ == b@),
{
    let mut i: usize = 0;
    while i < 28
        invariant
            i <= 28,
            a@.len() == 28,
            b@.len() == 28,
            forall|j: int| 0 <= j < i ==> a@[j] == b@[j],
        decreases 28 - i,
    {
        if a[i] != b[i] {
            return false;
        }
        i = i + 1;
    }
    assert(*a =~= *b);
    assert(a@ =~= b@);
    true
}

/// A copy of `v`.
pub fn copy_vec<T: Copy>(v: &Vec<T>) -> (r: Vec<T>)
    ensures
        r@ == v@,
{
    let mut out: Vec<T> = Vec::new();
    let mut i: usize = 0;
    while i < v.len()
        invariant
            i <= v@.len(),
            out@ == v@.subrange(0, i as int),
        decreases v@.len() - i,
    {
        out.push(v[i]);
        i = i + 1;
        assert(out@ =~= v@.subrange(0, i as int));
    }
    assert(out@ =~= v@);
    out
}

} // verus!
