use vstd::prelude::*;

verus! {

/// Every way a pool operation can fail. Each failure aborts the whole operation:
/// the pool is left as it was before the call.
#[derive(Clone, Copy, Debug, PartialEq, Eq, Structural)]
pub enum PoolError {
    /// The administrator was already set.
    AlreadyInitialized,
    /// The operation id is not greater than every id accepted before.
    OperationIdAlreadyConsumed,
    /// The swap produced nothing, and the pool refuses empty swaps.
    SwapNotPerformed,
    /// The caller is not the registered operator.
    UnauthorizedOperator,
    /// The intake wallet is not registered for any output token.
    UnauthorizedProxyWallet,
    /// An expected record is not there.
    ValueMissing,
}

} // verus!
