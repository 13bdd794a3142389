pub mod errors;
pub mod memo;
pub mod paging;
pub mod types;
pub mod storage;
pub mod swap_router;
pub mod contract;
pub mod laws;
