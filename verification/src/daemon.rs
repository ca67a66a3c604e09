//! The daemon's verified core: the statistics ledger, the request
//! dispatcher, and the persistence codec.

pub mod process;
pub mod state;
pub mod storage;
