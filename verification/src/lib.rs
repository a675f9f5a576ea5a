//! Verified overtime bookkeeping: signed minute balances recorded against
//! calendar dates, with the parsers, the store operations, the report and
//! the on-disk text format all carrying proved contracts.

pub mod cli;
pub mod codec;
pub mod dates;
pub mod digits;
pub mod duration;
pub mod report;
pub mod store;
pub mod text;
