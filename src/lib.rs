//! Bank statement analysis: parsing of semicolon-separated exports,
//! per-category and per-month aggregation, and detection of transactions
//! that recur every month.
pub mod aggregate;
pub mod calendar;
pub mod effect;
pub mod extract;
pub mod filter;
pub mod line;
pub mod recurring;
pub mod text;
