//! Core logic of a small personal finance tracker: the money codec
//! (decimal strings to integer minor units and back), the reporting
//! period resolver, in-memory aggregation over transaction and budget
//! rows, display-oriented view assembly, and the receipt upload gate.

pub mod agg;
pub mod models;
pub mod money;
pub mod period;
pub mod receipts;
pub mod text;
pub mod views;
