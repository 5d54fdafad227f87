//! Orders, executions, identifiers and market-data values.

pub mod trade_types;
