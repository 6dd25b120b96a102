//! Reporting core of a chat bot that reads cash-shift and sales-breakdown
//! reports from a restaurant POS server: reporting days, the session token
//! cache, shift selection and totals, sales grouping and table rendering, and
//! the per-chat conversation state machine.

pub mod text;
pub mod date;
pub mod shared;
pub mod iiko;
pub mod olap;
pub mod markdown;
pub mod tg;
