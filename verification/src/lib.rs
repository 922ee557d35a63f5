//! Lot-based inventory accounting.
//!
//! Inventory is acquired in lots (a quantity bought at one unit price at one
//! time) and consumed under a cost-flow strategy. Every quantity and price is
//! an exact integer count of the smallest unit the caller chooses (for
//! instance thousandths of a tonne and hundredths of a currency unit), so that
//! a lot is exhausted exactly when the draw equals what it holds.
//!
//! - [`store`] keeps the lots, [`ledger`] the consumption records;
//! - [`order`] says in which order a strategy draws, [`consumption`] what a
//!   request takes from lots in that order;
//! - [`engine`] holds a store and its ledger together and serves purchases
//!   and consumption requests;
//! - [`stats`] and [`report`] read totals and listings off an engine;
//! - [`laws`] and [`history`] state what holds of every consumption and of
//!   every run of operations.

pub mod consumption;
pub mod datetime;
pub mod engine;
pub mod error;
pub mod history;
pub mod laws;
pub mod ledger;
pub mod lot;
pub mod order;
pub mod report;
pub mod stats;
pub mod store;
