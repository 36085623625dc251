//! Verified logic of a server that gathers accounts and transactions from SimpleFIN
//! and LunchFlow, reconciles them, and answers FDX requests.
pub mod amount;
pub mod config;
pub mod db;
pub mod double;
pub mod error;
pub mod fdx;
pub mod fetcher;
pub mod fetcher_loop;
pub mod lunchflow;
pub mod reconciler;
pub mod state;
pub mod text;
pub mod util;
