//! LunchFlow records and fetching.
pub mod db;
pub mod fetcher;
