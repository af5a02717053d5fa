//! Sitemap-driven site prober: the rules that turn a sitemap into a list of
//! pages, the list into fetch outcomes under a concurrency limit, a rate
//! limit and retries, and the outcomes into a report with its statistics.
//!
//! The library sends no request and touches no file. Its caller fetches
//! what `sitemap::Resolution` and `scheduler::Scheduler` ask for and hands
//! back what came of it.

pub mod fetch;
pub mod gate;
pub mod network;
pub mod numbers;
pub mod options;
pub mod order;
pub mod rate;
pub mod report;
pub mod scheduler;
pub mod sitemap;
pub mod statistics;
pub mod status;
pub mod storage;
pub mod text;
pub mod utils;
