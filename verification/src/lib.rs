//! The rules of a network monitoring dashboard: snapshots of provider counts per country are
//! turned into the summaries, rankings and projections that its web API answers with.

pub mod cache;
pub mod changes;
pub mod churn;
pub mod clock;
pub mod countries;
pub mod growth;
pub mod live;
pub mod models;
pub mod movers;
pub mod network;
pub mod ranking;
pub mod regions;
pub mod risk;
pub mod snapshot;
pub mod summary;
pub mod text;
