//! A verified core for auditing and repairing pedestrian infrastructure in a
//! street network: tag classification, topology graph building, an edit log
//! with fully recomputed derived state, junction audits, problem detection,
//! and routable-network filtering.

pub mod strutil;
pub mod idmap;
pub mod tags;
pub mod classify;
pub mod store;
pub mod edits;
pub mod problems;
pub mod split;
pub mod graph;
pub mod geomath;
pub mod network;
pub mod osc;
pub mod audit;
pub mod geometry;
pub mod crossings;
pub mod scrape;
