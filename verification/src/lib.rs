//! Streaming first-fit clustering of sequencing reads by min-hash sketches of their minimizers.
//!
//! A read is sketched into a signature of fixed size from its distinct minimizers. Reads are
//! taken in order: each joins the first cluster, in creation order, whose founder's signature
//! agrees with its own in at least `min_matches` slots, or founds a new cluster. A cluster's
//! representative is its founder's signature for good; clusters are never merged, split or
//! scored again. Reads too short for one window of k-mers are passed over.
//!
//! The threshold bounds the estimated similarity from below, not the distance from above: a
//! larger `min_matches` makes joining harder. Whoever sets it from a distance has to turn it
//! round first.

pub mod cluster;
pub mod config;
pub mod engine;
pub mod minimizer;
pub mod report;
pub mod similarity;
pub mod sketch;
