//! The BitTorrent side: metainfo files, peer wire messages, peers and the
//! tracker.
pub mod types;
pub mod message;
pub mod peer;
pub mod format;
pub mod tracker;
pub mod query;
