//! A BitTorrent client library: a bencode decoder, encoder and span-keeping
//! parser, the peer wire messages, the metainfo (`.torrent`) reader and the
//! tracker's bookkeeping.
pub mod decimal;
pub mod scan;
pub mod outcome;
pub mod utf8;
pub mod bencode;
pub mod torrent;
