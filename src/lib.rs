//! Codec and transaction layer for KRPC, the bencoded request/response
//! protocol of the Mainline BitTorrent DHT.
pub mod bencode;
pub mod message;
pub mod transaction;
