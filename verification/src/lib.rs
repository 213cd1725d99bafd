//! A BitTorrent client's logic: bencoding and metainfo, magnet links, the peer
//! and tracker protocols, pieces and files on disk, the download of a torrent, and
//! the daemon that answers requests. Whoever runs it does the reading, writing and
//! waiting and hands the results in.
pub mod announce;
pub mod announce_laws;
pub mod bencode;
pub mod bencode_laws;
pub mod call_laws;
pub mod config;
pub mod creator;
pub mod decode_laws;
pub mod digest;
pub mod engine;
pub mod engine_laws;
pub mod ids;
pub mod magnet;
pub mod magnet_laws;
pub mod meta;
pub mod meta_laws;
pub mod metainfo;
pub mod numeral;
pub mod order;
pub mod paths;
pub mod persist;
pub mod piece;
pub mod piece_laws;
pub mod protocol;
pub mod reading_laws;
pub mod request_laws;
pub mod rpc;
pub mod server;
pub mod server_laws;
pub mod server_model;
pub mod session;
pub mod session_laws;
pub mod state;
pub mod storage;
pub mod storage_laws;
pub mod string_laws;
pub mod strings;
pub mod table;
pub mod text;
pub mod tracker;
pub mod wire;
pub mod wire_laws;
pub mod worker;
