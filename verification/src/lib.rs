//! FeTorrent core: bencode, torrent metadata, peer wire protocol and piece bookkeeping.
pub mod bencode;
pub mod cli;
pub mod config;
pub mod decimal;
pub mod dht;
pub mod endian;
pub mod engine;
pub mod error;
pub mod hash;
pub mod hexcode;
pub mod magnet;
pub mod models;
pub mod peer;
pub mod pieces;
pub mod random;
pub mod storage;
pub mod text;
pub mod torrent;
pub mod torrent_task;
pub mod tracker;
pub mod urlcode;
