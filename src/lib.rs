pub mod bencoding;
pub mod utility;
pub mod torrent;
pub mod file;
pub mod message;
pub mod tracker;
pub mod client;
pub mod p2p;
