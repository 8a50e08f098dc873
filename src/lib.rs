pub mod bencode;
pub mod coordinator;
pub mod download;
mod keys;
pub mod metainfo;
pub mod primitives;
pub mod tracker;
pub mod wire;

pub use metainfo::{File, Info, TorrentMetaInfo};
