pub mod text;
pub mod bits;
pub mod action;
pub mod wire;
pub mod hash;
pub mod tracker;
pub mod torrent;
pub mod file;
pub mod peer_manager;
pub mod peer_id;
