//! A BitTorrent client core: bencode values, their decoder and encoder,
//! torrent meta-info queries and peer wire messages.

pub mod value;
pub mod number;
pub mod bytes;
pub mod data_type;
pub mod parser;
pub mod decoder;
pub mod encoder;
pub mod laws;
pub mod text;
pub mod display;
pub mod peer_wire_protocol;
pub mod torrent;
pub mod request_sender;
