//! Bencode decoding and encoding for BitTorrent metainfo files, and the info
//! hash that identifies a torrent.
use vstd::prelude::*;

pub mod bencode;
pub mod digest;
pub mod value;

verus! {

} // verus!
