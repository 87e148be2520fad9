//! A decoder for bencode, the length-prefixed format of torrent files, and
//! the file list of a decoded torrent description.

use vstd::prelude::*;

pub mod term;
pub mod entries;
pub mod value;
pub mod decode;
pub mod torrent;
pub mod laws;

pub use decode::{decode, ParseError};
pub use torrent::{get_torrent_files, tree_paths, TorrentLogicError};
pub use value::{dict_insert, ByteString, Value};

verus! {

} // verus!
