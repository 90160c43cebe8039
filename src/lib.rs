//! Reading, checking, editing and writing the tagged record trees of a
//! portable media player's `iTunesDB` and `ArtworkDB` files.
use vstd::prelude::*;

pub mod artworkdb;
pub mod bytes;
pub mod emit;
pub mod error;
pub mod fixup;
pub mod hash58;
pub mod itunesdb;
pub mod parse;
pub mod record;
pub mod text;
pub mod util;
pub mod walk;

use crate::record::Record;

verus! {

/// A player: where it is mounted, what identifies it, and its `iTunesDB`.
#[allow(non_camel_case_types)]
pub struct iPod {
    pub path: String,
    pub fwid: String,
    pub serial_num: String,
    pub product_type: String,
    pub build_version: String,
    pub itunesdb: Record,
}

} // verus!
