//! An in-memory zip archive: a table of files and folders that can be edited by path, written out
//! as zip bytes and read back from them.
use vstd::prelude::*;

pub mod archive;
pub mod content;
pub mod content_laws;
pub mod entry;
pub mod error;
pub mod files;
pub mod generate;
pub mod index;
pub mod jszip;
pub mod laws;
pub mod listing;
pub mod listing_laws;
pub mod load;
pub mod object;
pub mod options;
pub mod order;
pub mod path;
pub mod path_laws;
pub mod table_laws;
pub mod text;
pub mod time;

verus! {

/// The version of the library.
pub fn version() -> (r: String)
    ensures
        r@ == "0.1.0"@,
{
    "0.1.0".to_string()
}

} // verus!
