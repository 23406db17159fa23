//! The options that the operations of an archive take.
use crate::entry::CompressionMethod;
use crate::entry::{method_named, upper_case};
use vstd::prelude::*;

verus! {

/// How a file is put into the table.
pub struct FileOptions {
    pub compression: Option<String>,
    pub comment: Option<String>,
    pub create_folders: Option<bool>,
}

/// How a table is written out.
pub struct GenerateOptions {
    pub output_type: Option<String>,
    pub compression: Option<String>,
    pub mime_type: Option<String>,
}

/// How an archive is read.
pub struct LoadOptions {
    pub create_folders: Option<bool>,
}

impl Default for FileOptions {
    /// Nothing is asked for.
    fn default() -> (r: FileOptions)
        ensures
            r.compression is None,
            r.comment is None,
            r.create_folders is None,
    {
        FileOptions { compression: None, comment: None, create_folders: None }
    }
}

impl Default for GenerateOptions {
    /// Nothing is asked for.
    fn default() -> (r: GenerateOptions)
        ensures
            r.output_type is None,
            r.compression is None,
            r.mime_type is None,
    {
        GenerateOptions { output_type: None, compression: None, mime_type: None }
    }
}

impl Default for LoadOptions {
    /// Nothing is asked for.
    fn default() -> (r: LoadOptions)
        ensures
            r.create_folders is None,
    {
        LoadOptions { create_folders: None }
    }
}

/// Whether a switch is on: one that is not set is off.
pub open spec fn is_on(switch: Option<bool>) -> bool {
    switch == Some(true)
}

/// The method that an optional name asks for.
pub open spec fn asked_method(name: Option<Seq<char>>) -> Option<CompressionMethod> {
    match name {
        Some(s) => Some(method_named(upper_case(s))),
        None => None,
    }
}

/// Whether a switch is on.
pub fn switched_on(switch: Option<bool>) -> (r: bool)
    ensures
        r == is_on(switch),
{
    match switch {
        Some(b) => b,
        None => false,
    }
}

/// The method that an optional name asks for.
pub fn method_asked(name: &Option<String>) -> (r: Option<CompressionMethod>)
    ensures
        r == asked_method(crate::entry::text_of(*name)),
{
    match name {
        Some(s) => Some(CompressionMethod::from_str(s)),
        None => None,
    }
}

} // verus!
