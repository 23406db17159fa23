//! The entries of the file table.
use crate::text::{copy_text, ends_in_char, same_text};
use crate::text::ends_in;
use crate::time::{utc_now, Timestamp};
use crate::time::is_date;
use vstd::prelude::*;
use vstd::utf8::is_ascii_chars;

verus! {

/// How the content of a file is put into an archive.
#[derive(Clone, Copy, PartialEq, Eq, Structural, Debug)]
pub enum CompressionMethod {
    Store,
    Deflate,
}

/// What `str::to_uppercase` returns.
pub uninterp spec fn upper_case(s: Seq<char>) -> Seq<char>;

/// The upper case of an ASCII letter; any other character as it is.
pub open spec fn ascii_upper(c: char) -> char {
    if 'a' <= c <= 'z' {
        (c as u32 - 32) as char
    } else {
        c
    }
}

/// A text with its ASCII letters in upper case.
pub open spec fn ascii_upper_text(s: Seq<char>) -> Seq<char> {
    Seq::new(s.len(), |i: int| ascii_upper(s[i]))
}

/// Calls `str::to_uppercase`. Claimed: the result depends on the text alone, and on a text of
/// ASCII characters it is the text with its letters in upper case.
#[verifier::external_body]
fn to_upper(s: &str) -> (r: String)
    ensures
        r@ == upper_case(s@),
        is_ascii_chars(s@) ==> r@ == ascii_upper_text(s@),
{
    s.to_uppercase()
}

/// The method that an upper-case name stands for: `DEFLATE` is the one name that is known.
pub open spec fn method_named(upper: Seq<char>) -> CompressionMethod {
    if upper == "DEFLATE"@ {
        CompressionMethod::Deflate
    } else {
        CompressionMethod::Store
    }
}

impl CompressionMethod {
    /// The method that a name stands for, in upper or lower case. A name that is not known
    /// stands for storing.
    pub fn from_str(s: &str) -> (r: CompressionMethod)
        ensures
            r == method_named(upper_case(s@)),
            is_ascii_chars(s@) ==> r == method_named(ascii_upper_text(s@)),
    {
        let upper = to_upper(s);
        CompressionMethod::from_upper(&upper)
    }

    /// The method that an upper-case name stands for.
    pub fn from_upper(upper: &str) -> (r: CompressionMethod)
        ensures
            r == method_named(upper@),
    {
        if same_text(upper, "DEFLATE") {
            CompressionMethod::Deflate
        } else {
            CompressionMethod::Store
        }
    }
}

/// The text that an optional string holds.
pub open spec fn text_of(t: Option<String>) -> Option<Seq<char>> {
    match t {
        Some(s) => Some(s@),
        None => None,
    }
}

/// The bytes that an optional vector holds.
pub open spec fn bytes_of(d: Option<Vec<u8>>) -> Option<Seq<u8>> {
    match d {
        Some(v) => Some(v@),
        None => None,
    }
}

/// A file or folder of the table.
pub struct ZipEntry {
    pub name: String,
    pub dir: bool,
    pub data: Option<Vec<u8>>,
    pub comment: String,
    pub date: Option<Timestamp>,
    pub compression: CompressionMethod,
    pub unsafe_original_name: Option<String>,
}

/// What an entry holds.
#[verifier::ext_equal]
pub struct EntryView {
    pub name: Seq<char>,
    pub dir: bool,
    pub data: Option<Seq<u8>>,
    pub comment: Seq<char>,
    pub date: Option<Timestamp>,
    pub compression: CompressionMethod,
    pub unsafe_original_name: Option<Seq<char>>,
}

impl View for ZipEntry {
    type V = EntryView;

    open spec fn view(&self) -> EntryView {
        EntryView {
            name: self.name@,
            dir: self.dir,
            data: bytes_of(self.data),
            comment: self.comment@,
            date: self.date,
            compression: self.compression,
            unsafe_original_name: text_of(self.unsafe_original_name),
        }
    }
}

/// A name with a slash at its end.
pub open spec fn folder_name(name: Seq<char>) -> Seq<char> {
    if ends_in(name, '/') {
        name
    } else {
        name.push('/')
    }
}

/// A file with a name and a content, made at a given time.
pub open spec fn file_entry(name: Seq<char>, data: Seq<u8>, date: Timestamp) -> EntryView {
    EntryView {
        name,
        dir: false,
        data: Some(data),
        comment: Seq::<char>::empty(),
        date: Some(date),
        compression: CompressionMethod::Store,
        unsafe_original_name: None,
    }
}

/// A folder, made at a given time. Its name ends in a slash.
pub open spec fn dir_entry(name: Seq<char>, date: Timestamp) -> EntryView {
    EntryView {
        name: folder_name(name),
        dir: true,
        data: None,
        comment: Seq::<char>::empty(),
        date: Some(date),
        compression: CompressionMethod::Store,
        unsafe_original_name: None,
    }
}

/// Whether an entry is a folder as it is when it has just been made under a key.
pub open spec fn is_new_dir(e: EntryView, key: Seq<char>) -> bool {
    is_date(e.date) && e == dir_entry(key, e.date->0)
}

/// Whether an entry may stand under a key of the table. A folder stands under the empty key or
/// under one that ends in a slash, and has no content and nothing else of its own; a file stands
/// under its name and has a content.
pub open spec fn fits(key: Seq<char>, e: EntryView) -> bool {
    &&& is_date(e.date)
    &&& e.dir ==> is_new_dir(e, key) && (key.len() == 0 || ends_in(key, '/'))
    &&& !e.dir ==> e.name == key && e.data is Some
}

/// A copy of optional bytes.
pub fn copy_bytes(d: &Option<Vec<u8>>) -> (r: Option<Vec<u8>>)
    ensures
        bytes_of(r) == bytes_of(*d),
{
    match d {
        Some(v) => Some(vstd::slice::slice_to_vec(v.as_slice())),
        None => None,
    }
}

/// A name with a slash at its end.
pub fn with_slash(name: String) -> (r: String)
    ensures
        r@ == folder_name(name@),
{
    if ends_in_char(&name, '/') {
        name
    } else {
        let mut r = name;
        r.push('/');
        r
    }
}

impl ZipEntry {
    /// A new file, stored as it is and dated now.
    pub fn new_file(name: String, data: Vec<u8>) -> (r: ZipEntry)
        ensures
            is_date(r@.date),
            r@ == file_entry(name@, data@, r@.date->0),
    {
        ZipEntry {
            name,
            dir: false,
            data: Some(data),
            comment: String::new(),
            date: Some(utc_now()),
            compression: CompressionMethod::Store,
            unsafe_original_name: None,
        }
    }

    /// A new folder, dated now. Its name gets a slash at the end where it has none.
    pub fn new_dir(name: String) -> (r: ZipEntry)
        ensures
            is_new_dir(r@, name@),
    {
        ZipEntry {
            name: with_slash(name),
            dir: true,
            data: None,
            comment: String::new(),
            date: Some(utc_now()),
            compression: CompressionMethod::Store,
            unsafe_original_name: None,
        }
    }

    /// The content of the entry; nothing where it has none.
    pub fn raw_data(&self) -> (r: Vec<u8>)
        ensures
            r@ == match self@.data {
                Some(d) => d,
                None => Seq::<u8>::empty(),
            },
            self.data matches Some(d) ==> r@ == d@,
            self.data is None ==> r@.len() == 0,
    {
        match &self.data {
            Some(v) => vstd::slice::slice_to_vec(v.as_slice()),
            None => Vec::new(),
        }
    }
}

impl Clone for ZipEntry {
    /// The same entry once more.
    fn clone(&self) -> (r: ZipEntry)
        ensures
            r@ == self@,
    {
        ZipEntry {
            name: self.name.clone(),
            dir: self.dir,
            data: copy_bytes(&self.data),
            comment: self.comment.clone(),
            date: self.date,
            compression: self.compression,
            unsafe_original_name: copy_text(&self.unsafe_original_name),
        }
    }
}

} // verus!
