//! Files and folders as they are shown to the outside.
use crate::content::{base64_limit, decodes_to, file_output, is_output, reads_as_text};
use crate::content::{file_as, Output};
use crate::entry::ZipEntry;
use crate::entry::{bytes_of, text_of, EntryView};
use crate::entry::copy_bytes;
use crate::text::copy_text;
use crate::time::date_text;
use crate::time::format_date;
use vstd::prelude::*;

verus! {

/// A file or folder of an archive, as it is shown to the outside.
pub struct ZipObject {
    pub name: String,
    pub dir: bool,
    pub date: String,
    pub comment: String,
    pub unsafe_original_name: Option<String>,
    pub data: Option<Vec<u8>>,
}

/// What an object shows.
#[verifier::ext_equal]
pub struct ObjectView {
    pub name: Seq<char>,
    pub dir: bool,
    pub date: Seq<char>,
    pub comment: Seq<char>,
    pub unsafe_original_name: Option<Seq<char>>,
    pub data: Option<Seq<u8>>,
}

impl View for ZipObject {
    type V = ObjectView;

    open spec fn view(&self) -> ObjectView {
        ObjectView {
            name: self.name@,
            dir: self.dir,
            date: self.date@,
            comment: self.comment@,
            unsafe_original_name: text_of(self.unsafe_original_name),
            data: bytes_of(self.data),
        }
    }
}

impl ObjectView {
    /// The content: nothing where the object has none.
    pub open spec fn content(self) -> Seq<u8> {
        match self.data {
            Some(d) => d,
            None => Seq::<u8>::empty(),
        }
    }
}

/// The object that shows an entry, content included.
pub open spec fn full_object(e: EntryView) -> ObjectView {
    ObjectView {
        name: e.name,
        dir: e.dir,
        date: date_text(e.date),
        comment: e.comment,
        unsafe_original_name: e.unsafe_original_name,
        data: e.data,
    }
}

/// The object that shows an entry in a listing: under its key, and without its content.
pub open spec fn listed_object(key: Seq<char>, e: EntryView) -> ObjectView {
    ObjectView { name: key, data: None, ..full_object(e) }
}

/// The value of a property of an object.
pub enum Property {
    Text(String),
    Flag(bool),
    Bytes(Vec<u8>),
    Null,
}

/// What a property holds.
#[verifier::ext_equal]
pub enum PropertyView {
    Text(Seq<char>),
    Flag(bool),
    Bytes(Seq<u8>),
    Null,
}

impl View for Property {
    type V = PropertyView;

    open spec fn view(&self) -> PropertyView {
        match self {
            Property::Text(s) => PropertyView::Text(s@),
            Property::Flag(b) => PropertyView::Flag(*b),
            Property::Bytes(v) => PropertyView::Bytes(v@),
            Property::Null => PropertyView::Null,
        }
    }
}

/// The properties of an object, in the order in which they are set.
pub open spec fn properties(o: ObjectView) -> Seq<(Seq<char>, PropertyView)> {
    seq![
        ("name"@, PropertyView::Text(o.name)),
        ("dir"@, PropertyView::Flag(o.dir)),
        ("date"@, PropertyView::Text(o.date)),
        ("comment"@, PropertyView::Text(o.comment)),
        (
            "unsafeOriginalName"@,
            match o.unsafe_original_name {
                Some(n) => PropertyView::Text(n),
                None => PropertyView::Null,
            },
        ),
        (
            "data"@,
            match o.data {
                Some(d) => PropertyView::Bytes(d),
                None => PropertyView::Null,
            },
        ),
    ]
}

/// The names and values that a list of properties holds.
pub open spec fn property_views(list: Seq<(&'static str, Property)>) -> Seq<
    (Seq<char>, PropertyView),
> {
    Seq::new(list.len(), |i: int| (list[i].0@, list[i].1@))
}

/// The properties that the plain value of an object has.
pub fn zip_object_to_js(obj: &ZipObject) -> (r: Vec<(&'static str, Property)>)
    ensures
        property_views(r@) == properties(obj@),
{
    let unsafe_name = match &obj.unsafe_original_name {
        Some(n) => Property::Text(n.clone()),
        None => Property::Null,
    };
    let data = match copy_bytes(&obj.data) {
        Some(d) => Property::Bytes(d),
        None => Property::Null,
    };
    let mut list: Vec<(&'static str, Property)> = Vec::new();
    list.push(("name", Property::Text(obj.name.clone())));
    list.push(("dir", Property::Flag(obj.dir)));
    list.push(("date", Property::Text(obj.date.clone())));
    list.push(("comment", Property::Text(obj.comment.clone())));
    list.push(("unsafeOriginalName", unsafe_name));
    list.push(("data", data));
    assert(property_views(list@) =~= properties(obj@));
    list
}

impl ZipObject {
    /// The object that shows an entry, content included.
    pub fn from_entry(entry: &ZipEntry) -> (r: ZipObject)
        ensures
            r@ == full_object(entry@),
    {
        ZipObject {
            name: entry.name.clone(),
            dir: entry.dir,
            date: format_date(&entry.date),
            comment: entry.comment.clone(),
            unsafe_original_name: copy_text(&entry.unsafe_original_name),
            data: copy_bytes(&entry.data),
        }
    }

    /// The object that shows an entry in a listing.
    pub fn listed(key: &String, entry: &ZipEntry) -> (r: ZipObject)
        ensures
            r@ == listed_object(key@, entry@),
    {
        ZipObject {
            name: key.clone(),
            dir: entry.dir,
            date: format_date(&entry.date),
            comment: entry.comment.clone(),
            unsafe_original_name: copy_text(&entry.unsafe_original_name),
            data: None,
        }
    }

    /// The name of the file or folder.
    pub fn name(&self) -> (r: String)
        ensures
            r@ == self@.name,
            r@ == self.name@,
    {
        self.name.clone()
    }

    /// Whether it is a folder.
    pub fn dir(&self) -> (r: bool)
        ensures
            r == self@.dir,
            r == self.dir,
    {
        self.dir
    }

    /// The date, as a text.
    pub fn date(&self) -> (r: String)
        ensures
            r@ == self@.date,
            r@ == self.date@,
    {
        self.date.clone()
    }

    /// The comment.
    pub fn comment(&self) -> (r: String)
        ensures
            r@ == self@.comment,
            r@ == self.comment@,
    {
        self.comment.clone()
    }

    /// The name that the file had in the archive it was read from, where that name was not safe.
    pub fn unsafe_original_name(&self) -> (r: Option<String>)
        ensures
            text_of(r) == self@.unsafe_original_name,
            r == self.unsafe_original_name,
    {
        copy_text(&self.unsafe_original_name)
    }

    /// The content in a form that is asked for by name. What is written in base64 decodes to the
    /// content again, and a content that is the UTF-8 of a text is read as that text.
    pub fn async_(&self, type_: &str) -> (r: Result<Output, String>)
        requires
            type_@ == "base64"@ ==> self@.content().len() <= base64_limit(),
        ensures
            is_output(r, file_output(self@.content(), type_@)),
            type_@ == "base64"@ ==> decodes_to(r, self@.content()),
            type_@ == "string"@ || type_@ == "binarystring"@ ==> reads_as_text(r, self@.content()),
            r matches Ok(Output::Uint8Array(v)) ==> v@ == self@.content(),
            r matches Ok(Output::ArrayBuffer(v)) ==> v@ == self@.content(),
            r matches Ok(Output::Array(v)) ==> v@ == self@.content(),
            r matches Ok(Output::Blob(v, _)) ==> v@ == self@.content(),
            self.data matches Some(d) ==> self@.content() == d@,
            self.data is None ==> self@.content().len() == 0,
    {
        let data = match copy_bytes(&self.data) {
            Some(d) => d,
            None => Vec::new(),
        };
        file_as(data, type_)
    }
}

} // verus!
