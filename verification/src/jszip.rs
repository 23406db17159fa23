//! The archive as its users see it: files and folders by path, from within a folder.
use crate::content::{js_value_to_vec_u8, JsData};
use crate::content::content_of;
use crate::entry::{file_entry, folder_name, is_new_dir, text_of, EntryView};
use crate::entry::{with_slash, CompressionMethod, ZipEntry};
use crate::files::ZipFiles;
use crate::files::without_tree;
use crate::listing::found_by;
use crate::object::ZipObject;
use crate::object::full_object;
use crate::options::{asked_method, is_on};
use crate::options::{method_asked, switched_on, FileOptions};
use crate::path::lemma_folder_key;
use crate::path::{folder_at, join, nonempty, parent_folders, resolved, split};
use crate::path::{resolve_path, split_path};
use crate::text::{append_chars, from_chars, to_chars};
use crate::text::texts;
use crate::time::is_date;
use crate::time::Timestamp;
use vstd::prelude::*;

verus! {

/// A place in an archive from which files and folders are named, and the comment of the archive.
/// The files and folders stand in a table of their own, which all places in an archive share.
pub struct JSZip {
    pub comment: String,
    pub current_folder: String,
}

/// What a place in an archive holds.
#[verifier::ext_equal]
pub struct PlaceView {
    pub comment: Seq<char>,
    pub current_folder: Seq<char>,
}

impl View for JSZip {
    type V = PlaceView;

    open spec fn view(&self) -> PlaceView {
        PlaceView { comment: self.comment@, current_folder: self.current_folder@ }
    }
}

/// Whether a table is another one with folders added: those that were not there are new, and
/// everything that was there is as it was.
pub open spec fn folders_added(
    a: Map<Seq<char>, EntryView>,
    b: Map<Seq<char>, EntryView>,
    folders: Set<Seq<char>>,
) -> bool {
    &&& forall|k: Seq<char>|
        #[trigger] b.contains_key(k) <==> a.contains_key(k) || folders.contains(k)
    &&& forall|k: Seq<char>| #[trigger] a.contains_key(k) ==> b[k] == a[k]
    &&& forall|k: Seq<char>| #[trigger]
        folders.contains(k) && !a.contains_key(k) ==> is_new_dir(b[k], k)
}

/// The file that is put into the table for a key and a content.
pub open spec fn stored_entry(
    key: Seq<char>,
    data: Seq<u8>,
    options: FileOptions,
    date: Timestamp,
) -> EntryView {
    EntryView {
        comment: match text_of(options.comment) {
            Some(c) => c,
            None => Seq::<char>::empty(),
        },
        compression: match asked_method(text_of(options.compression)) {
            Some(method) => method,
            None => CompressionMethod::Store,
        },
        ..file_entry(key, data, date)
    }
}

/// Whether a table is another one with a file put in, and with the folders that it lies in where
/// they are asked for.
pub open spec fn file_added(
    a: Map<Seq<char>, EntryView>,
    b: Map<Seq<char>, EntryView>,
    key: Seq<char>,
    data: Seq<u8>,
    options: FileOptions,
) -> bool {
    let e = b[key];
    &&& is_date(e.date)
    &&& e == stored_entry(key, data, options, e.date->0)
    &&& if is_on(options.create_folders) {
        folders_added(a.insert(key, e), b, parent_folders(key))
    } else {
        b == a.insert(key, e)
    }
}

/// The options, or the default where none are given.
pub open spec fn file_options(options: Option<FileOptions>) -> FileOptions {
    match options {
        Some(o) => o,
        None => FileOptions { compression: None, comment: None, create_folders: None },
    }
}

/// What asking for a file, or putting one in, answers.
pub enum FileReply {
    Object(ZipObject),
    Missing,
    Archive(JSZip),
}

/// What asking for a folder, or for all folders that match a pattern, answers.
pub enum FolderReply {
    Folder(JSZip),
    Matches(Vec<ZipObject>),
}

/// What a folder is asked for by: a pattern, or a value that may be a text.
pub enum FolderQuery<F> {
    Pattern(F),
    Name(Option<String>),
}

/// The key of a folder that is asked for by a name; no name is the empty one.
pub open spec fn folder_key(current_folder: Seq<char>, name: Option<Seq<char>>) -> Seq<char> {
    resolved(
        current_folder,
        folder_name(
            match name {
                Some(n) => n,
                None => Seq::<char>::empty(),
            },
        ),
    )
}

/// The folders that the first components of a path lead to.
spec fn folders_upto(path: Seq<char>, n: int) -> Set<Seq<char>> {
    Set::new(
        |f: Seq<char>|
            exists|i: int|
                1 <= i <= n && split(path, false)[i - 1].len() > 0 && f == #[trigger] folder_at(
                    path,
                    i,
                ),
    )
}

proof fn lemma_nonempty_step(parts: Seq<Seq<char>>, i: int)
    requires
        0 <= i < parts.len(),
    ensures
        nonempty(parts.take(i + 1)) == if parts[i].len() > 0 {
            nonempty(parts.take(i)).push(parts[i])
        } else {
            nonempty(parts.take(i))
        },
{
    reveal(Seq::filter);
    assert(parts.take(i + 1).drop_last() =~= parts.take(i));
}

impl JSZip {
    /// The root of an archive without a comment.
    pub fn new() -> (r: JSZip)
        ensures
            r@.comment == Seq::<char>::empty(),
            r@.current_folder == Seq::<char>::empty(),
    {
        JSZip { comment: String::new(), current_folder: String::new() }
    }

    /// The key that a name stands for in this place.
    pub fn resolve_path(&self, name: &str) -> (r: String)
        ensures
            r@ == resolved(self@.current_folder, name@),
            r@ == resolved(self.current_folder@, name@),
    {
        resolve_path(&self.current_folder, name)
    }

    /// With no data, looks a file or folder up; with data, puts a file into the table, in place
    /// of what is there under its key.
    pub fn file(
        &self,
        files: &mut ZipFiles,
        name: &str,
        data: Option<JsData>,
        options: Option<FileOptions>,
    ) -> (r: Result<FileReply, String>)
        requires
            old(files).wf(),
        ensures
            final(files).wf(),
            ({
                let key = resolved(self@.current_folder, name@);
                match data {
                    None => {
                        &&& *final(files) == *old(files)
                        &&& if old(files)@.contains_key(key) {
                            r matches Ok(FileReply::Object(o)) && o@ == full_object(
                                old(files)@[key],
                            )
                        } else {
                            r matches Ok(FileReply::Missing)
                        }
                    },
                    Some(value) => match content_of(value) {
                        Err(message) => {
                            &&& *final(files) == *old(files)
                            &&& r matches Err(text) && text@ == message
                        },
                        Ok(bytes) => {
                            &&& r matches Ok(FileReply::Archive(zip)) && zip@ == self@
                            &&& file_added(
                                old(files)@,
                                final(files)@,
                                key,
                                bytes,
                                file_options(options),
                            )
                        },
                    },
                }
            }),
    {
        let full_name = self.resolve_path(name);
        let value = match data {
            None => {
                return match files.get(&full_name) {
                    Some(entry) => Ok(FileReply::Object(ZipObject::from_entry(entry))),
                    None => Ok(FileReply::Missing),
                };
            },
            Some(value) => value,
        };
        let bytes = match js_value_to_vec_u8(value) {
            Ok(bytes) => bytes,
            Err(message) => {
                return Err(message);
            },
        };
        let opts = match options {
            Some(o) => o,
            None => FileOptions::default(),
        };
        let compression = match method_asked(&opts.compression) {
            Some(method) => method,
            None => CompressionMethod::Store,
        };
        let comment = match &opts.comment {
            Some(c) => c.clone(),
            None => String::new(),
        };
        let ghost key = full_name@;
        let ghost content = bytes@;
        let made = ZipEntry::new_file(full_name.clone(), bytes);
        let entry = ZipEntry { compression, comment, ..made };
        let ghost e = entry@;
        assert(opts == file_options(options));
        assert(e == stored_entry(key, content, opts, e.date->0));
        files.insert(full_name.clone(), entry);
        let ghost with_file = files@;
        assert(with_file.contains_key(key) && with_file[key] == e);
        if switched_on(opts.create_folders) {
            self.create_parent_folders(files, &full_name);
        }
        assert(files@[key] == e);
        Ok(FileReply::Archive(self.clone()))
    }

    /// Enters a folder, which is put into the table where it is not there yet; or lists the
    /// folders whose key matches a pattern. A value that is no text stands for the empty name.
    pub fn folder<F: Fn(&String) -> bool>(
        &self,
        files: &mut ZipFiles,
        name_or_regex: FolderQuery<F>,
    ) -> (r: FolderReply)
        requires
            old(files).wf(),
            name_or_regex matches FolderQuery::Pattern(regex) ==> forall|name: &String|
                call_requires(regex, (name,)),
        ensures
            final(files).wf(),
            match name_or_regex {
                FolderQuery::Pattern(regex) => {
                    &&& *final(files) == *old(files)
                    &&& r matches FolderReply::Matches(found) && found_by(
                        regex,
                        *old(files),
                        true,
                        found@,
                    )
                },
                FolderQuery::Name(name) => {
                    let key = folder_key(self@.current_folder, text_of(name));
                    &&& folders_added(old(files)@, final(files)@, set![key])
                    &&& r matches FolderReply::Folder(zip) && zip@ == (PlaceView {
                        current_folder: key,
                        ..self@
                    })
                },
            },
    {
        let name = match name_or_regex {
            FolderQuery::Pattern(regex) => {
                return FolderReply::Matches(self.filter_internal(files, regex, true));
            },
            FolderQuery::Name(Some(name)) => name,
            FolderQuery::Name(None) => String::new(),
        };
        let folder_name = with_slash(name);
        let full_name = self.resolve_path(&folder_name);
        proof {
            lemma_folder_key(self@.current_folder, folder_name@);
        }
        let entry = ZipEntry::new_dir(full_name.clone());
        files.insert_if_absent(full_name.clone(), entry);
        let mut sub_zip = self.clone();
        sub_zip.current_folder = full_name;
        FolderReply::Folder(sub_zip)
    }

    /// Takes a file or folder out of the table, and everything that lies in it.
    pub fn remove(&self, files: &mut ZipFiles, name: &str) -> (r: JSZip)
        requires
            old(files).wf(),
        ensures
            final(files).wf(),
            final(files)@ == without_tree(
                old(files)@,
                resolved(self@.current_folder, name@),
                folder_name(resolved(self@.current_folder, name@)),
            ),
            r@ == self@,
    {
        let full_name = self.resolve_path(name);
        let prefix = with_slash(full_name.clone());
        files.remove_tree(&full_name, &prefix);
        self.clone()
    }

    /// The comment of the archive.
    pub fn comment(&self) -> (r: String)
        ensures
            r@ == self@.comment,
            r@ == self.comment@,
    {
        self.comment.clone()
    }

    /// Sets the comment of the archive.
    pub fn set_comment(&mut self, c: String)
        ensures
            final(self)@ == (PlaceView { comment: c@, ..old(self)@ }),
            final(self).comment@ == c@,
            final(self).current_folder@ == old(self).current_folder@,
    {
        self.comment = c;
    }

    /// Puts the folders that a path lies in into the table, where they are not there yet.
    pub fn create_parent_folders(&self, files: &mut ZipFiles, path: &str)
        requires
            old(files).wf(),
        ensures
            final(files).wf(),
            folders_added(old(files)@, final(files)@, parent_folders(path@)),
    {
        let chars = to_chars(path);
        let parts = split_path(&chars, false);
        let mut current: Vec<char> = Vec::new();
        let n: usize = parts.len();
        let ghost s = split(path@, false);
        let ghost start = files@;
        let last: usize = if n > 0 {
            n - 1
        } else {
            0
        };
        proof {
            assert(texts(parts@) == s);
            reveal(Seq::filter);
            assert(current@ =~= join(nonempty(s.take(0))));
        }
        for i in 0..last
            invariant
                last < n || n == 0,
                last <= n == parts@.len(),
                texts(parts@) == s,
                s == split(path@, false),
                files.wf(),
                current@ == join(nonempty(s.take(i as int))),
                current@.len() > 0 <==> nonempty(s.take(i as int)).len() > 0,
                folders_added(start, files@, folders_upto(path@, i as int)),
        {
            let part = &parts[i];
            let ghost before = files@;
            let ghost known = folders_upto(path@, i as int);
            let ghost more = folders_upto(path@, i as int + 1);
            proof {
                lemma_nonempty_step(s, i as int);
                assert(s[i as int] == part@);
            }
            if part.len() > 0 {
                if current.len() > 0 {
                    current.push('/');
                }
                append_chars(&mut current, part);
                proof {
                    let a = nonempty(s.take(i as int));
                    assert(a.push(part@).drop_last() =~= a);
                    assert(current@ =~= join(a.push(part@)));
                }
                let mut folder = from_chars(&current);
                folder.push('/');
                let ghost f = folder@;
                assert(f == folder_at(path@, i as int + 1));
                let entry = ZipEntry::new_dir(folder.clone());
                files.insert_if_absent(folder, entry);
                proof {
                    assert forall|k: Seq<char>| #[trigger] more.contains(k) <==> known.contains(k)
                        || k == f by {
                        if more.contains(k) && k != f {
                            let j = choose|j: int|
                                1 <= j <= i + 1 && split(path@, false)[j - 1].len() > 0 && k
                                    == #[trigger] folder_at(path@, j);
                            assert(j <= i);
                        }
                        if known.contains(k) {
                            let j = choose|j: int|
                                1 <= j <= i && split(path@, false)[j - 1].len() > 0 && k
                                    == #[trigger] folder_at(path@, j);
                            assert(j <= i + 1);
                        }
                    }
                }
            } else {
                proof {
                    assert(more =~= known) by {
                        assert forall|k: Seq<char>| more.contains(k) <==> known.contains(k) by {
                            if more.contains(k) {
                                let j = choose|j: int|
                                    1 <= j <= i + 1 && split(path@, false)[j - 1].len() > 0 && k
                                        == #[trigger] folder_at(path@, j);
                                assert(j <= i);
                            }
                        }
                    }
                }
            }
        }
        proof {
            assert(folders_upto(path@, last as int) =~= parent_folders(path@)) by {
                assert forall|k: Seq<char>|
                    folders_upto(path@, last as int).contains(k) <==> parent_folders(
                        path@,
                    ).contains(k) by {
                    if folders_upto(path@, last as int).contains(k) {
                        let j = choose|j: int|
                            1 <= j <= last && split(path@, false)[j - 1].len() > 0 && k
                                == #[trigger] folder_at(path@, j);
                        assert(j < s.len());
                    }
                }
            }
        }
    }
}

impl Clone for JSZip {
    /// The same place once more.
    fn clone(&self) -> (r: JSZip)
        ensures
            r@ == self@,
    {
        JSZip { comment: self.comment.clone(), current_folder: self.current_folder.clone() }
    }
}

} // verus!
