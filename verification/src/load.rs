//! Reading an archive into the table.
use crate::archive::{archive_comment, archive_members, opened, ReadMember};
use crate::archive::{archive_len, comment_bytes, member_content, member_head, open_archive};
use crate::content::{content_of, utf8_lossy};
use crate::content::{js_value_to_vec_u8, lossy_text, JsData};
use crate::entry::{dir_entry, file_entry, is_new_dir, EntryView};
use crate::entry::ZipEntry;
use crate::files::ZipFiles;
use crate::jszip::{folders_added, PlaceView};
use crate::jszip::JSZip;
use crate::options::is_on;
use crate::options::{switched_on, LoadOptions};
use crate::path::sanitize_path;
use crate::path::{denotes_folder, parent_folders, sanitized};
use crate::text::{concat, decimal_text, ends_in_char};
use crate::text::decimal;
use crate::time::is_date;
use vstd::prelude::*;

verus! {

/// A file or folder as it is found in an archive: its name, and its content or the text of the
/// error that reading the content ends in.
pub struct FoundMember {
    pub name: String,
    pub content: Result<Vec<u8>, String>,
}

impl View for FoundMember {
    type V = ReadMember;

    open spec fn view(&self) -> ReadMember {
        ReadMember {
            name: self.name@,
            content: match self.content {
                Ok(data) => Ok(data@),
                Err(cause) => Err(cause@),
            },
        }
    }
}

/// What was found in the place of a member.
pub open spec fn found_view(found: Result<FoundMember, String>) -> Result<ReadMember, Seq<char>> {
    match found {
        Ok(member) => Ok(member@),
        Err(cause) => Err(cause@),
    }
}

/// The message with which a member cannot be read. The content of a folder is not read.
pub open spec fn member_failure(
    i: int,
    found: Result<ReadMember, Seq<char>>,
) -> Option<Seq<char>> {
    match found {
        Err(cause) => Some("Failed to read file "@ + decimal(i as nat) + ": "@ + cause),
        Ok(member) => if denotes_folder(member.name) {
            None
        } else {
            match member.content {
                Err(cause) => Some("Failed to read content: "@ + cause),
                Ok(_) => None,
            }
        },
    }
}

/// The message of the first of the members before a place that cannot be read; `None` where all
/// of them can.
pub open spec fn load_failure(
    members: Seq<Result<ReadMember, Seq<char>>>,
    end: int,
) -> Option<Seq<char>>
    decreases end,
{
    if end <= 0 {
        None
    } else {
        match load_failure(members, end - 1) {
            Some(message) => Some(message),
            None => member_failure(end - 1, members[end - 1]),
        }
    }
}

/// The key under which a member that can be read is put into the table.
pub open spec fn member_key(found: Result<ReadMember, Seq<char>>) -> Seq<char> {
    sanitized(found->Ok_0.name)
}

/// Whether an entry is what a member becomes: a new folder, or a new file with its content, under
/// the safe form of the name. A file whose name was not safe keeps that name on record.
pub open spec fn is_member_entry(e: EntryView, found: Result<ReadMember, Seq<char>>) -> bool {
    let name = found->Ok_0.name;
    let key = member_key(found);
    &&& is_date(e.date)
    &&& e == if denotes_folder(name) {
        dir_entry(key, e.date->0)
    } else {
        EntryView {
            unsafe_original_name: if name != key {
                Some(name)
            } else {
                None
            },
            ..file_entry(key, found->Ok_0.content->Ok_0, e.date->0)
        }
    }
}

/// Whether the first members hold one with a key.
pub open spec fn has_member(
    members: Seq<Result<ReadMember, Seq<char>>>,
    end: int,
    key: Seq<char>,
) -> bool {
    exists|i: int| 0 <= i < end && #[trigger] member_key(members[i]) == key
}

/// Whether a member is the last of the first members with its key.
pub open spec fn is_last_of_key(
    members: Seq<Result<ReadMember, Seq<char>>>,
    end: int,
    i: int,
) -> bool {
    &&& 0 <= i < end
    &&& forall|j: int|
        i < j < end ==> #[trigger] member_key(members[j]) != member_key(members[i])
}

/// Whether a table is another one with the first members of an archive put in, the later of two
/// with the same key in place of the earlier.
pub open spec fn members_added(
    a: Map<Seq<char>, EntryView>,
    b: Map<Seq<char>, EntryView>,
    members: Seq<Result<ReadMember, Seq<char>>>,
    end: int,
) -> bool {
    &&& forall|k: Seq<char>|
        #[trigger] b.contains_key(k) <==> a.contains_key(k) || has_member(members, end, k)
    &&& forall|k: Seq<char>| #[trigger]
        a.contains_key(k) && !has_member(members, end, k) ==> b[k] == a[k]
    &&& forall|i: int| #[trigger]
        is_last_of_key(members, end, i) ==> is_member_entry(
            b[member_key(members[i])],
            members[i],
        )
}

/// The folders that the keys of a table lie in.
pub open spec fn all_parents(m: Map<Seq<char>, EntryView>) -> Set<Seq<char>> {
    Set::new(
        |f: Seq<char>|
            exists|k: Seq<char>| #[trigger] m.contains_key(k) && parent_folders(k).contains(f),
    )
}

/// Whether a table is what reading members makes of another one: with the members put in, and
/// then with all folders that the keys lie in where they are asked for.
pub open spec fn is_loaded(
    a: Map<Seq<char>, EntryView>,
    b: Map<Seq<char>, EntryView>,
    members: Seq<Result<ReadMember, Seq<char>>>,
    create_folders: bool,
) -> bool {
    if create_folders {
        exists|c: Map<Seq<char>, EntryView>|
            members_added(a, c, members, members.len() as int) && #[trigger] folders_added(
                c,
                b,
                all_parents(c),
            )
    } else {
        members_added(a, b, members, members.len() as int)
    }
}

/// The comment after an archive has been read: that of the archive, or the one before where the
/// archive has none.
pub open spec fn loaded_comment(before: Seq<char>, found: Seq<u8>) -> Seq<char> {
    if found.len() == 0 {
        before
    } else {
        utf8_lossy(found)
    }
}

/// Whether options ask for the folders that the keys lie in.
pub open spec fn creates_folders(options: Option<LoadOptions>) -> bool {
    options matches Some(o) && is_on(o.create_folders)
}

/// Puts what was found in the place of a member into the table.
pub fn load_member(files: &mut ZipFiles, i: usize, found: Result<FoundMember, String>) -> (r: Result<
    (),
    String,
>)
    requires
        old(files).wf(),
    ensures
        final(files).wf(),
        match member_failure(i as int, found_view(found)) {
            Some(message) => {
                &&& r matches Err(text) && text@ == message
                &&& final(files)@ == old(files)@
            },
            None => {
                let key = member_key(found_view(found));
                &&& r is Ok
                &&& is_member_entry(final(files)@[key], found_view(found))
                &&& final(files)@ == old(files)@.insert(key, final(files)@[key])
            },
        },
{
    let ghost seen = found_view(found);
    let member = match found {
        Ok(member) => member,
        Err(cause) => {
            let place = concat("Failed to read file ", &decimal_text(i));
            return Err(concat(&concat(&place, ": "), &cause));
        },
    };
    let FoundMember { name, content } = member;
    let key = sanitize_path(&name);
    let ghost k = key@;
    let entry = if ends_in_char(&name, '/') || ends_in_char(&name, '\\') {
        ZipEntry::new_dir(key.clone())
    } else {
        let data = match content {
            Ok(data) => data,
            Err(cause) => {
                return Err(concat("Failed to read content: ", &cause));
            },
        };
        let unsafe_name = if name != key {
            Some(name)
        } else {
            None
        };
        let made = ZipEntry::new_file(key.clone(), data);
        ZipEntry { unsafe_original_name: unsafe_name, ..made }
    };
    let ghost e = entry@;
    assert(is_member_entry(e, seen));
    files.insert(key, entry);
    assert(files@[k] == e);
    Ok(())
}

proof fn lemma_failure_stays(members: Seq<Result<ReadMember, Seq<char>>>, i: int, end: int)
    requires
        i <= end,
        load_failure(members, i) is Some,
    ensures
        load_failure(members, end) == load_failure(members, i),
    decreases end,
{
    if i < end && end > 0 {
        lemma_failure_stays(members, i, end - 1);
    }
}

proof fn lemma_member_added(
    a: Map<Seq<char>, EntryView>,
    b: Map<Seq<char>, EntryView>,
    members: Seq<Result<ReadMember, Seq<char>>>,
    i: int,
    e: EntryView,
)
    requires
        0 <= i < members.len(),
        members_added(a, b, members, i),
        is_member_entry(e, members[i]),
    ensures
        members_added(a, b.insert(member_key(members[i]), e), members, i + 1),
{
    let key = member_key(members[i]);
    let c = b.insert(key, e);
    assert forall|k: Seq<char>| has_member(members, i + 1, k) <==> has_member(members, i, k) || k
        == key by {
        if has_member(members, i + 1, k) {
            let j = choose|j: int| 0 <= j < i + 1 && #[trigger] member_key(members[j]) == k;
            assert(j < i ==> has_member(members, i, k));
        }
        if has_member(members, i, k) {
            let j = choose|j: int| 0 <= j < i && #[trigger] member_key(members[j]) == k;
            assert(0 <= j < i + 1);
        }
    }
    assert forall|j: int| #[trigger] is_last_of_key(members, i + 1, j) implies is_member_entry(
        c[member_key(members[j])],
        members[j],
    ) by {
        if j < i {
            assert(member_key(members[i]) != member_key(members[j]));
            assert(is_last_of_key(members, i, j));
        }
    }
}

proof fn lemma_folders_added_twice(
    a: Map<Seq<char>, EntryView>,
    b: Map<Seq<char>, EntryView>,
    c: Map<Seq<char>, EntryView>,
    first: Set<Seq<char>>,
    second: Set<Seq<char>>,
)
    requires
        folders_added(a, b, first),
        folders_added(b, c, second),
    ensures
        folders_added(a, c, first.union(second)),
{
    assert forall|k: Seq<char>| #[trigger] a.contains_key(k) implies c[k] == a[k] by {
        assert(b.contains_key(k));
    }
    assert forall|k: Seq<char>| #[trigger]
        first.union(second).contains(k) && !a.contains_key(k) implies is_new_dir(c[k], k) by {
        if first.contains(k) {
            assert(b.contains_key(k));
        }
    }
}

/// The folders that given keys lie in.
spec fn parents_of(keys: Seq<Seq<char>>) -> Set<Seq<char>> {
    Set::new(
        |f: Seq<char>|
            exists|i: int| 0 <= i < keys.len() && #[trigger] parent_folders(keys[i]).contains(f),
    )
}

impl JSZip {
    /// Puts the folders that the keys of a table lie in into it, where they are not there yet.
    fn create_all_folders(&self, files: &mut ZipFiles)
        requires
            old(files).wf(),
        ensures
            final(files).wf(),
            folders_added(old(files)@, final(files)@, all_parents(old(files)@)),
    {
        let ghost start = files@;
        let ghost keys = files.order();
        let mut names: Vec<String> = Vec::new();
        let n: usize = files.len();
        for i in 0..n
            invariant
                n == files.order().len(),
                keys == files.order(),
                names@.len() == i,
                forall|j: int| 0 <= j < i ==> (#[trigger] names@[j])@ == keys[j],
        {
            names.push(files.key_at(i).clone());
        }
        proof {
            files.lemma_order();
        }
        for i in 0..n
            invariant
                files.wf(),
                n == names@.len() == keys.len(),
                forall|j: int| 0 <= j < n ==> (#[trigger] names@[j])@ == keys[j],
                folders_added(start, files@, parents_of(keys.take(i as int))),
        {
            let ghost before = files@;
            self.create_parent_folders(files, &names[i]);
            proof {
                let known = parents_of(keys.take(i as int));
                let more = parent_folders(names@[i as int]@);
                lemma_folders_added_twice(start, before, files@, known, more);
                assert(known.union(more) =~= parents_of(keys.take(i as int + 1))) by {
                    let part = keys.take(i as int + 1);
                    assert forall|f: Seq<char>|
                        known.union(more).contains(f) <==> parents_of(part).contains(f) by {
                        if known.contains(f) {
                            let j = choose|j: int|
                                0 <= j < i && #[trigger] parent_folders(
                                    keys.take(i as int)[j],
                                ).contains(f);
                            assert(parent_folders(part[j]).contains(f));
                        }
                        if more.contains(f) {
                            assert(parent_folders(part[i as int]).contains(f));
                        }
                        if parents_of(part).contains(f) {
                            let j = choose|j: int|
                                0 <= j < i + 1 && #[trigger] parent_folders(part[j]).contains(f);
                            if j < i {
                                assert(parent_folders(keys.take(i as int)[j]).contains(f));
                            }
                        }
                    }
                }
            }
        }
        proof {
            assert(keys.take(n as int) =~= keys);
            assert(parents_of(keys) =~= all_parents(start)) by {
                assert forall|f: Seq<char>|
                    parents_of(keys).contains(f) <==> all_parents(start).contains(f) by {
                    if parents_of(keys).contains(f) {
                        let j = choose|j: int|
                            0 <= j < keys.len() && #[trigger] parent_folders(keys[j]).contains(f);
                        assert(keys.contains(keys[j]));
                        assert(start.contains_key(keys[j]));
                    }
                    if all_parents(start).contains(f) {
                        let k = choose|k: Seq<char>| #[trigger]
                            start.contains_key(k) && parent_folders(k).contains(f);
                        let j = keys.index_of(k);
                        assert(keys[j] == k);
                    }
                }
            }
        }
    }

    /// Reads an archive into a copy of the table, and gives back that copy and the place with the
    /// comment that was read.
    pub fn load_async(&self, files: &ZipFiles, data: JsData, options: Option<LoadOptions>) -> (r:
        Result<(JSZip, ZipFiles), String>)
        requires
            files.wf(),
        ensures
            match content_of(data) {
                Err(message) => r matches Err(text) && text@ == message,
                Ok(bytes) => match opened(bytes) {
                    Err(cause) => r matches Err(text) && text@ == "Failed to open zip: "@ + cause,
                    Ok((members, comment)) => match load_failure(members, members.len() as int) {
                        Some(message) => r matches Err(text) && text@ == message,
                        None => r matches Ok((zip, table)) && {
                            &&& table.wf()
                            &&& is_loaded(files@, table@, members, creates_folders(options))
                            &&& zip@ == (PlaceView {
                                comment: loaded_comment(self@.comment, comment),
                                ..self@
                            })
                        },
                    },
                },
            },
    {
        let create_folders = match &options {
            Some(o) => switched_on(o.create_folders),
            None => false,
        };
        let mut zip = self.clone();
        let mut table = files.clone();
        let bytes = match js_value_to_vec_u8(data) {
            Ok(bytes) => bytes,
            Err(message) => {
                return Err(message);
            },
        };
        let ghost content = bytes@;
        let mut archive = match open_archive(bytes) {
            Ok(archive) => archive,
            Err(cause) => {
                return Err(concat("Failed to open zip: ", &cause));
            },
        };
        let ghost members = archive_members(archive);
        let ghost comment = archive_comment(archive);
        let n: usize = archive_len(&archive);
        for i in 0..n
            invariant
                content_of(data) == Ok::<Seq<u8>, Seq<char>>(content),
                opened(content) == Ok::<
                    (Seq<Result<ReadMember, Seq<char>>>, Seq<u8>),
                    Seq<char>,
                >((members, comment)),
                n == members.len(),
                archive_members(archive) == members,
                archive_comment(archive) == comment,
                table.wf(),
                load_failure(members, i as int) is None,
                members_added(files@, table@, members, i as int),
        {
            let ghost before = table@;
            let found = match member_head(&mut archive, i) {
                Ok((name, folder)) => {
                    let content = if folder {
                        Ok(Vec::new())
                    } else {
                        member_content(&mut archive, i)
                    };
                    Ok(FoundMember { name, content })
                },
                Err(cause) => Err(cause),
            };
            let ghost seen = found_view(found);
            assert(member_failure(i as int, seen) == member_failure(i as int, members[i as int]));
            match load_member(&mut table, i, found) {
                Ok(_) => {
                    proof {
                        let key = member_key(members[i as int]);
                        let e = table@[key];
                        assert(member_key(seen) == key);
                        assert(is_member_entry(e, members[i as int]));
                        lemma_member_added(files@, before, members, i as int, e);
                    }
                },
                Err(message) => {
                    proof {
                        lemma_failure_stays(members, i as int + 1, n as int);
                    }
                    return Err(message);
                },
            }
        }
        let found_comment = comment_bytes(&archive);
        if found_comment.len() > 0 {
            zip.comment = lossy_text(&found_comment);
        }
        if create_folders {
            self.create_all_folders(&mut table);
        }
        Ok((zip, table))
    }
}

} // verus!
