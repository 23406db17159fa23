//! What holds of the table when files and folders come and go, and of what is written of it and
//! read into it.
use crate::archive::{finished, folder_failure, start_failure, write_failure};
use crate::archive::{ReadMember, ZipMember};
use crate::content::{base64_decoded, base64_encoded, utf8_lossy};
use crate::content::Output;
use crate::content_laws::{law_archive_bytes, law_archive_forms, law_base64_limit};
use crate::entry::{dir_entry, file_entry, folder_name, is_new_dir, text_of, upper_case};
use crate::entry::{CompressionMethod, EntryView};
use crate::files::{all_fit, without_tree};
use crate::generate::lemma_failure_stays;
use crate::generate::all_writable;
use crate::generate::{all_told, archive_result, asked_of, first_failure, generated, members_of};
use crate::jszip::{file_added, file_options, folder_key, folders_added};
use crate::load::found_view;
use crate::load::FoundMember;
use crate::load::{all_parents, creates_folders, has_member, is_last_of_key, is_loaded};
use crate::load::{load_failure, loaded_comment, member_failure, member_key, members_added};
use crate::options::{FileOptions, GenerateOptions, LoadOptions};
use crate::order::lemma_text_less_asymmetric;
use crate::order::{archive_order, is_archive_order, less_at, text_less};
use crate::path::{parent_folders, resolved, sanitized};
use crate::path_laws::{law_parents_are_prefixes, law_parents_of_parents};
use crate::text::{decimal, occurrences};
use crate::time::rfc3339_text;
use crate::time::Timestamp;
use vstd::prelude::*;
use vstd::utf8::encode_utf8;

verus! {

/// A new file has its name and content and nothing else; a new folder has no content, and its
/// name is the one it was made with, with a slash at the end.
pub proof fn law_new_entries(name: Seq<char>, data: Seq<u8>, date: Timestamp)
    ensures
        ({
            let f = file_entry(name, data, date);
            &&& f.name == name && !f.dir && f.data == Some(data) && f.comment.len() == 0
            &&& f.date == Some(date) && f.compression == CompressionMethod::Store
            &&& f.unsafe_original_name is None
        }),
        ({
            let d = dir_entry(name, date);
            &&& d.dir && d.data is None && d.comment.len() == 0 && d.date == Some(date)
            &&& d.compression == CompressionMethod::Store && d.unsafe_original_name is None
            &&& d.name.last() == '/'
            &&& name.len() > 0 && name.last() == '/' ==> d.name == name
            &&& !(name.len() > 0 && name.last() == '/') ==> d.name == name.push('/')
        }),
{
}

/// A file that is put in has the content and comment that it was given, is stored unless it is to
/// be deflated, and has a date that can be written out. No key is added but its own and, where
/// they are asked for, those of folders that it lies in.
pub proof fn law_file_as_given(
    a: Map<Seq<char>, EntryView>,
    b: Map<Seq<char>, EntryView>,
    key: Seq<char>,
    data: Seq<u8>,
    options: FileOptions,
    other: Seq<char>,
)
    requires
        file_added(a, b, key, data, options),
    ensures
        b.contains_key(key),
        b[key].name == key && !b[key].dir && b[key].data == Some(data),
        b[key].unsafe_original_name is None,
        match options.comment {
            Some(c) => b[key].comment == c@,
            None => b[key].comment.len() == 0,
        },
        b[key].compression == CompressionMethod::Deflate <==> options.compression is Some
            && upper_case(options.compression->0@) == "DEFLATE"@,
        b[key].date is Some,
        rfc3339_text(b[key].date->0.secs as int, b[key].date->0.nanos as int) is Some,
        other != key && a.contains_key(other) ==> b.contains_key(other) && b[other] == a[other],
        other != key && !a.contains_key(other) && b.contains_key(other) ==> {
            &&& options.create_folders == Some(true)
            &&& parent_folders(key).contains(other)
            &&& b[other].dir
        },
        options.create_folders == Some(true) && parent_folders(key).contains(other)
            ==> b.contains_key(other),
{
    let with_file = a.insert(key, b[key]);
    assert(with_file.contains_key(key));
    assert(with_file.contains_key(other) <==> other == key || a.contains_key(other));
}

/// With its folders, a file brings every part of its key that ends in a slash into the table. This
/// speaks of keys without an empty component.
pub proof fn law_file_brings_folders(
    a: Map<Seq<char>, EntryView>,
    b: Map<Seq<char>, EntryView>,
    key: Seq<char>,
    data: Seq<u8>,
    options: FileOptions,
    n: int,
)
    requires
        file_added(a, b, key, data, options),
        options.create_folders == Some(true),
        key.len() > 0 ==> key[0] != '/',
        forall|i: int| 0 <= i && i + 1 < key.len() && #[trigger] key[i] == '/' ==> key[i + 1]
            != '/',
        0 < n <= key.len(),
        key[n - 1] == '/',
    ensures
        b.contains_key(key.take(n)),
{
    law_parents_are_prefixes(key, key.take(n));
    law_file_as_given(a, b, key, data, options, key.take(n));
}

/// Options that are given are the ones that count, and none ask for nothing.
pub proof fn law_given_options(file: FileOptions, load: LoadOptions)
    ensures
        file_options(Some(file)) == file,
        file_options(None).compression is None,
        file_options(None).comment is None,
        file_options(None).create_folders is None,
        creates_folders(Some(load)) <==> load.create_folders == Some(true),
        !creates_folders(None),
{
}

/// Adding folders adds the keys of the folders and no others; what is new is an empty folder with
/// the name of its key.
pub proof fn law_added_folders(
    a: Map<Seq<char>, EntryView>,
    b: Map<Seq<char>, EntryView>,
    folders: Set<Seq<char>>,
    k: Seq<char>,
)
    requires
        folders_added(a, b, folders),
    ensures
        b.contains_key(k) <==> a.contains_key(k) || folders.contains(k),
        a.contains_key(k) ==> b[k] == a[k],
        b.contains_key(k) && !a.contains_key(k) ==> {
            &&& b[k].dir && b[k].data is None && b[k].comment.len() == 0
            &&& b[k].unsafe_original_name is None
            &&& k.len() > 0 && k.last() == '/' ==> b[k].name == k
        },
{
    assert(!a.contains_key(k) && folders.contains(k) ==> is_new_dir(b[k], k));
}

/// A folder is asked for by its name with or without a slash at the end, and goes by that name
/// with the slash; no name is the empty one.
pub proof fn law_folder_names(current_folder: Seq<char>, name: Seq<char>)
    ensures
        name.len() > 0 && name.last() == '/' ==> folder_key(current_folder, Some(name))
            == resolved(current_folder, name),
        !(name.len() > 0 && name.last() == '/') ==> {
            &&& folder_key(current_folder, Some(name)) == resolved(current_folder, name.push('/'))
            &&& folder_key(current_folder, Some(name)) == folder_key(
                current_folder,
                Some(name.push('/')),
            )
        },
        folder_key(current_folder, None) == folder_key(current_folder, Some(seq![])),
{
    assert(name.push('/').last() == '/');
}

/// Taking something out leaves a key exactly where it is another one and does not go on, behind
/// the one that is taken out, with a slash.
pub proof fn law_removed_keys(m: Map<Seq<char>, EntryView>, key: Seq<char>, k: Seq<char>)
    ensures
        ({
            let left = without_tree(m, key, folder_name(key));
            let n = key.len() as int;
            let inside = if n > 0 && key[n - 1] == '/' {
                k.len() >= n && k.take(n) == key
            } else {
                k.len() > n && k.take(n) == key && k[n] == '/'
            };
            &&& left.contains_key(k) <==> m.contains_key(k) && k != key && !inside
            &&& left.contains_key(k) ==> left[k] == m[k]
        }),
{
    let prefix = folder_name(key);
    let n = key.len() as int;
    if n > 0 && key[n - 1] == '/' {
        assert(prefix == key);
        if k.len() >= n {
            assert(k.subrange(0, n) =~= k.take(n));
        }
    } else {
        assert(prefix == key.push('/'));
        if k.len() > n {
            if k.take(n) == key && k[n] == '/' {
                assert(k.subrange(0, n + 1) =~= prefix);
            }
            if prefix.is_prefix_of(k) {
                assert(prefix == k.subrange(0, n + 1));
                assert(k[n] == prefix[n]);
                assert(k.take(n) =~= key);
            }
        }
    }
}

/// What is written are the keys of the table, each once.
pub proof fn law_order_is_complete(
    m: Map<Seq<char>, EntryView>,
    order: Seq<Seq<char>>,
    key: Seq<char>,
)
    requires
        is_archive_order(order, m),
    ensures
        m.contains_key(key) <==> exists|i: int| 0 <= i < order.len() && #[trigger] order[i] == key,
        forall|i: int, j: int|
            0 <= i < j < order.len() ==> #[trigger] order[i] != #[trigger] order[j],
{
    if m.contains_key(key) {
        let i = order.index_of(key);
        assert(order[i] == key);
    }
    assert forall|i: int, j: int| 0 <= i < j < order.len() implies #[trigger] order[i]
        != #[trigger] order[j] by {
        if order[i] == order[j] {
            assert(text_less(order[i], order[j]));
            lemma_text_less_asymmetric(order[i], order[j]);
        }
    }
}

proof fn lemma_occurrences_filter(s: Seq<char>)
    ensures
        occurrences(s, '/') == s.filter(|c: char| c == '/').len(),
    decreases s.len(),
{
    reveal(Seq::filter);
    if s.len() > 0 {
        lemma_occurrences_filter(s.drop_last());
    }
}

/// Of two entries one after the other, both folders or both files, the later has no fewer slashes
/// in its key; with as many, the earlier key ends where the later goes on, or has the lesser
/// character at the first place where they differ.
pub proof fn law_order_by_depth_and_name(
    m: Map<Seq<char>, EntryView>,
    order: Seq<Seq<char>>,
    i: int,
    j: int,
)
    requires
        is_archive_order(order, m),
        0 <= i < j < order.len(),
    ensures
        m[order[i]].dir == m[order[j]].dir ==> {
            let a = order[i].filter(|c: char| c == '/').len();
            let b = order[j].filter(|c: char| c == '/').len();
            &&& a <= b
            &&& a == b ==> exists|n: int|
                0 <= n <= order[i].len() && n < order[j].len() && #[trigger] order[i].take(n)
                    == order[j].take(n) && (n == order[i].len() || order[i][n] < order[j][n])
        },
        m[order[i]].dir || !m[order[j]].dir,
{
    let a = order[i];
    let b = order[j];
    lemma_occurrences_filter(a);
    lemma_occurrences_filter(b);
    if m[a].dir == m[b].dir && occurrences(a, '/') == occurrences(b, '/') {
        assert(text_less(a, b));
        let n = choose|n: int| less_at(a, b, n);
        assert(a.take(n) =~= b.take(n));
    }
}

/// An entry is written under its key, with its content and by the method that was asked for or
/// else by its own; a folder under the empty key is written as `/`, and folders have no content.
pub proof fn law_members(
    m: Map<Seq<char>, EntryView>,
    keys: Seq<Seq<char>>,
    asked: Option<CompressionMethod>,
    i: int,
)
    requires
        all_fit(m),
        0 <= i < keys.len(),
        m.contains_key(keys[i]),
    ensures
        members_of(m, keys, asked).len() == keys.len(),
        ({
            let member = members_of(m, keys, asked)[i];
            let e = m[keys[i]];
            &&& member.folder == e.dir
            &&& keys[i].len() > 0 || !e.dir ==> member.name == keys[i]
            &&& keys[i].len() == 0 && e.dir ==> member.name == seq!['/']
            &&& e.dir ==> member.data.len() == 0
            &&& !e.dir && e.data is Some ==> member.data == e.data->0
            &&& !e.dir && e.data is None ==> member.data.len() == 0
            &&& !e.dir && asked is Some ==> member.method == asked->0
            &&& !e.dir && asked is None ==> member.method == e.compression
        }),
{
    if keys[i].len() == 0 {
        assert(keys[i].push('/') =~= seq!['/']);
    }
}

/// Where the entries before a place in the order can be written, the outside writer accepts each
/// of them and takes its content.
pub proof fn law_entries_accepted(
    m: Map<Seq<char>, EntryView>,
    keys: Seq<Seq<char>>,
    asked: Option<CompressionMethod>,
    end: int,
    i: int,
)
    requires
        first_failure(m, keys, asked, end) is None,
        0 <= i < end,
    ensures
        ({
            let before = members_of(m, keys.take(i), asked);
            let e = m[keys[i]];
            let method = match asked {
                Some(method) => method,
                None => e.compression,
            };
            let data = match e.data {
                Some(d) => d,
                None => Seq::<u8>::empty(),
            };
            let begun = ZipMember {
                name: keys[i],
                folder: false,
                method,
                data: Seq::<u8>::empty(),
            };
            &&& e.dir ==> folder_failure(before, keys[i]) is None
            &&& !e.dir ==> start_failure(before, keys[i], method) is None && write_failure(
                before.push(begun),
                data,
            ) is None
        }),
    decreases end,
{
    if i < end - 1 {
        law_entries_accepted(m, keys, asked, end - 1, i);
    }
}

/// A table that is written gives the bytes that finishing the archive gives after all members. One
/// that is not ends in the message of the first entry that the outside writer refuses or whose
/// content it does not take, or of finishing the archive.
pub proof fn law_archive_or_message(
    m: Map<Seq<char>, EntryView>,
    asked: Option<CompressionMethod>,
)
    ensures
        ({
            let keys = archive_order(m);
            let members = members_of(m, keys, asked);
            match archive_result(m, asked) {
                Ok(bytes) => {
                    &&& finished(members) == Ok::<Seq<u8>, Seq<char>>(bytes)
                    &&& first_failure(m, keys, asked, keys.len() as int) is None
                },
                Err(message) => {
                    ||| exists|i: int|
                        0 <= i < keys.len() && first_failure(m, keys, asked, i) is None
                            && #[trigger] is_refused(m, keys, asked, i, message)
                    ||| finished(members) is Err && message == "Zip finalize error: "@ + finished(
                        members,
                    )->Err_0 && first_failure(m, keys, asked, keys.len() as int) is None
                },
            }
        }),
{
    let keys = archive_order(m);
    if first_failure(m, keys, asked, keys.len() as int) is Some {
        lemma_refused(m, keys, asked, keys.len() as int);
        let message = first_failure(m, keys, asked, keys.len() as int)->0;
        assert(archive_result(m, asked) == Err::<Seq<u8>, Seq<char>>(message));
        let i = choose|i: int|
            0 <= i < keys.len() && first_failure(m, keys, asked, i) is None
                && #[trigger] is_refused(m, keys, asked, i, message);
        assert(is_refused(m, keys, asked, i, archive_result(m, asked)->Err_0));
    } else if finished(members_of(m, keys, asked)) is Err {
        assert(archive_result(m, asked)->Err_0 == "Zip finalize error: "@ + finished(
            members_of(m, keys, asked),
        )->Err_0);
    }
}

/// Whether the outside writer refuses the entry at a place in the order after those before it, or
/// does not take its content, and a message says so with the cause.
pub open spec fn is_refused(
    m: Map<Seq<char>, EntryView>,
    keys: Seq<Seq<char>>,
    asked: Option<CompressionMethod>,
    i: int,
    message: Seq<char>,
) -> bool {
    let before = members_of(m, keys.take(i), asked);
    let e = m[keys[i]];
    let method = match asked {
        Some(method) => method,
        None => e.compression,
    };
    let data = match e.data {
        Some(d) => d,
        None => Seq::<u8>::empty(),
    };
    let begun = ZipMember { name: keys[i], folder: false, method, data: Seq::<u8>::empty() };
    if e.dir {
        folder_failure(before, keys[i]) matches Some(cause) && message == "Zip error: "@ + cause
    } else {
        match start_failure(before, keys[i], method) {
            Some(cause) => message == "Zip error: "@ + cause,
            None => write_failure(before.push(begun), data) matches Some(cause) && message
                == "IO error: "@ + cause,
        }
    }
}

proof fn lemma_refused(
    m: Map<Seq<char>, EntryView>,
    keys: Seq<Seq<char>>,
    asked: Option<CompressionMethod>,
    end: int,
)
    requires
        first_failure(m, keys, asked, end) is Some,
    ensures
        exists|i: int|
            0 <= i < end && first_failure(m, keys, asked, i) is None && #[trigger] is_refused(
                m,
                keys,
                asked,
                i,
                first_failure(m, keys, asked, end)->0,
            ),
    decreases end,
{
    if first_failure(m, keys, asked, end - 1) is Some {
        lemma_refused(m, keys, asked, end - 1);
    } else {
        assert(is_refused(m, keys, asked, end - 1, first_failure(m, keys, asked, end)->0));
    }
}

/// What generating an archive hands out: the bytes of the archive, whole, wherever it hands out
/// bytes. It fails with the message of the archive, or as the form is not known; and there is no
/// reply only where a text in base64 would not fit in memory.
pub proof fn law_generated(
    m: Map<Seq<char>, EntryView>,
    options: GenerateOptions,
    reply: Option<Result<Output, String>>,
)
    requires
        generated(m, options, reply),
    ensures
        match archive_result(m, asked_of(options)) {
            Err(message) => reply is Some && reply->0 is Err && reply->0->Err_0@ == message,
            Ok(bytes) => match reply {
                None => options.output_type is Some && options.output_type->0@ == "base64"@ && (
                bytes.len() + 2) / 3 * 4 > isize::MAX,
                Some(Err(message)) => options.output_type is Some && message@
                    == "Unsupported output type: "@ + options.output_type->0@,
                Some(Ok(Output::Uint8Array(v))) => v@ == bytes && (options.output_type matches Some(
                    kind,
                ) ==> kind@ == "uint8array"@ || kind@ == "nodebuffer"@),
                Some(Ok(Output::ArrayBuffer(v))) => v@ == bytes && options.output_type is Some
                    && options.output_type->0@ == "arraybuffer"@,
                Some(Ok(Output::Array(v))) => v@ == bytes && options.output_type is Some
                    && options.output_type->0@ == "array"@,
                Some(Ok(Output::Blob(v, mime))) => v@ == bytes && options.output_type is Some
                    && options.output_type->0@ == "blob"@ && match options.mime_type {
                    Some(asked) => mime@ == asked@,
                    None => mime@ == "application/zip"@,
                },
                Some(Ok(Output::Text(s))) => options.output_type is Some && {
                    let kind = options.output_type->0@;
                    ||| kind == "base64"@ && s@ == base64_encoded(bytes) && base64_decoded(s@)
                        == Some(bytes)
                    ||| {
                        &&& kind == "string"@ || kind == "binarystring"@
                        &&& s@.len() == bytes.len()
                        &&& forall|i: int|
                            0 <= i < bytes.len() ==> (#[trigger] s@[i]) as u32 == bytes[i] as u32
                    }
                },
            },
        },
        options.compression is None <==> asked_of(options) is None,
        options.compression matches Some(c) ==> (asked_of(options) == Some(
            CompressionMethod::Deflate,
        ) <==> upper_case(c@) == "DEFLATE"@),
{
    if let Ok(bytes) = archive_result(m, asked_of(options)) {
        law_base64_limit(bytes.len());
        let kind = text_of(options.output_type);
        let mime = text_of(options.mime_type);
        if let Some(r) = reply {
            law_archive_forms(bytes, kind, mime, r);
            if let Ok(output) = r {
                law_archive_bytes(bytes, kind, mime, output);
            }
        }
    }
}

/// A listener is told of every entry of an archive that is made, and else of every entry before
/// which none fails, in the order in which they are written: how many are done, how many there
/// are, and the key of the entry.
pub proof fn law_listener<F: Fn(usize, usize, &String)>(
    f: F,
    m: Map<Seq<char>, EntryView>,
    asked: Option<CompressionMethod>,
    i: int,
)
    requires
        all_told(f, m, asked),
        archive_result(m, asked) is Ok || first_failure(m, archive_order(m), asked, i) is None,
        0 <= i < archive_order(m).len(),
    ensures
        exists|name: &String|
            name@ == archive_order(m)[i] && #[trigger] call_ensures(
                f,
                (i as usize, archive_order(m).len() as usize, name),
                (),
            ),
{
    let keys = archive_order(m);
    if first_failure(m, keys, asked, i) is Some {
        lemma_failure_stays(m, keys, asked, i, keys.len() as int);
    }
    assert(keys[i] == archive_order(m)[i]);
}

/// A table can be written where every key has at most 65535 bytes of UTF-8.
pub proof fn law_writable(m: Map<Seq<char>, EntryView>)
    ensures
        all_writable(m) <==> forall|k: Seq<char>| #[trigger]
            m.contains_key(k) ==> encode_utf8(k).len() <= 65535,
{
}

/// What was found in the place of a member, as it is handed over.
pub proof fn law_found_members(found: Result<FoundMember, String>)
    ensures
        match found {
            Err(cause) => found_view(found) == Err::<ReadMember, Seq<char>>(cause@),
            Ok(member) => found_view(found) is Ok && found_view(found)->Ok_0.name == member.name@
                && match member.content {
                Ok(data) => found_view(found)->Ok_0.content == Ok::<Seq<u8>, Seq<char>>(data@),
                Err(cause) => found_view(found)->Ok_0.content == Err::<Seq<u8>, Seq<char>>(cause@),
            },
        },
{
}

/// The message of a member that cannot be read: with its place in decimal where it cannot be
/// opened, and without where its content cannot be read. The content of a folder, which is what a
/// name that ends in a slash or backslash denotes, is not read.
pub proof fn law_member_failures(i: int, found: Result<ReadMember, Seq<char>>)
    ensures
        match found {
            Err(cause) => member_failure(i, found) == Some(
                "Failed to read file "@ + decimal(i as nat) + ": "@ + cause,
            ),
            Ok(member) => {
                let folder = member.name.len() > 0 && (member.name.last() == '/'
                    || member.name.last() == '\\');
                &&& folder || member.content is Ok ==> member_failure(i, found) is None
                &&& !folder && member.content is Err ==> member_failure(i, found) == Some(
                    "Failed to read content: "@ + member.content->Err_0,
                )
            },
        },
{
}

/// Reading members fails with the message of the first that cannot be read, and only then.
pub proof fn law_load_failure_is_first(members: Seq<Result<ReadMember, Seq<char>>>, end: int)
    ensures
        match load_failure(members, end) {
            None => forall|i: int|
                0 <= i < end ==> (#[trigger] member_failure(i, members[i])) is None,
            Some(message) => exists|i: int|
                0 <= i < end && load_failure(members, i) is None && #[trigger] member_failure(
                    i,
                    members[i],
                ) == Some(message),
        },
    decreases end,
{
    if end > 0 {
        law_load_failure_is_first(members, end - 1);
        assert(member_failure(end - 1, members[end - 1]) == member_failure(
            end - 1,
            members[end - 1],
        ));
    }
}

/// A member that no later one takes the place of is in the table under the safe form of its name:
/// a folder as an empty folder, a file with its content, and with its name on record exactly where
/// that is not the safe form.
pub proof fn law_loaded_member(
    a: Map<Seq<char>, EntryView>,
    b: Map<Seq<char>, EntryView>,
    members: Seq<Result<ReadMember, Seq<char>>>,
    create_folders: bool,
    i: int,
)
    requires
        is_loaded(a, b, members, create_folders),
        0 <= i < members.len(),
        members[i] is Ok,
        forall|j: int|
            i < j < members.len() ==> sanitized((#[trigger] members[j])->Ok_0.name) != sanitized(
                members[i]->Ok_0.name,
            ),
    ensures
        ({
            let member = members[i]->Ok_0;
            let key = sanitized(member.name);
            let e = b[key];
            let folder = member.name.len() > 0 && (member.name.last() == '/' || member.name.last()
                == '\\');
            &&& b.contains_key(key)
            &&& e.dir == folder
            &&& e.comment.len() == 0 && e.compression == CompressionMethod::Store
            &&& e.date is Some
            &&& folder ==> e.data is None && e.unsafe_original_name is None
            &&& !folder && member.content is Ok ==> e.data == Some(member.content->Ok_0)
            &&& !folder ==> e.name == key
            &&& !folder && member.name == key ==> e.unsafe_original_name is None
            &&& !folder && member.name != key ==> e.unsafe_original_name == Some(member.name)
        }),
{
    let n = members.len() as int;
    let key = sanitized(members[i]->Ok_0.name);
    assert(member_key(members[i]) == key);
    assert forall|j: int| i < j < n implies #[trigger] member_key(members[j]) != member_key(
        members[i],
    ) by {
        assert(sanitized(members[j]->Ok_0.name) != key);
    }
    assert(is_last_of_key(members, n, i));
    assert(has_member(members, n, key));
    if create_folders {
        let c = choose|c: Map<Seq<char>, EntryView>|
            members_added(a, c, members, n) && #[trigger] folders_added(c, b, all_parents(c));
        assert(c.contains_key(key));
    }
}

/// What was in the table is as it was, unless a member has taken its place; and nothing is added
/// but members and, where they are asked for, empty folders.
pub proof fn law_loaded_rest(
    a: Map<Seq<char>, EntryView>,
    b: Map<Seq<char>, EntryView>,
    members: Seq<Result<ReadMember, Seq<char>>>,
    create_folders: bool,
    k: Seq<char>,
)
    requires
        is_loaded(a, b, members, create_folders),
        forall|i: int|
            0 <= i < members.len() ==> sanitized((#[trigger] members[i])->Ok_0.name) != k,
    ensures
        a.contains_key(k) ==> b.contains_key(k) && b[k] == a[k],
        !a.contains_key(k) && b.contains_key(k) ==> create_folders && b[k].dir && b[k].data is None,
{
    let n = members.len() as int;
    if has_member(members, n, k) {
        let i = choose|i: int| 0 <= i < n && #[trigger] member_key(members[i]) == k;
        assert(sanitized(members[i]->Ok_0.name) != k);
    }
    if create_folders {
        let c = choose|c: Map<Seq<char>, EntryView>|
            members_added(a, c, members, n) && #[trigger] folders_added(c, b, all_parents(c));
        law_added_folders(c, b, all_parents(c), k);
    }
}

/// When an archive is read with the folders that keys lie in, every part of a key that ends in a
/// slash is in the table, whether the key is that of a file or of a folder, and whether it was
/// there before or came with the archive. This speaks of keys without an empty component.
pub proof fn law_loaded_folders(
    a: Map<Seq<char>, EntryView>,
    b: Map<Seq<char>, EntryView>,
    members: Seq<Result<ReadMember, Seq<char>>>,
    key: Seq<char>,
    n: int,
)
    requires
        is_loaded(a, b, members, true),
        b.contains_key(key),
        key.len() > 0 ==> key[0] != '/',
        forall|i: int| 0 <= i && i + 1 < key.len() && #[trigger] key[i] == '/' ==> key[i + 1]
            != '/',
        0 < n <= key.len(),
        key[n - 1] == '/',
    ensures
        b.contains_key(key.take(n)),
{
    let folder = key.take(n);
    law_parents_are_prefixes(key, folder);
    let c = choose|c: Map<Seq<char>, EntryView>|
        members_added(a, c, members, members.len() as int) && #[trigger] folders_added(
            c,
            b,
            all_parents(c),
        );
    if !c.contains_key(key) {
        let k = choose|k: Seq<char>| #[trigger]
            c.contains_key(k) && parent_folders(k).contains(key);
        law_parents_of_parents(k, key, folder);
        assert(all_parents(c).contains(folder));
    } else {
        assert(all_parents(c).contains(folder));
    }
}

/// The comment of an archive takes the place of the one before, unless the archive has none.
pub proof fn law_loaded_comment(before: Seq<char>, found: Seq<u8>)
    ensures
        found.len() == 0 ==> loaded_comment(before, found) == before,
        found.len() > 0 ==> loaded_comment(before, found) == utf8_lossy(found),
{
}

} // verus!
