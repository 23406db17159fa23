//! Writing the table out as a zip archive.
use crate::archive::{add_directory, finish, new_writer, start_file, write_content, ArchiveWriter};
use crate::archive::{finished, folder_failure, start_failure, write_failure};
use crate::archive::{folder_member, opened, read_back, started, with_data};
use crate::archive::{is_small, is_taken, reopens, stored_size};
use crate::archive::{writable_name, written_folder_name, writer_members, ReadMember, ZipMember};
use crate::archive::MAX_NAME_BYTES;
use crate::content::{archive_as, fits_base64, Output};
use crate::content::{archive_output, base64_limit, decodes_to, is_output, wants_base64};
use crate::entry::text_of;
use crate::entry::{fits, CompressionMethod, EntryView, ZipEntry};
use crate::error::ZiperError;
use crate::error::{io_message, zip_message};
use crate::files::ZipFiles;
use crate::jszip::JSZip;
use crate::options::asked_method;
use crate::options::{method_asked, GenerateOptions};
use crate::order::archive_places;
use crate::order::{archive_order, is_archive_order, keys_at};
use crate::text::{concat, same_text};
use vstd::prelude::*;
use vstd::utf8::encode_utf8;

verus! {

/// Whether every key of a table is short enough to be written.
pub open spec fn all_writable(m: Map<Seq<char>, EntryView>) -> bool {
    forall|k: Seq<char>| #[trigger] m.contains_key(k) ==> writable_name(k)
}

/// The method with which an entry is written: the one that was asked for, or its own.
pub open spec fn effective_method(
    asked: Option<CompressionMethod>,
    e: EntryView,
) -> CompressionMethod {
    match asked {
        Some(method) => method,
        None => e.compression,
    }
}

/// The content of an entry: nothing where it has none.
pub open spec fn content_bytes(e: EntryView) -> Seq<u8> {
    match e.data {
        Some(d) => d,
        None => Seq::<u8>::empty(),
    }
}

/// The member that an entry becomes.
pub open spec fn member_of(
    key: Seq<char>,
    e: EntryView,
    asked: Option<CompressionMethod>,
) -> ZipMember {
    if e.dir {
        folder_member(key)
    } else {
        with_data(started(key, effective_method(asked, e)), content_bytes(e))
    }
}

/// The message with which writing an entry after given members fails.
pub open spec fn entry_failure(
    before: Seq<ZipMember>,
    key: Seq<char>,
    e: EntryView,
    asked: Option<CompressionMethod>,
) -> Option<Seq<char>> {
    let method = effective_method(asked, e);
    if e.dir {
        match folder_failure(before, key) {
            Some(cause) => Some(zip_message(cause)),
            None => None,
        }
    } else {
        match start_failure(before, key, method) {
            Some(cause) => Some(zip_message(cause)),
            None => match write_failure(before.push(started(key, method)), content_bytes(e)) {
                Some(cause) => Some(io_message(cause)),
                None => None,
            },
        }
    }
}

/// The members that the entries under given keys become.
pub open spec fn members_of(
    m: Map<Seq<char>, EntryView>,
    keys: Seq<Seq<char>>,
    asked: Option<CompressionMethod>,
) -> Seq<ZipMember> {
    Seq::new(keys.len(), |i: int| member_of(keys[i], m[keys[i]], asked))
}

/// The message with which writing the entry at a place in the order fails, once those before it
/// have been written.
pub open spec fn failure_at(
    m: Map<Seq<char>, EntryView>,
    keys: Seq<Seq<char>>,
    asked: Option<CompressionMethod>,
    i: int,
) -> Option<Seq<char>> {
    entry_failure(members_of(m, keys.take(i), asked), keys[i], m[keys[i]], asked)
}

/// The message of the first failure among the entries before a place in the order; `None` where
/// all of them can be written.
pub open spec fn first_failure(
    m: Map<Seq<char>, EntryView>,
    keys: Seq<Seq<char>>,
    asked: Option<CompressionMethod>,
    end: int,
) -> Option<Seq<char>>
    decreases end,
{
    if end <= 0 {
        None
    } else {
        match first_failure(m, keys, asked, end - 1) {
            Some(message) => Some(message),
            None => failure_at(m, keys, asked, end - 1),
        }
    }
}

/// The bytes of the archive that a table is written as, or the message with which that fails:
/// the one of the first entry that cannot be written, or else of finishing the archive.
pub open spec fn archive_result(
    m: Map<Seq<char>, EntryView>,
    asked: Option<CompressionMethod>,
) -> Result<Seq<u8>, Seq<char>> {
    let keys = archive_order(m);
    match first_failure(m, keys, asked, keys.len() as int) {
        Some(message) => Err(message),
        None => match finished(members_of(m, keys, asked)) {
            Ok(bytes) => Ok(bytes),
            Err(cause) => Err("Zip finalize error: "@ + cause),
        },
    }
}

/// Whether no two members have the same name.
pub open spec fn distinct_names(members: Seq<ZipMember>) -> bool {
    forall|i: int, j: int|
        0 <= i < j < members.len() ==> (#[trigger] members[i]).name != (#[trigger] members[j]).name
}

/// Whether the bytes of an archive open to members that were written, and to no comment.
pub open spec fn opens_to(bytes: Seq<u8>, members: Seq<ZipMember>) -> bool {
    opened(bytes) == Ok::<(Seq<Result<ReadMember, Seq<char>>>, Seq<u8>), Seq<char>>(
        (read_back(members), Seq::<u8>::empty()),
    )
}

/// The compression method that options ask for.
pub open spec fn asked_of(options: GenerateOptions) -> Option<CompressionMethod> {
    asked_method(text_of(options.compression))
}

/// The members that a table is written as.
pub open spec fn table_members(
    m: Map<Seq<char>, EntryView>,
    options: GenerateOptions,
) -> Seq<ZipMember> {
    members_of(m, archive_order(m), asked_of(options))
}

/// Whether a reply is what writing a table out in its order gives: the message where the archive cannot be
/// made, and else its bytes in the form that is asked for. There is no reply only where base64 is
/// asked for and the archive is too large for it. An archive of distinct members that are stored
/// in a small archive is made, and the archive opens to what was written.
pub open spec fn generated(
    m: Map<Seq<char>, EntryView>,
    options: GenerateOptions,
    r: Option<Result<Output, String>>,
) -> bool {
    let kind = text_of(options.output_type);
    let members = table_members(m, options);
    &&& is_archive_order(archive_order(m), m)
    &&& match archive_result(m, asked_of(options)) {
        Err(message) => {
            &&& r matches Some(Err(text)) && text@ == message
            &&& !is_small(members) || !distinct_names(members)
        },
        Ok(bytes) => {
            &&& r is None <==> wants_base64(kind) && bytes.len() > base64_limit()
            &&& r matches Some(output) ==> is_output(
                output,
                archive_output(bytes, kind, text_of(options.mime_type)),
            ) && (wants_base64(kind) ==> decodes_to(output, bytes))
            &&& distinct_names(members)
            &&& is_small(members) ==> bytes.len() == stored_size(members)
            &&& reopens(members.len(), bytes) ==> opens_to(bytes, members)
        },
    }
}

/// Whether a listener has been told that a file is about to be written, and how many of how many
/// files are done.
pub open spec fn told<F: Fn(usize, usize, &String)>(
    f: F,
    done: int,
    total: int,
    key: Seq<char>,
) -> bool {
    exists|name: &String|
        name@ == key && #[trigger] call_ensures(f, (done as usize, total as usize, name), ())
}

/// Whether a listener has been told of every entry that is reached: of each one before which no
/// entry fails.
pub open spec fn all_told<F: Fn(usize, usize, &String)>(
    f: F,
    m: Map<Seq<char>, EntryView>,
    asked: Option<CompressionMethod>,
) -> bool {
    let keys = archive_order(m);
    forall|i: int|
        0 <= i < keys.len() && first_failure(m, keys, asked, i) is None ==> told(
            f,
            i,
            keys.len() as int,
            #[trigger] keys[i],
        )
}

/// Whether every key of a table is short enough to be written.
pub fn names_fit(files: &ZipFiles) -> (r: bool)
    requires
        files.wf(),
    ensures
        r == all_writable(files@),
{
    let n: usize = files.len();
    proof {
        files.lemma_order();
    }
    for i in 0..n
        invariant
            n == files.order().len(),
            forall|j: int| 0 <= j < i ==> writable_name(#[trigger] files.order()[j]),
            forall|k: Seq<char>| #[trigger] files@.contains_key(k) <==> files.order().contains(k),
    {
        if files.key_at(i).as_str().as_bytes().len() > MAX_NAME_BYTES {
            assert(files.order().contains(files.order()[i as int]));
            assert(files@.contains_key(files.order()[i as int]));
            return false;
        }
    }
    true
}

/// Writes one entry, after those that the writer holds.
fn write_entry(
    w: ArchiveWriter,
    key: &String,
    entry: &ZipEntry,
    asked: Option<CompressionMethod>,
) -> (r: Result<ArchiveWriter, String>)
    requires
        writable_name(key@),
        entry@.dir ==> writable_name(written_folder_name(key@)),
    ensures
        match r {
            Ok(v) => {
                &&& entry_failure(writer_members(w), key@, entry@, asked) is None
                &&& writer_members(v) == writer_members(w).push(member_of(key@, entry@, asked))
                &&& !is_taken(writer_members(w), member_of(key@, entry@, asked).name)
            },
            Err(message) => {
                &&& entry_failure(writer_members(w), key@, entry@, asked) == Some(message@)
                &&& is_taken(writer_members(w), member_of(key@, entry@, asked).name) || !is_small(
                    writer_members(w),
                ) || !is_small(writer_members(w).push(member_of(key@, entry@, asked)))
            },
        },
{
    let method = match asked {
        Some(method) => method,
        None => entry.compression,
    };
    if entry.dir {
        match add_directory(w, key, method) {
            Ok(v) => Ok(v),
            Err(cause) => Err(ZiperError::Zip(cause).message()),
        }
    } else {
        let data = entry.raw_data();
        match start_file(w, key, method) {
            Ok(v) => {
                let ghost before = writer_members(w);
                let ghost begun = writer_members(v);
                assert(begun.drop_last() =~= before);
                match write_content(v, &data) {
                    Ok(u) => Ok(u),
                    Err(cause) => Err(ZiperError::Io(cause).message()),
                }
            },
            Err(cause) => Err(ZiperError::Zip(cause).message()),
        }
    }
}

/// A folder of the table has a key that can be written with a separator at its end.
proof fn lemma_folder_name_fits(key: Seq<char>, e: EntryView)
    requires
        fits(key, e),
        e.dir,
        writable_name(key),
    ensures
        writable_name(written_folder_name(key)),
{
    if key.len() == 0 {
        assert(key.push('/') =~= seq!['/']);
        reveal_with_fuel(encode_utf8, 2);
        assert(seq!['/'].drop_first() =~= Seq::<char>::empty());
    }
}

proof fn lemma_small_part(members: Seq<ZipMember>, n: int)
    requires
        is_small(members),
        0 <= n <= members.len(),
    ensures
        is_small(members.take(n)),
    decreases members.len() - n,
{
    if n == members.len() {
        assert(members.take(n) =~= members);
    } else {
        lemma_small_part(members, n + 1);
        assert(members.take(n + 1).drop_last() =~= members.take(n));
    }
}

/// A failure among the first entries is the failure among more of them.
pub proof fn lemma_failure_stays(
    m: Map<Seq<char>, EntryView>,
    keys: Seq<Seq<char>>,
    asked: Option<CompressionMethod>,
    i: int,
    end: int,
)
    requires
        i <= end,
        first_failure(m, keys, asked, i) is Some,
    ensures
        first_failure(m, keys, asked, end) == first_failure(m, keys, asked, i),
    decreases end,
{
    if i < end && end > 0 {
        lemma_failure_stays(m, keys, asked, i, end - 1);
    }
}

/// Writes the entries of a table one after the other, folders first, and finishes the archive.
/// Before each entry the listener is told how far the work has come. The archive opens to what was
/// written.
pub fn write_archive<F: Fn(usize, usize, &String)>(
    files: &ZipFiles,
    asked: Option<CompressionMethod>,
    on_update: &Option<F>,
) -> (r: Result<Vec<u8>, String>)
    requires
        files.wf(),
        all_writable(files@),
        on_update matches Some(f) ==> forall|done: usize, total: usize, name: &String|
            call_requires(f, (done, total, name)),
    ensures
        match r {
            Ok(bytes) => {
                &&& archive_result(files@, asked) == Ok::<Seq<u8>, Seq<char>>(bytes@)
                &&& is_small(members_of(files@, archive_order(files@), asked)) ==> bytes@.len()
                    == stored_size(members_of(files@, archive_order(files@), asked))
                &&& distinct_names(members_of(files@, archive_order(files@), asked))
                &&& reopens(archive_order(files@).len(), bytes@) ==> opens_to(
                    bytes@,
                    members_of(files@, archive_order(files@), asked),
                )
            },
            Err(message) => {
                &&& archive_result(files@, asked) == Err::<Seq<u8>, Seq<char>>(message@)
                &&& !is_small(members_of(files@, archive_order(files@), asked)) || !distinct_names(
                    members_of(files@, archive_order(files@), asked),
                )
            },
        },
        is_archive_order(archive_order(files@), files@),
        on_update matches Some(f) ==> all_told(f, files@, asked),
{
    let places = archive_places(files);
    let ghost m = files@;
    let ghost keys = archive_order(m);
    let total: usize = files.len();
    let mut w = new_writer();
    assert(keys.len() == total);
    assert(writer_members(w) =~= members_of(m, keys.take(0), asked));
    for i in 0..total
        invariant
            files.wf(),
            all_writable(files@),
            m == files@,
            keys == archive_order(m),
            is_archive_order(keys, m),
            keys == keys_at(files.order(), places@),
            places@.len() == total == keys.len() == files.order().len(),
            forall|j: int| 0 <= j < places@.len() ==> #[trigger] places@[j] < files.order().len(),
            on_update matches Some(f) ==> forall|done: usize, total: usize, name: &String|
                call_requires(f, (done, total, name)),
            first_failure(m, keys, asked, i as int) is None,
            distinct_names(writer_members(w)),
            writer_members(w) == members_of(m, keys.take(i as int), asked),
            on_update matches Some(f) ==> forall|j: int|
                0 <= j < i ==> told(f, j, total as int, #[trigger] keys[j]),
    {
        let place: usize = places[i];
        let key = files.key_at(place);
        let entry = files.entry_at(place);
        assert(keys[i as int] == key@);
        if let Some(f) = on_update {
            f(i, total, key);
            assert(told(*f, i as int, total as int, keys[i as int]));
        }
        proof {
            if entry@.dir {
                lemma_folder_name_fits(key@, entry@);
            }
        }
        match write_entry(w, key, entry, asked) {
            Ok(v) => {
                w = v;
                assert(members_of(m, keys.take(i as int + 1), asked) =~= members_of(
                    m,
                    keys.take(i as int),
                    asked,
                ).push(member_of(key@, entry@, asked)));
            },
            Err(message) => {
                proof {
                    assert(first_failure(m, keys, asked, i as int + 1) == Some(message@));
                    assert forall|end: int| i < end implies first_failure(m, keys, asked, end)
                        == Some(message@) by {
                        lemma_failure_stays(m, keys, asked, i as int + 1, end);
                    }
                    let all = members_of(m, keys, asked);
                    let before = members_of(m, keys.take(i as int), asked);
                    assert(all.take(i as int) =~= before);
                    assert(all.take(i as int + 1) =~= before.push(
                        member_of(key@, entry@, asked),
                    ));
                    if is_small(all) {
                        lemma_small_part(all, i as int);
                        lemma_small_part(all, i as int + 1);
                    }
                    if is_taken(before, member_of(key@, entry@, asked).name) {
                        let j = choose|j: int|
                            0 <= j < before.len() && (#[trigger] before[j]).name == member_of(
                                key@,
                                entry@,
                                asked,
                            ).name;
                        assert(all[j] == before[j]);
                        assert(all[i as int].name == all[j].name);
                    }
                }
                return Err(message);
            },
        }
    }
    assert(keys.take(total as int) =~= keys);
    match finish(w) {
        Ok(bytes) => Ok(bytes),
        Err(cause) => Err(concat("Zip finalize error: ", &cause)),
    }
}

impl JSZip {
    /// Writes the table out as an archive, in the form that is asked for. `None` where base64 is
    /// asked for and the archive is too large to be held as such a text. Of an archive that is
    /// written in base64, the text decodes to its bytes.
    pub fn generate_async<F: Fn(usize, usize, &String)>(
        &self,
        files: &ZipFiles,
        options: &GenerateOptions,
        on_update: Option<F>,
    ) -> (r: Option<Result<Output, String>>)
        requires
            files.wf(),
            all_writable(files@),
            on_update matches Some(f) ==> forall|done: usize, total: usize, name: &String|
                call_requires(f, (done, total, name)),
        ensures
            generated(files@, *options, r),
            on_update matches Some(f) ==> all_told(f, files@, asked_of(*options)),
    {
        let asked = method_asked(&options.compression);
        let ghost kind = text_of(options.output_type);
        let bytes = match write_archive(files, asked, &on_update) {
            Ok(bytes) => bytes,
            Err(message) => {
                return Some(Err(message));
            },
        };
        let base64 = match &options.output_type {
            Some(kind) => same_text(kind, "base64"),
            None => false,
        };
        assert(base64 == wants_base64(kind));
        if base64 && !fits_base64(bytes.len()) {
            return None;
        }
        Some(archive_as(bytes, &options.output_type, &options.mime_type))
    }
}

} // verus!
