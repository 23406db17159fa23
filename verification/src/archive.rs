//! Zip archives in memory: writing one member after another, and reading back what is there.
use crate::entry::CompressionMethod;
use crate::path::denotes_folder;
use std::io::{Cursor, Read, Write};
use vstd::prelude::*;
use vstd::utf8::encode_utf8;

verus! {

/// A file or folder as it is put into an archive.
#[verifier::ext_equal]
pub struct ZipMember {
    pub name: Seq<char>,
    pub folder: bool,
    pub method: CompressionMethod,
    pub data: Seq<u8>,
}

/// A file or folder as it is found in an archive: its name, and its content or the text of the
/// error that reading the content ends in.
#[verifier::ext_equal]
pub struct ReadMember {
    pub name: Seq<char>,
    pub content: Result<Seq<u8>, Seq<char>>,
}

/// How many bytes of UTF-8 the name of a member may have.
pub const MAX_NAME_BYTES: usize = 65535;

/// Whether a name is short enough to be written.
pub open spec fn writable_name(name: Seq<char>) -> bool {
    encode_utf8(name).len() <= MAX_NAME_BYTES
}

/// The name under which a folder is written: with a separator at its end.
pub open spec fn written_folder_name(name: Seq<char>) -> Seq<char> {
    if denotes_folder(name) {
        name
    } else {
        name.push('/')
    }
}

/// The member that a file is when it has been started: still without content.
pub open spec fn started(name: Seq<char>, method: CompressionMethod) -> ZipMember {
    ZipMember { name, folder: false, method, data: Seq::<u8>::empty() }
}

/// The member that a folder is.
pub open spec fn folder_member(name: Seq<char>) -> ZipMember {
    ZipMember {
        name: written_folder_name(name),
        folder: true,
        method: CompressionMethod::Store,
        data: Seq::<u8>::empty(),
    }
}

/// A member with another content.
pub open spec fn with_data(m: ZipMember, data: Seq<u8>) -> ZipMember {
    ZipMember { data, ..m }
}

/// What is found in an archive when given members have been written to it.
pub open spec fn read_back(members: Seq<ZipMember>) -> Seq<Result<ReadMember, Seq<char>>> {
    Seq::new(
        members.len(),
        |i: int| Ok(ReadMember { name: members[i].name, content: Ok(members[i].data) }),
    )
}

/// Whether what stands before the end record of an archive looks like the record that leads to a
/// larger directory.
pub open spec fn has_locator(bytes: Seq<u8>) -> bool {
    bytes.len() >= 42 && bytes.subrange(bytes.len() - 42, bytes.len() - 38) == seq![
        0x50u8,
        0x4bu8,
        0x06u8,
        0x07u8,
    ]
}

/// Whether an archive of so many members opens to what was written: its size fits in 32 bits, and
/// where its number of members is the one that also marks larger archives, it does not look like
/// one.
pub open spec fn reopens(members: nat, bytes: Seq<u8>) -> bool {
    bytes.len() < 0xffff_ffff && (members == 0xffff ==> !has_locator(bytes))
}

/// What members that are stored as they are take in an archive: for each of them two headers, its
/// name twice and its content.
pub open spec fn members_size(members: Seq<ZipMember>) -> nat
    decreases members.len(),
{
    if members.len() == 0 {
        0
    } else {
        members_size(members.drop_last()) + 76 + 2 * encode_utf8(members.last().name).len()
            + members.last().data.len()
    }
}

/// The size of an archive whose members are stored as they are: what they take, and what stands
/// at its end.
pub open spec fn stored_size(members: Seq<ZipMember>) -> nat {
    members_size(members) + if members.len() > 0xffff {
        98nat
    } else {
        22nat
    }
}

/// Whether members are all stored as they are, and the size of their archive fits in 32 bits.
pub open spec fn is_small(members: Seq<ZipMember>) -> bool {
    &&& forall|i: int|
        0 <= i < members.len() ==> (#[trigger] members[i]).method == CompressionMethod::Store
    &&& stored_size(members) < 0xffff_ffff
}

/// Whether one of the members has a name.
pub open spec fn is_taken(members: Seq<ZipMember>, name: Seq<char>) -> bool {
    exists|i: int| 0 <= i < members.len() && (#[trigger] members[i]).name == name
}

/// The text of the error with which `zip::ZipWriter::start_file` refuses a file after given
/// members; `None` where it accepts it.
pub uninterp spec fn start_failure(
    before: Seq<ZipMember>,
    name: Seq<char>,
    method: CompressionMethod,
) -> Option<Seq<char>>;

/// The text of the error with which writing a content to a `zip::ZipWriter` ends, where the
/// last of the given members is the file that has just been started; `None` where it does not.
pub uninterp spec fn write_failure(before: Seq<ZipMember>, data: Seq<u8>) -> Option<Seq<char>>;

/// The text of the error with which `zip::ZipWriter::add_directory` refuses a folder after given
/// members; `None` where it accepts it.
pub uninterp spec fn folder_failure(before: Seq<ZipMember>, name: Seq<char>) -> Option<Seq<char>>;

/// What `zip::ZipWriter::finish` makes of given members: the bytes of the archive, or the text
/// of an error.
pub uninterp spec fn finished(members: Seq<ZipMember>) -> Result<Seq<u8>, Seq<char>>;

/// What `zip::ZipArchive::new` finds in given bytes: the members, each with the text of an error
/// in its place where it cannot be opened, and the comment of the archive; or the text of an
/// error.
pub uninterp spec fn opened(bytes: Seq<u8>) -> Result<
    (Seq<Result<ReadMember, Seq<char>>>, Seq<u8>),
    Seq<char>,
>;

/// A `zip::ZipWriter` that writes to memory. It is held here as its declaration would need the
/// traits that bound its parameter.
#[verifier::external_body]
pub struct ArchiveWriter {
    inner: zip::ZipWriter<Cursor<Vec<u8>>>,
}

/// The members that a writer holds, in the order in which they were written.
pub uninterp spec fn writer_members(w: ArchiveWriter) -> Seq<ZipMember>;

/// Calls `zip::ZipWriter::new` on an empty buffer. Claimed: the writer holds no member.
#[verifier::external_body]
pub(crate) fn new_writer() -> (w: ArchiveWriter)
    ensures
        writer_members(w) == Seq::<ZipMember>::empty(),
{
    ArchiveWriter { inner: zip::ZipWriter::new(Cursor::new(Vec::new())) }
}

/// Calls `zip::ZipWriter::start_file` with the default options and a compression method. The
/// function panics where the name has more bytes than the format has room for. Claimed: whether
/// and with which text the file is refused depends on the members that are there, the name and
/// the method; a file that is accepted is the last member, still empty, and no member before it
/// has its name; and where no member has its name, it is accepted after members that are stored
/// in a small archive.
#[verifier::external_body]
pub(crate) fn start_file(w: ArchiveWriter, name: &String, method: CompressionMethod) -> (r: Result<
    ArchiveWriter,
    String,
>)
    requires
        writable_name(name@),
    ensures
        match r {
            Ok(v) => {
                &&& start_failure(writer_members(w), name@, method) is None
                &&& writer_members(v) == writer_members(w).push(started(name@, method))
                &&& !is_taken(writer_members(w), name@)
            },
            Err(e) => {
                &&& start_failure(writer_members(w), name@, method) == Some(e@)
                &&& is_taken(writer_members(w), name@) || !is_small(writer_members(w))
            },
        },
{
    let kind = match method {
        CompressionMethod::Store => zip::CompressionMethod::Stored,
        CompressionMethod::Deflate => zip::CompressionMethod::Deflated,
    };
    let options = zip::write::SimpleFileOptions::default().compression_method(kind);
    let mut writer = w;
    match writer.inner.start_file(name.clone(), options) {
        Ok(()) => Ok(writer),
        Err(e) => Err(e.to_string()),
    }
}

/// Calls `std::io::Write::write_all` on a `zip::ZipWriter` whose last member is a file that has
/// just been started. Claimed: whether and with which text this fails depends on the members and
/// the content; where it does not, the content is that of the last member; and it does not where
/// all members, with that content, are stored in a small archive.
#[verifier::external_body]
pub(crate) fn write_content(w: ArchiveWriter, data: &Vec<u8>) -> (r: Result<ArchiveWriter, String>)
    requires
        writer_members(w).len() > 0,
        !writer_members(w).last().folder,
        writer_members(w).last().data.len() == 0,
    ensures
        match r {
            Ok(v) => {
                &&& write_failure(writer_members(w), data@) is None
                &&& writer_members(v) == writer_members(w).drop_last().push(
                    with_data(writer_members(w).last(), data@),
                )
            },
            Err(e) => {
                &&& write_failure(writer_members(w), data@) == Some(e@)
                &&& !is_small(
                    writer_members(w).drop_last().push(with_data(writer_members(w).last(), data@)),
                )
            },
        },
{
    let mut writer = w;
    match writer.inner.write_all(data) {
        Ok(()) => Ok(writer),
        Err(e) => Err(e.to_string()),
    }
}

/// Calls `zip::ZipWriter::add_directory` with the default options and a compression method,
/// which plays no part for a folder. The function panics where the name has more bytes than the
/// format has room for. Claimed: whether and with which text the folder is refused depends on
/// the members that are there and the name; a folder that is accepted is the last member, under
/// its name with a separator at the end, and no member before it has that name; and where no
/// member has that name, it is accepted after members that are stored in a small archive.
#[verifier::external_body]
pub(crate) fn add_directory(
    w: ArchiveWriter,
    name: &String,
    method: CompressionMethod,
) -> (r: Result<ArchiveWriter, String>)
    requires
        writable_name(written_folder_name(name@)),
    ensures
        match r {
            Ok(v) => {
                &&& folder_failure(writer_members(w), name@) is None
                &&& writer_members(v) == writer_members(w).push(folder_member(name@))
                &&& !is_taken(writer_members(w), written_folder_name(name@))
            },
            Err(e) => {
                &&& folder_failure(writer_members(w), name@) == Some(e@)
                &&& is_taken(writer_members(w), written_folder_name(name@)) || !is_small(
                    writer_members(w),
                )
            },
        },
{
    let kind = match method {
        CompressionMethod::Store => zip::CompressionMethod::Stored,
        CompressionMethod::Deflate => zip::CompressionMethod::Deflated,
    };
    let options = zip::write::SimpleFileOptions::default().compression_method(kind);
    let mut writer = w;
    match writer.inner.add_directory(name.clone(), options) {
        Ok(()) => Ok(writer),
        Err(e) => Err(e.to_string()),
    }
}

/// Calls `zip::ZipWriter::finish`. Claimed: the bytes, or the text of the error, depend on the
/// members alone; and `zip::ZipArchive` finds in the bytes of an archive whose size fits in 32 bits
/// the members that were written, in their order and with their contents, and no comment. Members
/// that are stored in a small archive give bytes, as many as the headers, names and contents take.
/// Nothing is claimed of what is found in a larger archive, nor of the size of one with a deflated
/// member; and nothing of what is found in one of 65535 members whose last bytes before the end
/// record would be taken for another record.
#[verifier::external_body]
pub(crate) fn finish(w: ArchiveWriter) -> (r: Result<Vec<u8>, String>)
    ensures
        match r {
            Ok(bytes) => {
                &&& finished(writer_members(w)) == Ok::<Seq<u8>, Seq<char>>(bytes@)
                &&& reopens(writer_members(w).len(), bytes@) ==> opened(bytes@) == Ok::<
                    (Seq<Result<ReadMember, Seq<char>>>, Seq<u8>),
                    Seq<char>,
                >((read_back(writer_members(w)), Seq::<u8>::empty()))
                &&& is_small(writer_members(w)) ==> bytes@.len() == stored_size(writer_members(w))
            },
            Err(e) => {
                &&& finished(writer_members(w)) == Err::<Seq<u8>, Seq<char>>(e@)
                &&& !is_small(writer_members(w))
            },
        },
{
    match w.inner.finish() {
        Ok(cursor) => Ok(cursor.into_inner()),
        Err(e) => Err(e.to_string()),
    }
}

/// `std::io::Cursor`, a position in a buffer.
#[verifier::external_type_specification]
#[verifier::external_body]
#[verifier::reject_recursive_types(T)]
pub struct ExCursor<T>(Cursor<T>);

/// `zip::ZipArchive`, an archive that has been opened.
#[verifier::external_type_specification]
#[verifier::external_body]
#[verifier::reject_recursive_types(R)]
pub struct ExZipArchive<R>(zip::ZipArchive<R>);

/// The members of an open archive, each with the text of an error in its place where it cannot
/// be opened.
pub uninterp spec fn archive_members(a: zip::ZipArchive<Cursor<Vec<u8>>>) -> Seq<
    Result<ReadMember, Seq<char>>,
>;

/// The comment of an open archive.
pub uninterp spec fn archive_comment(a: zip::ZipArchive<Cursor<Vec<u8>>>) -> Seq<u8>;

/// Calls `zip::ZipArchive::new` on bytes in memory. Claimed: what is found, or the text of the
/// error, depends on the bytes alone.
#[verifier::external_body]
pub(crate) fn open_archive(bytes: Vec<u8>) -> (r: Result<zip::ZipArchive<Cursor<Vec<u8>>>, String>)
    ensures
        match r {
            Ok(a) => opened(bytes@) == Ok::<
                (Seq<Result<ReadMember, Seq<char>>>, Seq<u8>),
                Seq<char>,
            >((archive_members(a), archive_comment(a))),
            Err(e) => opened(bytes@) == Err::<
                (Seq<Result<ReadMember, Seq<char>>>, Seq<u8>),
                Seq<char>,
            >(e@),
        },
{
    match zip::ZipArchive::new(Cursor::new(bytes)) {
        Ok(a) => Ok(a),
        Err(e) => Err(e.to_string()),
    }
}

/// Calls `zip::ZipArchive::len`. Claimed: it is the number of members.
#[verifier::external_body]
pub(crate) fn archive_len(a: &zip::ZipArchive<Cursor<Vec<u8>>>) -> (r: usize)
    ensures
        r == archive_members(*a).len(),
{
    a.len()
}

/// Calls `zip::ZipArchive::comment`. Claimed: it is the comment that was found on opening.
#[verifier::external_body]
pub(crate) fn comment_bytes(a: &zip::ZipArchive<Cursor<Vec<u8>>>) -> (r: Vec<u8>)
    ensures
        r@ == archive_comment(*a),
{
    a.comment().to_vec()
}

/// Calls `zip::ZipArchive::by_index` and, on the member that comes back, `zip::read::ZipFile::name`
/// and `zip::read::ZipFile::is_dir`. Claimed: the archive stays as it is; the name is that of the
/// member, which is a folder where its name ends in a slash or backslash; or the text is that of
/// the error which stands in its place.
#[verifier::external_body]
pub(crate) fn member_head(a: &mut zip::ZipArchive<Cursor<Vec<u8>>>, i: usize) -> (r: Result<
    (String, bool),
    String,
>)
    requires
        i < archive_members(*old(a)).len(),
    ensures
        archive_members(*final(a)) == archive_members(*old(a)),
        archive_comment(*final(a)) == archive_comment(*old(a)),
        match r {
            Ok((name, folder)) => {
                &&& archive_members(*old(a))[i as int] is Ok
                &&& archive_members(*old(a))[i as int]->Ok_0.name == name@
                &&& folder == denotes_folder(name@)
            },
            Err(e) => archive_members(*old(a))[i as int] == Err::<ReadMember, Seq<char>>(e@),
        },
{
    match a.by_index(i) {
        Ok(file) => Ok((file.name().to_string(), file.is_dir())),
        Err(e) => Err(e.to_string()),
    }
}

/// Calls `zip::ZipArchive::by_index` for a member that can be opened, and
/// `std::io::Read::read_to_end` on what comes back. Claimed: the archive stays as it is, and the
/// bytes, or the text of the error, are the content of the member.
#[verifier::external_body]
pub(crate) fn member_content(a: &mut zip::ZipArchive<Cursor<Vec<u8>>>, i: usize) -> (r: Result<
    Vec<u8>,
    String,
>)
    requires
        i < archive_members(*old(a)).len(),
        archive_members(*old(a))[i as int] is Ok,
    ensures
        archive_members(*final(a)) == archive_members(*old(a)),
        archive_comment(*final(a)) == archive_comment(*old(a)),
        match r {
            Ok(data) => archive_members(*old(a))[i as int]->Ok_0.content == Ok::<
                Seq<u8>,
                Seq<char>,
            >(data@),
            Err(e) => archive_members(*old(a))[i as int]->Ok_0.content == Err::<
                Seq<u8>,
                Seq<char>,
            >(e@),
        },
{
    let mut content = Vec::new();
    match a.by_index(i) {
        Ok(mut file) => match file.read_to_end(&mut content) {
            Ok(_) => Ok(content),
            Err(e) => Err(e.to_string()),
        },
        Err(e) => Err(e.to_string()),
    }
}

} // verus!
