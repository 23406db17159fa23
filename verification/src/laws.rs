//! What holds of the archive as a whole: of the table when files and folders come and go, and of
//! what is written out and read back.
use crate::archive::{is_small, opened, read_back, reopens, stored_size};
use crate::archive::{ReadMember, ZipMember};
use crate::content::{base64_decoded, content_of, decodes_to, is_output, reads_as_text};
use crate::content::{archive_output, numbers, JsData, Output};
use crate::entry::{folder_name, EntryView};
use crate::files::ZipFiles;
use crate::files::{all_fit, without_tree};
use crate::generate::{archive_result, asked_of, distinct_names, generated, opens_to};
use crate::generate::table_members;
use crate::jszip::{file_added, folders_added};
use crate::listing::{are_matches, found_by, listing, object_views, picked, tested};
use crate::load::{all_parents, has_member, is_last_of_key, is_loaded, is_member_entry};
use crate::load::{load_failure, member_key, members_added};
use crate::object::ZipObject;
use crate::object::{full_object, listed_object, ObjectView};
use crate::options::FileOptions;
use crate::options::GenerateOptions;
use crate::order::lemma_text_less_asymmetric;
use crate::order::{archive_order, is_archive_order, rank_before, rank_of, text_less};
use crate::path::{denotes_folder, kept, parent_folders, sanitized, split};
use crate::path_laws::is_safe;
use crate::path_laws::{law_parents_are_safe, law_safe_keys, law_sanitized_is_safe};
use crate::text::{ends_in, occurrences};
use vstd::prelude::*;
use vstd::utf8::encode_utf8;

verus! {

/// A file that was put in is found under its key with its content, and every other entry is as
/// it was.
pub proof fn law_set_then_get(
    a: Map<Seq<char>, EntryView>,
    b: Map<Seq<char>, EntryView>,
    key: Seq<char>,
    data: Seq<u8>,
    options: FileOptions,
)
    requires
        file_added(a, b, key, data, options),
    ensures
        b.contains_key(key),
        full_object(b[key]).name == key,
        full_object(b[key]).content() == data,
        !full_object(b[key]).dir,
        forall|k: Seq<char>| k != key && #[trigger] a.contains_key(k) ==> b.contains_key(k) && b[k]
            == a[k],
{
    let with_file = a.insert(key, b[key]);
    assert(with_file.contains_key(key));
    assert forall|k: Seq<char>| k != key && #[trigger] a.contains_key(k) implies b.contains_key(k)
        && b[k] == a[k] by {
        assert(with_file.contains_key(k));
    }
}

/// When something is taken out, neither it nor anything that lies in it is left, and all else is
/// as it was.
pub proof fn law_remove(m: Map<Seq<char>, EntryView>, key: Seq<char>, k: Seq<char>)
    ensures
        ({
            let left = without_tree(m, key, folder_name(key));
            &&& !left.contains_key(key)
            &&& folder_name(key).is_prefix_of(k) ==> !left.contains_key(k)
            &&& k != key && !folder_name(key).is_prefix_of(k) ==> (left.contains_key(k)
                <==> m.contains_key(k))
            &&& left.contains_key(k) ==> left[k] == m[k]
        }),
{
}

/// Taking something out a second time changes nothing.
pub proof fn law_remove_twice(m: Map<Seq<char>, EntryView>, key: Seq<char>)
    ensures
        without_tree(without_tree(m, key, folder_name(key)), key, folder_name(key))
            == without_tree(m, key, folder_name(key)),
{
    let left = without_tree(m, key, folder_name(key));
    let twice = without_tree(left, key, folder_name(key));
    assert(twice.dom() =~= left.dom());
    assert(twice =~= left);
}

/// Folders that were added are there, and all that was there is as it was.
pub proof fn law_folders_added(
    a: Map<Seq<char>, EntryView>,
    b: Map<Seq<char>, EntryView>,
    folders: Set<Seq<char>>,
)
    requires
        folders_added(a, b, folders),
    ensures
        forall|f: Seq<char>| #[trigger] folders.contains(f) ==> b.contains_key(f),
        forall|k: Seq<char>| #[trigger] a.contains_key(k) ==> b.contains_key(k) && b[k] == a[k],
{
}

/// Adding the same folders a second time changes nothing.
pub proof fn law_folders_added_twice(
    a: Map<Seq<char>, EntryView>,
    b: Map<Seq<char>, EntryView>,
    c: Map<Seq<char>, EntryView>,
    folders: Set<Seq<char>>,
)
    requires
        folders_added(a, b, folders),
        folders_added(b, c, folders),
    ensures
        c == b,
{
    assert forall|k: Seq<char>| #[trigger] c.contains_key(k) <==> b.contains_key(k) by {}
    assert(c.dom() =~= b.dom());
    assert(c =~= b);
}

/// All folders that a file lies in are there after it was put in with them.
pub proof fn law_parents_present(
    a: Map<Seq<char>, EntryView>,
    b: Map<Seq<char>, EntryView>,
    key: Seq<char>,
    data: Seq<u8>,
    options: FileOptions,
    folder: Seq<char>,
)
    requires
        options.create_folders == Some(true),
        file_added(a, b, key, data, options),
        parent_folders(key).contains(folder),
    ensures
        b.contains_key(folder),
{
}

/// Folders are written before files.
pub proof fn law_folders_first(m: Map<Seq<char>, EntryView>, order: Seq<Seq<char>>, i: int, j: int)
    requires
        is_archive_order(order, m),
        0 <= i < j < order.len(),
        m[order[j]].dir,
    ensures
        m[order[i]].dir,
{
}

proof fn lemma_occurrences_append(a: Seq<char>, b: Seq<char>, c: char)
    ensures
        occurrences(a + b, c) == occurrences(a, c) + occurrences(b, c),
    decreases b.len(),
{
    if b.len() == 0 {
        assert(a + b =~= a);
    } else {
        assert((a + b).drop_last() =~= a + b.drop_last());
        lemma_occurrences_append(a, b.drop_last(), c);
    }
}

/// A folder is written before everything that lies in it.
pub proof fn law_folder_before_contents(
    m: Map<Seq<char>, EntryView>,
    order: Seq<Seq<char>>,
    i: int,
    j: int,
)
    requires
        all_fit(m),
        is_archive_order(order, m),
        0 <= i < order.len(),
        0 <= j < order.len(),
        m[order[i]].dir,
        order[i] != order[j],
        order[i].is_prefix_of(order[j]),
    ensures
        i < j,
{
    let outer = order[i];
    let inner = order[j];
    assert(order.contains(outer) && order.contains(inner));
    assert(m.contains_key(outer) && m.contains_key(inner));
    if j < i {
        let rest = inner.skip(outer.len() as int);
        assert(inner =~= outer + rest);
        lemma_occurrences_append(outer, rest, '/');
        assert(m[inner].dir);
        assert(rest.len() > 0) by {
            if rest.len() == 0 {
                assert(inner =~= outer);
            }
        }
        assert(ends_in(inner, '/'));
        assert(rest.last() == '/');
        assert(occurrences(rest, '/') > 0);
    }
}

/// The bytes of an archive that were handed out are the same bytes when they are handed back in:
/// as they are, as what a blob holds, as an array, or as base64.
pub proof fn law_output_is_input(
    bytes: Seq<u8>,
    kind: Option<Seq<char>>,
    mime: Option<Seq<char>>,
    output: Output,
    value: JsData,
)
    requires
        is_output(Ok(output), archive_output(bytes, kind, mime)),
        match (output, value) {
            (Output::Uint8Array(v), JsData::Uint8Array(w)) => v@ == w@,
            (Output::ArrayBuffer(v), JsData::ArrayBuffer(w)) => v@ == w@,
            (Output::Blob(v, _), JsData::Uint8Array(w)) => v@ == w@,
            (Output::Blob(v, _), JsData::ArrayBuffer(w)) => v@ == w@,
            (Output::Array(v), JsData::Array(w)) => w@ == v@.map_values(|b: u8| Some(b)),
            (Output::Text(s), JsData::Text(t)) => s@ == t@ && decodes_to(Ok(output), bytes),
            _ => false,
        },
    ensures
        content_of(value) == Ok::<Seq<u8>, Seq<char>>(bytes),
{
    if let JsData::Array(w) = value {
        lemma_numbers(bytes);
    }
}

proof fn lemma_numbers(bytes: Seq<u8>)
    ensures
        numbers(bytes.map_values(|b: u8| Some(b))) == bytes,
    decreases bytes.len(),
{
    let all = bytes.map_values(|b: u8| Some(b));
    if bytes.len() > 0 {
        lemma_numbers(bytes.drop_last());
        assert(all.drop_last() =~= bytes.drop_last().map_values(|b: u8| Some(b)));
        assert(bytes.drop_last().push(bytes.last()) =~= bytes);
    }
}

/// A text that is no base64 is read as the same text when its content is asked for as one.
pub proof fn law_text_is_text(text: String, data: Seq<u8>, output: Output)
    requires
        base64_decoded(text@) is None,
        content_of(JsData::Text(text)) == Ok::<Seq<u8>, Seq<char>>(data),
        reads_as_text(Ok(output), data),
    ensures
        output matches Output::Text(s) && s@ == text@,
{
    assert(data == encode_utf8(text@));
}

/// Two entries of a table are written under different names, except that a folder under the empty
/// key is written under the name `/`, and there may be a key `/` too.
pub proof fn law_written_names_distinct(m: Map<Seq<char>, EntryView>, options: GenerateOptions)
    requires
        all_fit(m),
        is_archive_order(archive_order(m), m),
        !(m.contains_key(seq![]) && m[seq![]].dir && m.contains_key(seq!['/'])),
    ensures
        distinct_names(table_members(m, options)),
{
    let order = archive_order(m);
    let members = table_members(m, options);
    let empty = Seq::<char>::empty();
    assert(empty.push('/') =~= seq!['/']);
    assert forall|i: int, j: int| 0 <= i < j < members.len() implies (#[trigger] members[i]).name
        != (#[trigger] members[j]).name by {
        assert(order.contains(order[i]) && order.contains(order[j]));
        assert(m.contains_key(order[i]) && m.contains_key(order[j]));
        if order[i] == order[j] {
            assert(text_less(order[i], order[j]));
            lemma_text_less_asymmetric(order[i], order[j]);
        }
        if order[i].len() == 0 {
            assert(order[i] =~= seq![]);
        }
        if order[j].len() == 0 {
            assert(order[j] =~= seq![]);
        }
    }
}

/// A table whose entries are written under different names, and are all stored in a small archive,
/// is written without failure, and what was written can be read from the archive.
pub proof fn law_small_archives_succeed(
    m: Map<Seq<char>, EntryView>,
    options: GenerateOptions,
    reply: Option<Result<Output, String>>,
)
    requires
        generated(m, options, reply),
        distinct_names(table_members(m, options)),
        is_small(table_members(m, options)),
    ensures
        archive_result(m, asked_of(options)) matches Ok(bytes) && {
            let members = table_members(m, options);
            &&& bytes.len() == stored_size(members)
            &&& reopens(members.len(), bytes) ==> opens_to(bytes, members) && load_failure(
                opened(bytes)->Ok_0.0,
                members.len() as int,
            ) is None
        },
{
    law_written_is_readable(table_members(m, options));
}

/// What a pattern finds among the folders are folders of the table whose keys match it.
pub proof fn law_patterns_find_folders<F: Fn(&String) -> bool>(
    regex: F,
    files: ZipFiles,
    found: Seq<ZipObject>,
    i: int,
)
    requires
        found_by(regex, files, true, found),
        0 <= i < found.len(),
    ensures
        exists|k: Seq<char>|
            files@.contains_key(k) && files@[k].dir && #[trigger] tested(regex, k, true)
                && found[i]@ == listed_object(k, files@[k]),
{
    let keys = files.order();
    let list = listing(files@, keys);
    let picks = choose|picks: Seq<bool>|
        picks.len() == keys.len() && #[trigger] are_matches(regex, files@, keys, true, picks)
            && object_views(found) == picked(list, picks);
    assert(object_views(found)[i] == found[i]@);
    let j = lemma_picked_from(list, picks, i);
    assert(picks[j]);
    files.lemma_order();
    assert(keys.contains(keys[j]));
    assert(tested(regex, keys[j], true));
}

proof fn lemma_picked_from(list: Seq<ObjectView>, picks: Seq<bool>, i: int) -> (j: int)
    requires
        0 <= i < picked(list, picks).len(),
        picks.len() <= list.len(),
    ensures
        0 <= j < picks.len(),
        picks[j],
        list[j] == picked(list, picks)[i],
    decreases picks.len(),
{
    let less = picks.drop_last();
    if i < picked(list, less).len() {
        lemma_picked_from(list, less, i)
    } else {
        picks.len() - 1
    }
}

/// Every key that reading an archive brings into the table is safe: it does not lead out of the
/// folder that it is put in. Where the folders that keys lie in are made too, the keys that were
/// there have to be safe for that.
pub proof fn law_loaded_keys_are_safe(
    a: Map<Seq<char>, EntryView>,
    b: Map<Seq<char>, EntryView>,
    members: Seq<Result<ReadMember, Seq<char>>>,
    create_folders: bool,
    key: Seq<char>,
)
    requires
        is_loaded(a, b, members, create_folders),
        create_folders ==> forall|k: Seq<char>| #[trigger] a.contains_key(k) ==> is_safe(k),
        b.contains_key(key),
        !a.contains_key(key),
    ensures
        is_safe(key),
{
    let n = members.len() as int;
    if create_folders {
        let c = choose|c: Map<Seq<char>, EntryView>|
            members_added(a, c, members, n) && #[trigger] folders_added(c, b, all_parents(c));
        assert forall|k: Seq<char>| #[trigger] c.contains_key(k) implies is_safe(k) by {
            if !a.contains_key(k) {
                lemma_member_key_safe(members, n, k);
            }
        }
        if !c.contains_key(key) {
            let k = choose|k: Seq<char>| #[trigger]
                c.contains_key(k) && parent_folders(k).contains(key);
            law_parents_are_safe(k, key);
        }
    } else {
        lemma_member_key_safe(members, n, key);
    }
}

proof fn lemma_member_key_safe(
    members: Seq<Result<ReadMember, Seq<char>>>,
    end: int,
    key: Seq<char>,
)
    requires
        has_member(members, end, key),
    ensures
        is_safe(key),
{
    let i = choose|i: int| 0 <= i < end && #[trigger] member_key(members[i]) == key;
    law_sanitized_is_safe(members[i]->Ok_0.name);
}

/// Everything that was written can be read.
pub proof fn law_written_is_readable(members: Seq<ZipMember>)
    ensures
        load_failure(read_back(members), members.len() as int) is None,
{
    lemma_readable_upto(members, members.len() as int);
}

proof fn lemma_readable_upto(members: Seq<ZipMember>, n: int)
    requires
        n <= members.len(),
    ensures
        load_failure(read_back(members), n) is None,
    decreases n,
{
    if n > 0 {
        lemma_readable_upto(members, n - 1);
    }
}

/// Whether a key comes back under itself when the table is written and read: it is safe, and a
/// file under it has no name that denotes a folder.
pub open spec fn survives(m: Map<Seq<char>, EntryView>, key: Seq<char>) -> bool {
    is_safe(key) && (m[key].dir || !denotes_folder(key))
}

/// Whether an entry has the name and content of another, and is a folder where that is one.
pub open spec fn same_content(a: EntryView, b: EntryView) -> bool {
    a.name == b.name && a.dir == b.dir && a.data == b.data
}

proof fn lemma_written_key(
    m: Map<Seq<char>, EntryView>,
    options: GenerateOptions,
    order: Seq<Seq<char>>,
    i: int,
)
    requires
        all_fit(m),
        order == archive_order(m),
        is_archive_order(order, m),
        0 <= i < order.len(),
    ensures
        member_key(read_back(table_members(m, options))[i]) == sanitized(order[i]),
{
    let key = order[i];
    assert(order.contains(key));
    assert(m.contains_key(key));
    if m[key].dir && key.len() == 0 {
        let slash = seq!['/'];
        assert(key.push('/') =~= slash);
        assert(key =~= Seq::<char>::empty());
        reveal_with_fuel(split, 2);
        reveal_with_fuel(kept, 3);
        assert(slash.drop_last() =~= key);
        let parts = split(slash, true);
        assert(parts =~= seq![key, key]);
        assert(parts.drop_last() =~= seq![key]);
        assert(seq![key].drop_last() =~= Seq::<Seq<char>>::empty());
        assert(sanitized(slash) =~= key);
        assert(sanitized(key) =~= key);
    }
}

/// What is written to an archive is there again when the archive is read: a file with its name
/// and content, a folder as a folder, whatever table it is read into and whether or not parent
/// folders are made. This holds of each key that comes back under itself and whose place in the
/// archive is not taken by a later key with the same safe form.
pub proof fn law_round_trip(
    m: Map<Seq<char>, EntryView>,
    options: GenerateOptions,
    reply: Option<Result<Output, String>>,
    bytes: Seq<u8>,
    a: Map<Seq<char>, EntryView>,
    b: Map<Seq<char>, EntryView>,
    create_folders: bool,
    key: Seq<char>,
)
    requires
        all_fit(m),
        generated(m, options, reply),
        archive_result(m, asked_of(options)) == Ok::<Seq<u8>, Seq<char>>(bytes),
        reopens(table_members(m, options).len(), bytes),
        is_loaded(a, b, opened(bytes)->Ok_0.0, create_folders),
        m.contains_key(key),
        survives(m, key),
        forall|k: Seq<char>| #[trigger]
            m.contains_key(k) && rank_before(rank_of(m, key), rank_of(m, k)) ==> sanitized(k)
                != key,
    ensures
        b.contains_key(key),
        same_content(b[key], m[key]),
{
    let order = archive_order(m);
    let members = read_back(table_members(m, options));
    let n = members.len() as int;
    assert(opened(bytes)->Ok_0.0 == members);
    assert(order.contains(key));
    let i = order.index_of(key);
    assert(order[i] == key);
    law_safe_keys(key);
    lemma_written_key(m, options, order, i);
    assert(member_key(members[i]) == key);
    assert forall|j: int| i < j < n implies #[trigger] member_key(members[j]) != member_key(
        members[i],
    ) by {
        lemma_written_key(m, options, order, j);
        assert(order.contains(order[j]));
        assert(m.contains_key(order[j]));
    }
    assert(is_last_of_key(members, n, i));
    assert(has_member(members, n, key));
    if create_folders {
        let c = choose|c: Map<Seq<char>, EntryView>|
            members_added(a, c, members, n) && #[trigger] folders_added(c, b, all_parents(c));
        assert(c.contains_key(key));
        assert(is_member_entry(c[key], members[i]));
    } else {
        assert(is_member_entry(b[key], members[i]));
    }
}

/// A table whose keys all come back under themselves is the same table when it is written and
/// read into an empty one: the same keys, and under each the same name and content.
pub proof fn law_round_trip_whole(
    m: Map<Seq<char>, EntryView>,
    options: GenerateOptions,
    reply: Option<Result<Output, String>>,
    bytes: Seq<u8>,
    b: Map<Seq<char>, EntryView>,
)
    requires
        all_fit(m),
        generated(m, options, reply),
        archive_result(m, asked_of(options)) == Ok::<Seq<u8>, Seq<char>>(bytes),
        reopens(table_members(m, options).len(), bytes),
        is_loaded(Map::<Seq<char>, EntryView>::empty(), b, opened(bytes)->Ok_0.0, false),
        forall|k: Seq<char>| #[trigger] m.contains_key(k) ==> survives(m, k),
    ensures
        b.dom() == m.dom(),
        forall|k: Seq<char>| #[trigger] m.contains_key(k) ==> same_content(b[k], m[k]),
{
    let a = Map::<Seq<char>, EntryView>::empty();
    let order = archive_order(m);
    let members = read_back(table_members(m, options));
    let n = members.len() as int;
    assert forall|key: Seq<char>| #[trigger] m.contains_key(key) implies b.contains_key(key)
        && same_content(b[key], m[key]) by {
        assert forall|k: Seq<char>| #[trigger]
            m.contains_key(k) && rank_before(rank_of(m, key), rank_of(m, k)) implies sanitized(k)
            != key by {
            law_safe_keys(k);
            if k == key {
                assert(text_less(key, key));
                lemma_text_less_asymmetric(key, key);
            }
        }
        law_round_trip(m, options, reply, bytes, a, b, false, key);
    }
    assert forall|key: Seq<char>| #[trigger] b.contains_key(key) implies m.contains_key(key) by {
        assert(has_member(members, n, key));
        let i = choose|i: int| 0 <= i < n && #[trigger] member_key(members[i]) == key;
        lemma_written_key(m, options, order, i);
        assert(order.contains(order[i]));
        assert(m.contains_key(order[i]));
        law_safe_keys(order[i]);
    }
    assert(b.dom() =~= m.dom());
}

} // verus!
