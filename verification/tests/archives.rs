use std::cell::RefCell;
use ziper::content::{JsData, Output};
use ziper::entry::CompressionMethod;
use ziper::files::ZipFiles;
use ziper::generate::{names_fit, write_archive};
use ziper::jszip::{FileReply, FolderQuery, FolderReply, JSZip};
use ziper::load::{load_member, FoundMember};
use ziper::object::ZipObject;
use ziper::options::{FileOptions, GenerateOptions, LoadOptions};
use ziper::order::archive_places;

type Listener = fn(usize, usize, &String);
type Pattern = fn(&String) -> bool;

fn put(zip: &JSZip, files: &mut ZipFiles, name: &str, data: &[u8]) {
    put_with(zip, files, name, data, FileOptions::default());
}

fn put_with(zip: &JSZip, files: &mut ZipFiles, name: &str, data: &[u8], options: FileOptions) {
    let value = Some(JsData::Uint8Array(data.to_vec()));
    assert!(matches!(zip.file(files, name, value, Some(options)), Ok(FileReply::Archive(_))));
}

fn get(zip: &JSZip, files: &mut ZipFiles, name: &str) -> Option<ZipObject> {
    match zip.file(files, name, None, None) {
        Ok(FileReply::Object(o)) => Some(o),
        Ok(FileReply::Missing) => None,
        _ => panic!("no lookup"),
    }
}

fn enter(zip: &JSZip, files: &mut ZipFiles, name: &str) -> JSZip {
    match zip.folder(files, FolderQuery::<Pattern>::Name(Some(name.to_string()))) {
        FolderReply::Folder(sub) => sub,
        FolderReply::Matches(_) => panic!("no folder"),
    }
}

fn keys(zip: &JSZip, files: &ZipFiles) -> Vec<String> {
    let mut list: Vec<String> = zip.files(files).into_iter().map(|p| p.0).collect();
    list.sort();
    list
}

fn generate(zip: &JSZip, files: &ZipFiles) -> Vec<u8> {
    match zip.generate_async(files, &GenerateOptions::default(), None::<Listener>) {
        Some(Ok(Output::Uint8Array(v))) => v,
        _ => panic!("no archive"),
    }
}

fn load(zip: &JSZip, files: &ZipFiles, bytes: Vec<u8>, create_folders: bool) -> (JSZip, ZipFiles) {
    let options = LoadOptions { create_folders: Some(create_folders) };
    match zip.load_async(files, JsData::Uint8Array(bytes), Some(options)) {
        Ok(r) => r,
        Err(m) => panic!("{}", m),
    }
}

#[test]
fn a_file_that_was_put_in_is_found() {
    let zip = JSZip::new();
    let mut files = ZipFiles::new();
    put(&zip, &mut files, "a.txt", b"one");
    put(&zip, &mut files, "a.txt", b"two");
    let o = get(&zip, &mut files, "a.txt").unwrap();
    assert_eq!(o.data, Some(b"two".to_vec()));
    assert_eq!(o.name, "a.txt");
    assert!(!o.dir && o.comment.is_empty() && o.unsafe_original_name.is_none());
    assert!(o.date.starts_with("20") && o.date.ends_with("+00:00"));
    assert_eq!(files.len(), 1);
    assert!(get(&zip, &mut files, "b.txt").is_none());
    assert_eq!(get(&zip, &mut files, "/a.txt").unwrap().data, Some(b"two".to_vec()));
}

#[test]
fn text_reads_back_as_the_same_text() {
    let zip = JSZip::new();
    let mut files = ZipFiles::new();
    let text = "Grüße, Welt!";
    assert!(zip.file(&mut files, "t", Some(JsData::Text(text.to_string())), None).is_ok());
    let o = get(&zip, &mut files, "t").unwrap();
    assert!(matches!(o.async_("string"), Ok(Output::Text(s)) if s == text));
    assert!(matches!(o.async_("base64"), Ok(Output::Text(s)) if s == "R3LDvMOfZSwgV2VsdCE="));
}

#[test]
fn a_file_of_no_known_kind_is_refused() {
    let zip = JSZip::new();
    let mut files = ZipFiles::new();
    let r = zip.file(&mut files, "a", Some(JsData::Other), None);
    assert!(matches!(
        r,
        Err(m) if m == "Unsupported data type. Expected Uint8Array, ArrayBuffer, string, or Array."
    ));
    assert_eq!(files.len(), 0);
}

#[test]
fn options_of_a_file_are_kept() {
    let zip = JSZip::new();
    let mut files = ZipFiles::new();
    let options = FileOptions {
        compression: Some("deflate".to_string()),
        comment: Some("note".to_string()),
        create_folders: None,
    };
    put_with(&zip, &mut files, "d/a", b"x", options);
    assert_eq!(get(&zip, &mut files, "d/a").unwrap().comment, "note");
    assert_eq!(files.get("d/a").unwrap().compression, CompressionMethod::Deflate);
    assert_eq!(keys(&zip, &files), vec!["d/a"]);
}

#[test]
fn parent_folders_are_made_where_asked_for() {
    let zip = JSZip::new();
    let mut files = ZipFiles::new();
    put(&zip, &mut files, "a/", b"kept");
    let options = FileOptions { create_folders: Some(true), ..FileOptions::default() };
    put_with(&zip, &mut files, "a/b//c/d.txt", b"x", options);
    assert_eq!(keys(&zip, &files), vec!["a/", "a/b/", "a/b//c/d.txt", "a/b/c/"]);
    assert_eq!(get(&zip, &mut files, "a/").unwrap().data, Some(b"kept".to_vec()));
    let b = get(&zip, &mut files, "a/b/").unwrap();
    assert!(b.dir && b.name == "a/b/" && b.data.is_none());
    let dates: Vec<String> = zip.files(&files).into_iter().map(|p| p.1.date).collect();
    zip.create_parent_folders(&mut files, "a/b//c/d.txt");
    assert_eq!(zip.files(&files).into_iter().map(|p| p.1.date).collect::<Vec<_>>(), dates);
}

#[test]
fn folders_are_entered() {
    let zip = JSZip::new();
    let mut files = ZipFiles::new();
    let docs = enter(&zip, &mut files, "docs");
    assert_eq!(docs.current_folder, "docs/");
    put(&docs, &mut files, "a.txt", b"x");
    let deep = enter(&docs, &mut files, "deep/");
    assert_eq!(deep.current_folder, "docs/deep/");
    put(&deep, &mut files, "/top.txt", b"y");
    assert_eq!(keys(&zip, &files), vec!["docs/", "docs/a.txt", "docs/deep/", "top.txt"]);
    assert!(get(&zip, &mut files, "docs/a.txt").is_some());
    assert!(get(&docs, &mut files, "a.txt").is_some());
    assert!(get(&docs, &mut files, "/docs/a.txt").is_some());
}

#[test]
fn entering_a_folder_twice_changes_nothing() {
    let zip = JSZip::new();
    let mut files = ZipFiles::new();
    put(&zip, &mut files, "f/", b"a file with a slash");
    let sub = enter(&zip, &mut files, "f");
    assert_eq!(sub.current_folder, "f/");
    assert_eq!(files.len(), 1);
    assert_eq!(get(&zip, &mut files, "f/").unwrap().data, Some(b"a file with a slash".to_vec()));
}

#[test]
fn a_folder_asked_for_by_no_text_is_the_root() {
    let zip = JSZip::new();
    let mut files = ZipFiles::new();
    let docs = enter(&zip, &mut files, "docs");
    let root = match docs.folder(&mut files, FolderQuery::<Pattern>::Name(None)) {
        FolderReply::Folder(sub) => sub,
        FolderReply::Matches(_) => panic!("no folder"),
    };
    assert_eq!(root.current_folder, "");
    assert_eq!(keys(&zip, &files), vec!["", "docs/"]);
    let root = get(&zip, &mut files, "").unwrap();
    assert!(root.dir && root.name == "/");
}

#[test]
fn patterns_find_folders_alone() {
    let zip = JSZip::new();
    let mut files = ZipFiles::new();
    enter(&zip, &mut files, "img");
    enter(&zip, &mut files, "doc");
    put(&zip, &mut files, "img.txt", b"");
    let starts: Pattern = |name| name.starts_with("img");
    let found = match zip.folder(&mut files, FolderQuery::Pattern(starts)) {
        FolderReply::Matches(found) => found,
        FolderReply::Folder(_) => panic!("no list"),
    };
    assert_eq!(found.len(), 1);
    assert_eq!(found[0].name, "img/");
    let mut all: Vec<String> =
        zip.filter_internal(&files, starts, false).into_iter().map(|o| o.name).collect();
    all.sort();
    assert_eq!(all, vec!["img.txt", "img/"]);
}

#[test]
fn every_entry_is_visited() {
    let zip = JSZip::new();
    let mut files = ZipFiles::new();
    put(&zip, &mut files, "a", b"1");
    put(&zip, &mut files, "b", b"2");
    enter(&zip, &mut files, "c");
    let seen: RefCell<Vec<(String, bool, bool)>> = RefCell::new(vec![]);
    let r = zip.for_each(&files, |name: &String, o: &ZipObject| -> Result<(), String> {
        assert_eq!(*name, o.name);
        seen.borrow_mut().push((name.clone(), o.dir, o.data.is_none()));
        Ok(())
    });
    assert_eq!(r, Ok(()));
    let mut seen = seen.into_inner();
    seen.sort();
    let expected: Vec<(String, bool, bool)> =
        vec![("a".to_string(), false, true), ("b".to_string(), false, true), ("c/".to_string(), true, true)];
    assert_eq!(seen, expected);
}

#[test]
fn a_failure_ends_the_visit() {
    let zip = JSZip::new();
    let mut files = ZipFiles::new();
    put(&zip, &mut files, "a", b"1");
    put(&zip, &mut files, "b", b"2");
    let count: RefCell<usize> = RefCell::new(0);
    let r = zip.for_each(&files, |_: &String, _: &ZipObject| {
        *count.borrow_mut() += 1;
        Err("stop".to_string())
    });
    assert_eq!(r, Err("stop".to_string()));
    assert_eq!(count.into_inner(), 1);
    let r = zip.filter(&files, |_: &String, _: &ZipObject| Err("no".to_string()));
    assert!(matches!(r, Err(m) if m == "no"));
}

#[test]
fn a_filter_picks_entries() {
    let zip = JSZip::new();
    let mut files = ZipFiles::new();
    put(&zip, &mut files, "a.txt", b"1");
    put(&zip, &mut files, "b.png", b"2");
    put(&zip, &mut files, "c.txt", b"3");
    let r = zip.filter(&files, |name: &String, _: &ZipObject| -> Result<bool, String> {
        Ok(name.ends_with(".txt"))
    });
    let mut names: Vec<String> = match r {
        Ok(found) => found.into_iter().map(|o| o.name).collect(),
        Err(_) => panic!("no list"),
    };
    names.sort();
    assert_eq!(names, vec!["a.txt", "c.txt"]);
}

#[test]
fn removing_takes_out_the_whole_tree() {
    let zip = JSZip::new();
    let mut files = ZipFiles::new();
    for name in ["a", "a/x", "a/y/z", "ab", "b/a"] {
        put(&zip, &mut files, name, b"");
    }
    let back = zip.remove(&mut files, "a");
    assert_eq!(back.current_folder, "");
    assert_eq!(keys(&zip, &files), vec!["ab", "b/a"]);
    zip.remove(&mut files, "a");
    assert_eq!(files.len(), 2);
    zip.remove(&mut files, "b/");
    assert_eq!(keys(&zip, &files), vec!["ab"]);
    put(&zip, &mut files, "dir", b"");
    zip.remove(&mut files, "dir/");
    assert_eq!(keys(&zip, &files), vec!["ab", "dir"]);
}

#[test]
fn removing_goes_by_the_current_folder() {
    let zip = JSZip::new();
    let mut files = ZipFiles::new();
    let docs = enter(&zip, &mut files, "docs");
    put(&docs, &mut files, "a", b"");
    put(&zip, &mut files, "a", b"");
    docs.remove(&mut files, "a");
    assert_eq!(keys(&zip, &files), vec!["a", "docs/"]);
}

#[test]
fn the_comment_is_kept() {
    let mut zip = JSZip::new();
    assert_eq!(zip.comment(), "");
    zip.set_comment("note".to_string());
    assert_eq!(zip.comment(), "note");
    let mut files = ZipFiles::new();
    assert_eq!(enter(&zip, &mut files, "d").comment(), "note");
    assert_eq!(zip.clone().comment, "note");
}

#[test]
fn entries_are_written_folders_first() {
    let zip = JSZip::new();
    let mut files = ZipFiles::new();
    for name in ["z.txt", "b/c/x", "b.txt", "\u{10000}", "\u{ffff}"] {
        put(&zip, &mut files, name, b"");
    }
    for name in ["b", "a/deep", "a"] {
        enter(&zip, &mut files, name);
    }
    let order: Vec<String> =
        archive_places(&files).into_iter().map(|i| files.key_at(i).clone()).collect();
    assert_eq!(
        order,
        vec!["a/", "b/", "a/deep/", "b.txt", "z.txt", "\u{ffff}", "\u{10000}", "b/c/x"]
    );
    let (_, back) = load(&zip, &ZipFiles::new(), generate(&zip, &files), false);
    let written: Vec<String> = (0..back.len()).map(|i| back.key_at(i).clone()).collect();
    assert_eq!(written, order);
}

#[test]
fn a_stored_archive_has_its_size() {
    let zip = JSZip::new();
    let mut files = ZipFiles::new();
    assert_eq!(generate(&zip, &files).len(), 22);
    put(&zip, &mut files, "a.txt", b"abc");
    assert_eq!(generate(&zip, &files).len(), 22 + 76 + 2 * 5 + 3);
    enter(&zip, &mut files, "é");
    assert_eq!(generate(&zip, &files).len(), 22 + 76 + 2 * 5 + 3 + 76 + 2 * 3);
    assert_eq!(&generate(&zip, &files)[..4], b"PK\x03\x04");
}

#[test]
fn deflated_archives_are_smaller() {
    let zip = JSZip::new();
    let mut files = ZipFiles::new();
    let text = vec![b'a'; 10_000];
    put(&zip, &mut files, "a.txt", &text);
    let stored = generate(&zip, &files).len();
    let options =
        GenerateOptions { compression: Some("deflate".to_string()), ..GenerateOptions::default() };
    let deflated = match zip.generate_async(&files, &options, None::<Listener>) {
        Some(Ok(Output::Uint8Array(v))) => v,
        _ => panic!("no archive"),
    };
    assert!(deflated.len() < stored / 10);
    let (_, mut back) = load(&zip, &ZipFiles::new(), deflated.clone(), false);
    assert_eq!(get(&zip, &mut back, "a.txt").unwrap().data, Some(text.clone()));
    let own = FileOptions { compression: Some("DEFLATE".to_string()), ..FileOptions::default() };
    put_with(&zip, &mut files, "a.txt", &text, own);
    assert_eq!(generate(&zip, &files), deflated);
    let stored_again =
        GenerateOptions { compression: Some("store".to_string()), ..GenerateOptions::default() };
    assert!(matches!(
        zip.generate_async(&files, &stored_again, None::<Listener>),
        Some(Ok(Output::Uint8Array(v))) if v.len() == stored
    ));
}

#[test]
fn what_is_written_is_read_back() {
    let zip = JSZip::new();
    let mut files = ZipFiles::new();
    put(&zip, &mut files, "a.txt", b"alpha");
    put(&zip, &mut files, "empty", b"");
    put(&zip, &mut files, "ü/ß.bin", &[0, 255, 80, 75, 5, 6]);
    enter(&zip, &mut files, "d/e");
    enter(&zip, &mut files, "");
    let (again, mut back) = load(&zip, &ZipFiles::new(), generate(&zip, &files), false);
    assert_eq!(again.comment, "");
    assert_eq!(keys(&zip, &back), keys(&zip, &files));
    for key in ["a.txt", "empty", "ü/ß.bin", "d/e/", ""] {
        let old = get(&zip, &mut files, key).unwrap();
        let new = get(&zip, &mut back, key).unwrap();
        assert_eq!((old.name, old.dir, old.data), (new.name, new.dir, new.data));
        assert!(new.unsafe_original_name.is_none());
    }
}

#[test]
fn archives_are_taken_in_every_form() {
    let zip = JSZip::new();
    let mut files = ZipFiles::new();
    put(&zip, &mut files, "a", b"alpha");
    for kind in ["uint8array", "arraybuffer", "array", "base64", "nodebuffer"] {
        let options =
            GenerateOptions { output_type: Some(kind.to_string()), ..GenerateOptions::default() };
        let value = match zip.generate_async(&files, &options, None::<Listener>) {
            Some(Ok(Output::Uint8Array(v))) => JsData::Uint8Array(v),
            Some(Ok(Output::ArrayBuffer(v))) => JsData::ArrayBuffer(v),
            Some(Ok(Output::Array(v))) => JsData::Array(v.into_iter().map(Some).collect()),
            Some(Ok(Output::Text(s))) => JsData::Text(s),
            _ => panic!("no archive"),
        };
        let mut back = match zip.load_async(&ZipFiles::new(), value, None) {
            Ok((_, back)) => back,
            Err(m) => panic!("{}", m),
        };
        assert_eq!(get(&zip, &mut back, "a").unwrap().data, Some(b"alpha".to_vec()));
    }
}

#[test]
fn an_output_of_no_known_kind_is_refused() {
    let options = GenerateOptions { output_type: Some("tar".to_string()), ..GenerateOptions::default() };
    let r = JSZip::new().generate_async(&ZipFiles::new(), &options, None::<Listener>);
    assert!(matches!(r, Some(Err(m)) if m == "Unsupported output type: tar"));
}

#[test]
fn two_entries_with_one_written_name_are_refused() {
    let zip = JSZip::new();
    let mut files = ZipFiles::new();
    enter(&zip, &mut files, "");
    enter(&zip, &mut files, "\u{1}");
    assert_eq!(keys(&zip, &files), vec!["", "/"]);
    let r = zip.generate_async(&files, &GenerateOptions::default(), None::<Listener>);
    assert!(matches!(r, Some(Err(m)) if m.starts_with("Zip error: ")));
    assert!(write_archive(&files, None, &None::<Listener>).is_err());
}

#[test]
fn the_listener_is_told_of_every_entry() {
    let zip = JSZip::new();
    let mut files = ZipFiles::new();
    put(&zip, &mut files, "b", b"");
    put(&zip, &mut files, "a", b"");
    let told: RefCell<Vec<(usize, usize, String)>> = RefCell::new(vec![]);
    let listener = |done: usize, total: usize, name: &String| {
        told.borrow_mut().push((done, total, name.clone()));
    };
    assert!(matches!(
        zip.generate_async(&files, &GenerateOptions::default(), Some(listener)),
        Some(Ok(_))
    ));
    assert_eq!(told.into_inner(), vec![(0, 2, "a".to_string()), (1, 2, "b".to_string())]);
}

#[test]
fn long_names_do_not_fit() {
    let zip = JSZip::new();
    let mut files = ZipFiles::new();
    put(&zip, &mut files, &"é".repeat(32767), b"");
    assert!(names_fit(&files));
    assert_eq!(generate(&zip, &files).len(), 22 + 76 + 2 * 65534);
    put(&zip, &mut files, &"é".repeat(32768), b"");
    assert!(!names_fit(&files));
}

#[test]
fn loading_leaves_the_table_alone() {
    let mut zip = JSZip::new();
    zip.set_comment("mine".to_string());
    let mut files = ZipFiles::new();
    put(&zip, &mut files, "a", b"new");
    put(&zip, &mut files, "x/b", b"");
    let bytes = generate(&zip, &files);
    let mut other = ZipFiles::new();
    put(&zip, &mut other, "a", b"old");
    put(&zip, &mut other, "c", b"kept");
    let (again, mut merged) = load(&zip, &other, bytes, true);
    assert_eq!(keys(&zip, &other), vec!["a", "c"]);
    assert_eq!(get(&zip, &mut other, "a").unwrap().data, Some(b"old".to_vec()));
    assert_eq!(keys(&zip, &merged), vec!["a", "c", "x/", "x/b"]);
    assert_eq!(get(&zip, &mut merged, "a").unwrap().data, Some(b"new".to_vec()));
    assert_eq!(get(&zip, &mut merged, "c").unwrap().data, Some(b"kept".to_vec()));
    assert!(get(&zip, &mut merged, "x/").unwrap().dir);
    assert_eq!(again.comment, "mine");
}

#[test]
fn unsafe_names_are_made_safe_and_kept_on_record() {
    let zip = JSZip::new();
    let mut files = ZipFiles::new();
    put(&zip, &mut files, "../evil", b"x");
    put(&zip, &mut files, "a\\b", b"y");
    put(&zip, &mut files, "slash/", b"z");
    let (_, mut back) = load(&zip, &ZipFiles::new(), generate(&zip, &files), false);
    assert_eq!(keys(&zip, &back), vec!["a/b", "evil", "slash/"]);
    let evil = get(&zip, &mut back, "evil").unwrap();
    assert_eq!(evil.unsafe_original_name, Some("../evil".to_string()));
    assert_eq!(evil.data, Some(b"x".to_vec()));
    assert_eq!(get(&zip, &mut back, "a/b").unwrap().unsafe_original_name, Some("a\\b".to_string()));
    assert!(get(&zip, &mut back, "slash/").unwrap().dir);
}

#[test]
fn the_comment_of_an_archive_is_read() {
    let zip = JSZip::new();
    let mut bytes = generate(&zip, &ZipFiles::new());
    bytes[20] = 3;
    bytes.extend_from_slice(b"h\xffi");
    let (again, back) = load(&zip, &ZipFiles::new(), bytes, false);
    assert_eq!(again.comment(), "h\u{fffd}i");
    assert_eq!(back.len(), 0);
}

#[test]
fn what_is_no_archive_is_refused() {
    let zip = JSZip::new();
    let r = zip.load_async(&ZipFiles::new(), JsData::Uint8Array(vec![1, 2, 3]), None);
    assert!(matches!(r, Err(m) if m.starts_with("Failed to open zip: ")));
    let r = zip.load_async(&ZipFiles::new(), JsData::Other, None);
    assert!(matches!(r, Err(m) if m.starts_with("Unsupported data type.")));
}

#[test]
fn damaged_contents_are_refused() {
    let zip = JSZip::new();
    let mut files = ZipFiles::new();
    put(&zip, &mut files, "a.txt", b"abc");
    let good = generate(&zip, &files);
    let mut bytes = good.clone();
    bytes[35] ^= 1;
    let r = zip.load_async(&files, JsData::Uint8Array(bytes), None);
    assert!(matches!(r, Err(m) if m.starts_with("Failed to read content: ")));
    let mut bytes = good;
    bytes[38 + 10] = 12;
    let r = zip.load_async(&files, JsData::Uint8Array(bytes), None);
    assert!(matches!(r, Err(m) if m.starts_with("Failed to read file 0: ")));
}

#[test]
fn members_are_put_into_the_table() {
    let mut files = ZipFiles::new();
    let found = FoundMember { name: "/x/../y".to_string(), content: Ok(vec![7]) };
    assert_eq!(load_member(&mut files, 0, Ok(found)), Ok(()));
    let y = files.get("y").unwrap();
    assert_eq!(y.data, Some(vec![7]));
    assert_eq!(y.unsafe_original_name, Some("/x/../y".to_string()));
    let folder = FoundMember { name: "d\\".to_string(), content: Err("unread".to_string()) };
    assert_eq!(load_member(&mut files, 1, Ok(folder)), Ok(()));
    assert!(files.get("d/").unwrap().dir && files.get("d/").unwrap().unsafe_original_name.is_none());
    let broken = FoundMember { name: "z".to_string(), content: Err("torn".to_string()) };
    assert_eq!(
        load_member(&mut files, 2, Ok(broken)),
        Err("Failed to read content: torn".to_string())
    );
    assert_eq!(
        load_member(&mut files, 12, Err("lost".to_string())),
        Err("Failed to read file 12: lost".to_string())
    );
    assert_eq!(files.len(), 2);
}

#[test]
fn folders_of_safe_keys_come_back_too() {
    let zip = JSZip::new();
    let mut files = ZipFiles::new();
    put(&zip, &mut files, "a/b/c/d.txt", b"x");
    let (_, mut back) = load(&zip, &ZipFiles::new(), generate(&zip, &files), true);
    assert_eq!(keys(&zip, &back), vec!["a/", "a/b/", "a/b/c/", "a/b/c/d.txt"]);
    for key in keys(&zip, &back) {
        assert_eq!(ziper::path::sanitize_path(&key), key);
        zip.create_parent_folders(&mut back, &key);
    }
    assert_eq!(back.len(), 4);
    let (_, again) = load(&zip, &ZipFiles::new(), generate(&zip, &back), false);
    assert_eq!(keys(&zip, &again), keys(&zip, &back));
}

#[test]
fn the_later_of_two_members_with_one_key_stays() {
    let zip = JSZip::new();
    let mut files = ZipFiles::new();
    put(&zip, &mut files, "x", b"first");
    put(&zip, &mut files, "./x", b"second");
    let (_, mut back) = load(&zip, &ZipFiles::new(), generate(&zip, &files), false);
    assert_eq!(keys(&zip, &back), vec!["x"]);
    let x = get(&zip, &mut back, "x").unwrap();
    assert_eq!(x.data, Some(b"second".to_vec()));
    assert_eq!(x.unsafe_original_name, Some("./x".to_string()));
}

#[test]
fn contents_that_look_like_archives_are_read_back() {
    let zip = JSZip::new();
    let mut inner = ZipFiles::new();
    put(&zip, &mut inner, "deep", b"treasure");
    let mut files = ZipFiles::new();
    put(&zip, &mut files, "inner.zip", &generate(&zip, &inner));
    let (_, mut back) = load(&zip, &ZipFiles::new(), generate(&zip, &files), false);
    let bytes = get(&zip, &mut back, "inner.zip").unwrap().data.unwrap();
    let (_, mut found) = load(&zip, &ZipFiles::new(), bytes, false);
    assert_eq!(get(&zip, &mut found, "deep").unwrap().data, Some(b"treasure".to_vec()));
}

fn write_and_read(n: usize, end: usize) {
    let zip = JSZip::new();
    let mut files = ZipFiles::new();
    for i in 0..n {
        put(&zip, &mut files, &format!("{:05}", i), b"");
    }
    let bytes = generate(&zip, &files);
    assert_eq!(bytes.len(), n * (76 + 2 * 5) + end);
    let (_, back) = load(&zip, &ZipFiles::new(), bytes, false);
    assert_eq!(back.len(), n);
    assert!(back.get(&format!("{:05}", n - 1)).is_some());
}

#[test]
fn large_tables_are_written_and_read() {
    write_and_read(65537, 98);
}

#[test]
fn tables_at_the_limit_are_written_and_read() {
    write_and_read(65535, 22);
}
