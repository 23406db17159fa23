use ziper::content::{archive_as, file_as, fits_base64, js_value_to_vec_u8, text_bytes};
use ziper::content::{JsData, Output};
use ziper::entry::{CompressionMethod, ZipEntry};
use ziper::error::ZiperError;
use ziper::object::{zip_object_to_js, Property, ZipObject};
use ziper::options::{method_asked, switched_on, FileOptions, GenerateOptions, LoadOptions};
use ziper::time::{format_date, Timestamp};

fn bytes_in(value: JsData) -> Vec<u8> {
    js_value_to_vec_u8(value).unwrap()
}

fn text_in(output: Result<Output, String>) -> String {
    match output {
        Ok(Output::Text(s)) => s,
        _ => panic!("no text"),
    }
}

#[test]
fn bytes_are_taken_as_they_are() {
    assert_eq!(bytes_in(JsData::Uint8Array(vec![0, 255, 7])), vec![0, 255, 7]);
    assert_eq!(bytes_in(JsData::ArrayBuffer(vec![])), Vec::<u8>::new());
}

#[test]
fn base64_is_decoded_first() {
    assert_eq!(bytes_in(JsData::Text("aGVsbG8=".to_string())), b"hello".to_vec());
    assert_eq!(bytes_in(JsData::Text("abcd".to_string())), vec![0x69, 0xb7, 0x1d]);
    assert_eq!(bytes_in(JsData::Text(String::new())), Vec::<u8>::new());
}

#[test]
fn other_text_is_taken_as_utf8() {
    assert_eq!(bytes_in(JsData::Text("hello".to_string())), b"hello".to_vec());
    assert_eq!(bytes_in(JsData::Text("hé!".to_string())), vec![0x68, 0xc3, 0xa9, 0x21]);
    assert_eq!(text_bytes("x", None), b"x".to_vec());
    assert_eq!(text_bytes("x", Some(vec![1])), vec![1]);
}

#[test]
fn only_the_numbers_of_an_array_count() {
    assert_eq!(bytes_in(JsData::Array(vec![Some(1), None, Some(3)])), vec![1, 3]);
    assert_eq!(bytes_in(JsData::Array(vec![None])), Vec::<u8>::new());
}

#[test]
fn other_values_are_refused() {
    assert_eq!(
        js_value_to_vec_u8(JsData::Other),
        Err("Unsupported data type. Expected Uint8Array, ArrayBuffer, string, or Array.".to_string())
    );
}

#[test]
fn a_file_comes_in_every_form() {
    let data = b"hi\xff".to_vec();
    assert!(matches!(file_as(data.clone(), "uint8array"), Ok(Output::Uint8Array(v)) if v == data));
    assert!(matches!(file_as(data.clone(), "nodebuffer"), Ok(Output::Uint8Array(v)) if v == data));
    assert!(matches!(file_as(data.clone(), "arraybuffer"), Ok(Output::ArrayBuffer(v)) if v == data));
    assert!(matches!(file_as(data.clone(), "array"), Ok(Output::Array(v)) if v == data));
    assert_eq!(text_in(file_as(data.clone(), "string")), "hi\u{fffd}");
    assert_eq!(text_in(file_as(data.clone(), "binarystring")), "hi\u{fffd}");
    assert_eq!(text_in(file_as(data.clone(), "base64")), "aGn/");
    assert!(matches!(
        file_as(data.clone(), "blob"),
        Ok(Output::Blob(v, mime)) if v == data && mime == "application/octet-stream"
    ));
    assert!(matches!(file_as(data, "text"), Err(m) if m == "Unsupported type: text"));
}

#[test]
fn an_archive_comes_in_every_form() {
    let data = vec![0x50, 0x4b, 0xe9];
    let none: Option<String> = None;
    let kind = |k: &str| Some(k.to_string());
    assert!(matches!(archive_as(data.clone(), &none, &none), Ok(Output::Uint8Array(v)) if v == data));
    assert!(matches!(
        archive_as(data.clone(), &kind("nodebuffer"), &none),
        Ok(Output::Uint8Array(v)) if v == data
    ));
    assert!(matches!(
        archive_as(data.clone(), &kind("arraybuffer"), &none),
        Ok(Output::ArrayBuffer(v)) if v == data
    ));
    assert!(matches!(archive_as(data.clone(), &kind("array"), &none), Ok(Output::Array(v)) if v == data));
    assert_eq!(text_in(archive_as(data.clone(), &kind("string"), &none)), "PKé");
    assert_eq!(text_in(archive_as(data.clone(), &kind("binarystring"), &none)), "PKé");
    assert_eq!(text_in(archive_as(data.clone(), &kind("base64"), &none)), "UEvp");
    assert!(matches!(
        archive_as(data.clone(), &kind("blob"), &none),
        Ok(Output::Blob(v, mime)) if v == data && mime == "application/zip"
    ));
    assert!(matches!(
        archive_as(data.clone(), &kind("blob"), &kind("application/epub+zip")),
        Ok(Output::Blob(_, mime)) if mime == "application/epub+zip"
    ));
    assert!(matches!(
        archive_as(data, &kind("Base64"), &none),
        Err(m) if m == "Unsupported output type: Base64"
    ));
}

#[test]
fn what_is_written_in_base64_decodes_to_itself() {
    for n in 0..7 {
        let data: Vec<u8> = (0..n).map(|i| 200 + i as u8).collect();
        let text = text_in(file_as(data.clone(), "base64"));
        assert_eq!(bytes_in(JsData::Text(text)), data);
    }
    assert!(fits_base64(1 << 20));
    assert!(!fits_base64(usize::MAX));
}

#[test]
fn compression_names_are_taken_in_any_case() {
    assert_eq!(CompressionMethod::from_str("DEFLATE"), CompressionMethod::Deflate);
    assert_eq!(CompressionMethod::from_str("deflate"), CompressionMethod::Deflate);
    assert_eq!(CompressionMethod::from_str("DeFlAtE"), CompressionMethod::Deflate);
    assert_eq!(CompressionMethod::from_str("STORE"), CompressionMethod::Store);
    assert_eq!(CompressionMethod::from_str("bzip2"), CompressionMethod::Store);
    assert_eq!(CompressionMethod::from_str("ﬂate"), CompressionMethod::Store);
    assert_eq!(CompressionMethod::from_str("deﬂate"), CompressionMethod::Deflate);
    assert_eq!(CompressionMethod::from_upper("deflate"), CompressionMethod::Store);
    assert_eq!(method_asked(&None), None);
    assert_eq!(method_asked(&Some("x".to_string())), Some(CompressionMethod::Store));
}

#[test]
fn options_ask_for_nothing_by_default() {
    let file = FileOptions::default();
    assert!(file.compression.is_none() && file.comment.is_none() && file.create_folders.is_none());
    let generate = GenerateOptions::default();
    assert!(generate.output_type.is_none() && generate.compression.is_none());
    assert!(generate.mime_type.is_none());
    assert!(LoadOptions::default().create_folders.is_none());
    assert!(!switched_on(None) && !switched_on(Some(false)) && switched_on(Some(true)));
}

#[test]
fn dates_are_written_out() {
    let date = |secs, nanos| format_date(&Some(Timestamp { secs, nanos }));
    assert_eq!(date(0, 0), "1970-01-01T00:00:00+00:00");
    assert_eq!(date(951_782_400, 500_000_000), "2000-02-29T00:00:00.500+00:00");
    assert_eq!(date(i64::MAX, 0), "");
    assert_eq!(format_date(&None), "");
}

#[test]
fn new_entries() {
    let file = ZipEntry::new_file("a.txt".to_string(), vec![1]);
    assert!(!file.dir && file.name == "a.txt" && file.raw_data() == vec![1]);
    assert!(file.comment.is_empty() && file.unsafe_original_name.is_none());
    assert_eq!(file.compression, CompressionMethod::Store);
    let year: i32 = format_date(&file.date)[..4].parse().unwrap();
    assert!(year >= 2020);
    let dir = ZipEntry::new_dir("a".to_string());
    assert!(dir.dir && dir.name == "a/" && dir.data.is_none() && dir.raw_data().is_empty());
    assert_eq!(ZipEntry::new_dir("a/".to_string()).name, "a/");
    assert_eq!(ZipEntry::new_dir(String::new()).name, "/");
    let copy = file.clone();
    assert_eq!(copy.name, "a.txt");
    assert_eq!(copy.data, Some(vec![1]));
}

#[test]
fn an_object_shows_its_properties() {
    let object = ZipObject {
        name: "a.txt".to_string(),
        dir: false,
        date: "today".to_string(),
        comment: "note".to_string(),
        unsafe_original_name: Some("../a.txt".to_string()),
        data: Some(vec![104, 105]),
    };
    assert_eq!(object.name(), "a.txt");
    assert!(!object.dir());
    assert_eq!(object.date(), "today");
    assert_eq!(object.comment(), "note");
    assert_eq!(object.unsafe_original_name(), Some("../a.txt".to_string()));
    assert_eq!(text_in(object.async_("string")), "hi");
    let list = zip_object_to_js(&object);
    let names: Vec<&str> = list.iter().map(|p| p.0).collect();
    assert_eq!(names, vec!["name", "dir", "date", "comment", "unsafeOriginalName", "data"]);
    assert!(matches!(&list[0].1, Property::Text(s) if s == "a.txt"));
    assert!(matches!(list[1].1, Property::Flag(false)));
    assert!(matches!(&list[4].1, Property::Text(s) if s == "../a.txt"));
    assert!(matches!(&list[5].1, Property::Bytes(v) if *v == vec![104, 105]));
}

#[test]
fn an_object_without_content_shows_null() {
    let object = ZipObject {
        name: "d/".to_string(),
        dir: true,
        date: String::new(),
        comment: String::new(),
        unsafe_original_name: None,
        data: None,
    };
    let list = zip_object_to_js(&object);
    assert!(matches!(list[4].1, Property::Null) && matches!(list[5].1, Property::Null));
    assert!(matches!(object.async_("uint8array"), Ok(Output::Uint8Array(v)) if v.is_empty()));
}

#[test]
fn errors_have_messages() {
    assert_eq!(ZiperError::Zip("bad".to_string()).message(), "Zip error: bad");
    assert_eq!(ZiperError::Io("gone".to_string()).message(), "IO error: gone");
    assert_eq!(ZiperError::InvalidArgument("x".to_string()).message(), "Invalid argument: x");
}

#[test]
fn the_version_is_known() {
    assert_eq!(ziper::version(), "0.1.0");
}
