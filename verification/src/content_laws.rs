//! What holds of contents on their way in and out.
use crate::content::lemma_kinds;
use crate::content::{archive_output, base64_decoded, base64_encoded, base64_limit, content_of};
use crate::content::{file_output, is_output, numbers, utf8_lossy};
use crate::content::{JsData, Output};
use crate::entry::{ascii_upper, ascii_upper_text, bytes_of, method_named, text_of, upper_case};
use crate::entry::{CompressionMethod, EntryView};
use crate::error::ZiperError;
use crate::object::{full_object, listed_object, properties, property_views, ObjectView};
use crate::object::Property;
use crate::options::{asked_method, is_on};
use crate::text::{decimal, digit};
use crate::time::{date_text, is_date, rfc3339_text};
use crate::time::Timestamp;
use vstd::prelude::*;
use vstd::utf8::{decode_utf8, encode_utf8_decode_utf8};

verus! {

/// Where the content of a file is handed out as bytes, in whatever form, the bytes are the
/// content.
pub proof fn law_file_bytes(data: Seq<u8>, kind: Seq<char>, output: Output)
    requires
        is_output(Ok(output), file_output(data, kind)),
    ensures
        match output {
            Output::Uint8Array(v) => v@ == data,
            Output::ArrayBuffer(v) => v@ == data,
            Output::Array(v) => v@ == data,
            Output::Blob(v, _) => v@ == data,
            Output::Text(_) => true,
        },
{
}

/// The content of a file is handed out in the form that was asked for, and a form of no known
/// name is refused with a message that ends in the name.
pub proof fn law_file_forms(data: Seq<u8>, kind: Seq<char>, r: Result<Output, String>)
    requires
        is_output(r, file_output(data, kind)),
    ensures
        match r {
            Ok(Output::Uint8Array(_)) => kind == "uint8array"@ || kind == "nodebuffer"@,
            Ok(Output::ArrayBuffer(_)) => kind == "arraybuffer"@,
            Ok(Output::Array(_)) => kind == "array"@,
            Ok(Output::Blob(_, mime)) => kind == "blob"@ && mime@ == "application/octet-stream"@,
            Ok(Output::Text(s)) => (kind == "base64"@ && s@ == base64_encoded(data)) || ((kind
                == "string"@ || kind == "binarystring"@) && s@ == utf8_lossy(data)),
            Err(message) => {
                &&& message@ == "Unsupported type: "@ + kind
                &&& kind != "uint8array"@ && kind != "nodebuffer"@ && kind != "arraybuffer"@
                &&& kind != "array"@ && kind != "blob"@ && kind != "base64"@
                &&& kind != "string"@ && kind != "binarystring"@
            },
        },
{
    lemma_kinds();
}

/// The bytes of an archive are handed out whole, in whatever form: as bytes, or as a text with
/// one character for each byte, which has the number of the byte.
pub proof fn law_archive_bytes(
    data: Seq<u8>,
    kind: Option<Seq<char>>,
    mime: Option<Seq<char>>,
    output: Output,
)
    requires
        is_output(Ok(output), archive_output(data, kind, mime)),
    ensures
        match output {
            Output::Uint8Array(v) => v@ == data,
            Output::ArrayBuffer(v) => v@ == data,
            Output::Array(v) => v@ == data,
            Output::Blob(v, _) => v@ == data,
            Output::Text(s) => kind == Some("base64"@) || {
                &&& s@.len() == data.len()
                &&& forall|i: int|
                    0 <= i < data.len() ==> (#[trigger] s@[i]) as u32 == data[i] as u32
            },
        },
{
    if let Output::Text(s) = output {
        if kind != Some("base64"@) {
            assert forall|i: int| 0 <= i < data.len() implies (#[trigger] s@[i]) as u32
                == data[i] as u32 by {
                assert(s@[i] == data[i] as char);
                lemma_byte_char(data[i]);
            }
        }
    }
}

proof fn lemma_byte_char(b: u8)
    ensures
        (b as char) as u32 == b as u32,
{
}

/// An archive is handed out in the form that was asked for, as bytes where none was, and a form of
/// no known name is refused with a message that ends in the name. A blob has the media type that
/// was asked for, and that of a zip archive where none was.
pub proof fn law_archive_forms(
    data: Seq<u8>,
    kind: Option<Seq<char>>,
    mime: Option<Seq<char>>,
    r: Result<Output, String>,
)
    requires
        is_output(r, archive_output(data, kind, mime)),
    ensures
        match r {
            Ok(Output::Uint8Array(_)) => kind is None || kind == Some("uint8array"@) || kind
                == Some("nodebuffer"@),
            Ok(Output::ArrayBuffer(_)) => kind == Some("arraybuffer"@),
            Ok(Output::Array(_)) => kind == Some("array"@),
            Ok(Output::Blob(_, m)) => kind == Some("blob"@) && match mime {
                Some(asked) => m@ == asked,
                None => m@ == "application/zip"@,
            },
            Ok(Output::Text(s)) => (kind == Some("base64"@) && s@ == base64_encoded(data)) || kind
                == Some("string"@) || kind == Some("binarystring"@),
            Err(message) => {
                &&& kind matches Some(k) && message@ == "Unsupported output type: "@ + k
                &&& kind != Some("uint8array"@) && kind != Some("nodebuffer"@)
                &&& kind != Some("arraybuffer"@) && kind != Some("array"@)
                &&& kind != Some("blob"@) && kind != Some("base64"@)
                &&& kind != Some("string"@) && kind != Some("binarystring"@)
            },
        },
{
    lemma_kinds();
}

/// What is given as bytes is taken as those bytes; a text is taken as what it decodes to, or as
/// bytes that are the UTF-8 of nothing but the text; what is of no known kind is refused, and
/// nothing else is.
pub proof fn law_contents(value: JsData)
    ensures
        value matches JsData::Uint8Array(v) ==> content_of(value) == Ok::<Seq<u8>, Seq<char>>(v@),
        value matches JsData::ArrayBuffer(v) ==> content_of(value) == Ok::<Seq<u8>, Seq<char>>(v@),
        value matches JsData::Text(s) ==> match base64_decoded(s@) {
            Some(data) => content_of(value) == Ok::<Seq<u8>, Seq<char>>(data),
            None => content_of(value) is Ok && decode_utf8(content_of(value)->Ok_0) == s@,
        },
        value matches JsData::Array(a) ==> content_of(value) is Ok,
        value is Other ==> content_of(value) == Err::<Seq<u8>, Seq<char>>(
            "Unsupported data type. Expected Uint8Array, ArrayBuffer, string, or Array."@,
        ),
{
    if let JsData::Text(s) = value {
        encode_utf8_decode_utf8(s@);
    }
}

/// An array is taken element by element: a number is one byte, anything else is nothing, and two
/// arrays one after the other are the bytes of the first and then those of the second.
pub proof fn law_arrays(a: Vec<Option<u8>>, b: Vec<Option<u8>>, both: Vec<Option<u8>>)
    requires
        both@ == a@ + b@,
    ensures
        content_of(JsData::Array(both))->Ok_0 == content_of(JsData::Array(a))->Ok_0 + content_of(
            JsData::Array(b),
        )->Ok_0,
        a@.len() == 0 ==> content_of(JsData::Array(a))->Ok_0.len() == 0,
        a@.len() == 1 && a@[0] is None ==> content_of(JsData::Array(a))->Ok_0.len() == 0,
        a@.len() == 1 && a@[0] is Some ==> content_of(JsData::Array(a))->Ok_0 == seq![a@[0]->0],
{
    lemma_numbers_append(a@, b@);
    reveal_with_fuel(numbers, 3);
    if a@.len() == 1 {
        assert(a@.drop_last() =~= Seq::<Option<u8>>::empty());
        assert(a@[0] is Some ==> numbers(a@) =~= seq![a@[0]->0]);
    }
}

proof fn lemma_numbers_append(a: Seq<Option<u8>>, b: Seq<Option<u8>>)
    ensures
        numbers(a + b) == numbers(a) + numbers(b),
    decreases b.len(),
{
    if b.len() == 0 {
        assert(a + b =~= a);
        assert(numbers(a) + numbers(b) =~= numbers(a));
    } else {
        assert((a + b).drop_last() =~= a + b.drop_last());
        lemma_numbers_append(a, b.drop_last());
        assert(numbers(a + b) =~= numbers(a) + numbers(b));
    }
}

/// So many bytes can be written in base64 as give a text that fits in memory: four characters for
/// every three bytes that were begun.
pub proof fn law_base64_limit(n: nat)
    ensures
        n <= base64_limit() <==> (n + 2) / 3 * 4 <= isize::MAX,
{
}

/// Compression names are not told apart by upper and lower case, and one that is `DEFLATE` in
/// upper case, and no other, asks to deflate.
pub proof fn law_compression_names(a: Seq<char>, b: Seq<char>)
    requires
        a.len() == b.len(),
        forall|i: int|
            0 <= i < a.len() ==> #[trigger] a[i] == b[i] || ('a' <= a[i] <= 'z' && b[i] as u32 + 32
                == a[i] as u32),
    ensures
        ascii_upper_text(a) == ascii_upper_text(b),
        method_named(a) == CompressionMethod::Deflate <==> a == "DEFLATE"@,
        a == "DEFLATE"@ ==> ascii_upper_text(a) == a,
        ascii_upper_text(a).len() == a.len(),
        forall|i: int|
            0 <= i < a.len() && !('a' <= a[i] <= 'z') ==> (#[trigger] ascii_upper_text(a)[i])
                == a[i],
{
    assert forall|i: int| 0 <= i < a.len() implies ascii_upper_text(a)[i] == ascii_upper_text(
        b,
    )[i] by {
        if a[i] != b[i] {
            lemma_upper_of_lower(a[i], b[i]);
        }
    }
    assert(ascii_upper_text(a) =~= ascii_upper_text(b));
    if a == "DEFLATE"@ {
        reveal_strlit("DEFLATE");
        assert(ascii_upper_text(a) =~= a);
    }
}

proof fn lemma_upper_of_lower(low: char, up: char)
    requires
        'a' <= low <= 'z',
        up as u32 + 32 == low as u32,
    ensures
        ascii_upper(low) == up,
        ascii_upper(up) == up,
{
}

/// A name that is given asks for a method, and none that is not asks for none; a switch is on
/// where it is set to `true`.
pub proof fn law_options(name: Seq<char>, switch: Option<bool>)
    ensures
        asked_method(None) is None,
        asked_method(Some(name)) == Some(CompressionMethod::Deflate) <==> upper_case(name)
            == "DEFLATE"@,
        asked_method(Some(name)) == Some(CompressionMethod::Store) <==> upper_case(name)
            != "DEFLATE"@,
        is_on(switch) <==> switch is Some && switch->0,
{
}

/// What an optional text or optional bytes hold.
pub proof fn law_optional_values(s: String, v: Vec<u8>)
    ensures
        text_of(Some(s)) == Some(s@),
        text_of(None) is None,
        bytes_of(Some(v)) == Some(v@),
        bytes_of(None) is None,
{
}

/// The number that a text of decimal digits stands for.
pub open spec fn decimal_value(s: Seq<char>) -> int
    decreases s.len(),
{
    if s.len() == 0 {
        0
    } else {
        decimal_value(s.drop_last()) * 10 + (s.last() as u32 - 48)
    }
}

/// A number in decimal consists of digits, has no leading zero unless it is zero, and stands for
/// the number.
pub proof fn law_decimal(n: nat)
    ensures
        decimal(n).len() > 0,
        forall|i: int| 0 <= i < decimal(n).len() ==> 48 <= (#[trigger] decimal(n)[i]) as u32 <= 57,
        n > 0 ==> decimal(n)[0] as u32 != 48,
        n == 0 ==> decimal(n).len() == 1,
        decimal_value(decimal(n)) == n,
    decreases n,
{
    if n < 10 {
        lemma_digit(n);
        reveal_with_fuel(decimal_value, 2);
        assert(decimal(n).drop_last() =~= Seq::<char>::empty());
    } else {
        law_decimal(n / 10);
        lemma_digit(n % 10);
        assert(decimal(n).drop_last() =~= decimal(n / 10));
    }
}

proof fn lemma_digit(d: nat)
    requires
        d < 10,
    ensures
        digit(d) as u32 == 48 + d,
{
}

/// A date that can be written out is shown as it is written out, and no date is shown as nothing.
pub proof fn law_dates(t: Timestamp)
    ensures
        date_text(None).len() == 0,
        is_date(Some(t)) <==> rfc3339_text(t.secs as int, t.nanos as int) is Some,
        is_date(Some(t)) ==> rfc3339_text(t.secs as int, t.nanos as int) == Some(
            date_text(Some(t)),
        ),
{
}

/// An entry that is looked up shows all that it holds; in a listing it shows the same, but under
/// its key and without its content.
pub proof fn law_objects(key: Seq<char>, e: EntryView)
    ensures
        full_object(e).name == e.name,
        full_object(e).dir == e.dir,
        full_object(e).date == date_text(e.date),
        full_object(e).comment == e.comment,
        full_object(e).unsafe_original_name == e.unsafe_original_name,
        full_object(e).data == e.data,
        e.data matches Some(d) ==> full_object(e).content() == d,
        e.data is None ==> full_object(e).content().len() == 0,
        listed_object(key, e).name == key,
        listed_object(key, e).dir == e.dir,
        listed_object(key, e).date == date_text(e.date),
        listed_object(key, e).comment == e.comment,
        listed_object(key, e).unsafe_original_name == e.unsafe_original_name,
        listed_object(key, e).data is None,
{
}

/// The properties of an object are six, and each has the value that the object shows.
pub proof fn law_properties(list: Seq<(&'static str, Property)>, o: ObjectView)
    requires
        property_views(list) == properties(o),
    ensures
        list.len() == 6,
        list[0].0@ == "name"@ && (list[0].1 matches Property::Text(s) && s@ == o.name),
        list[1].0@ == "dir"@ && list[1].1 == Property::Flag(o.dir),
        list[2].0@ == "date"@ && (list[2].1 matches Property::Text(s) && s@ == o.date),
        list[3].0@ == "comment"@ && (list[3].1 matches Property::Text(s) && s@ == o.comment),
        list[4].0@ == "unsafeOriginalName"@ && match o.unsafe_original_name {
            Some(n) => list[4].1 matches Property::Text(s) && s@ == n,
            None => list[4].1 is Null,
        },
        list[5].0@ == "data"@ && match o.data {
            Some(d) => list[5].1 matches Property::Bytes(v) && v@ == d,
            None => list[5].1 is Null,
        },
{
    let views = property_views(list);
    assert(views.len() == list.len());
    assert(views[0] == (list[0].0@, list[0].1@));
    assert(views[1] == (list[1].0@, list[1].1@));
    assert(views[2] == (list[2].0@, list[2].1@));
    assert(views[3] == (list[3].0@, list[3].1@));
    assert(views[4] == (list[4].0@, list[4].1@));
    assert(views[5] == (list[5].0@, list[5].1@));
}

/// The message of an error names what went wrong and then its cause.
pub proof fn law_messages(cause: String)
    ensures
        ZiperError::Zip(cause).text() == "Zip error: "@ + cause@,
        ZiperError::Io(cause).text() == "IO error: "@ + cause@,
        ZiperError::InvalidArgument(cause).text() == "Invalid argument: "@ + cause@,
{
}

} // verus!
