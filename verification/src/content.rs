//! Contents on their way in and out: what a given value means as bytes, and the forms in which
//! bytes are handed back.
use crate::entry::text_of;
use crate::text::{concat, same_text};
use base64::Engine;
use vstd::prelude::*;
use vstd::utf8::{encode_utf8_decode_utf8, encode_utf8_valid_utf8};
use vstd::utf8::{encode_utf8, valid_utf8};

verus! {

/// A value that is given as a content. The elements of an array are numbers, each as the byte
/// that it is cut down to, or something else.
pub enum JsData {
    Uint8Array(Vec<u8>),
    ArrayBuffer(Vec<u8>),
    Text(String),
    Array(Vec<Option<u8>>),
    Other,
}

/// What `base64::Engine::decode` of the standard engine makes of a text; `None` where it refuses
/// it.
pub uninterp spec fn base64_decoded(text: Seq<char>) -> Option<Seq<u8>>;

/// What `base64::Engine::encode` of the standard engine makes of bytes.
pub uninterp spec fn base64_encoded(data: Seq<u8>) -> Seq<char>;

/// What `String::from_utf8_lossy` makes of bytes.
pub uninterp spec fn utf8_lossy(data: Seq<u8>) -> Seq<char>;

/// Calls `base64::Engine::decode` of `base64::engine::general_purpose::STANDARD`. Claimed: which
/// bytes come out, or that the text is refused, depends on the text alone.
#[verifier::external_body]
fn decode_base64(text: &str) -> (r: Option<Vec<u8>>)
    ensures
        match r {
            Some(data) => base64_decoded(text@) == Some(data@),
            None => base64_decoded(text@) is None,
        },
{
    match base64::engine::general_purpose::STANDARD.decode(text) {
        Ok(data) => Some(data),
        Err(_) => None,
    }
}

/// How many bytes can be written in base64: the text must fit in memory.
pub open spec fn base64_limit() -> int {
    isize::MAX / 4 * 3
}

/// Calls `base64::Engine::encode` of `base64::engine::general_purpose::STANDARD`. The function
/// panics where the text would not fit in memory. Claimed: the text depends on the bytes alone,
/// and decoding it gives the bytes back.
#[verifier::external_body]
fn encode_base64(data: &Vec<u8>) -> (r: String)
    requires
        data@.len() <= base64_limit(),
    ensures
        r@ == base64_encoded(data@),
        base64_decoded(r@) == Some(data@),
{
    base64::engine::general_purpose::STANDARD.encode(data)
}

/// Calls `String::from_utf8_lossy`. Claimed: the text depends on the bytes alone, and where the
/// bytes are UTF-8 they are those of the text.
#[verifier::external_body]
pub(crate) fn lossy_text(data: &Vec<u8>) -> (r: String)
    ensures
        r@ == utf8_lossy(data@),
        valid_utf8(data@) ==> encode_utf8(r@) == data@,
{
    String::from_utf8_lossy(data).to_string()
}

/// The bytes among optional bytes.
pub open spec fn numbers(a: Seq<Option<u8>>) -> Seq<u8>
    decreases a.len(),
{
    if a.len() == 0 {
        Seq::<u8>::empty()
    } else {
        match a.last() {
            Some(b) => numbers(a.drop_last()).push(b),
            None => numbers(a.drop_last()),
        }
    }
}

/// The bytes that a text stands for: what it decodes to where it is base64, and its UTF-8
/// otherwise.
pub open spec fn text_content(text: Seq<char>, decoded: Option<Seq<u8>>) -> Seq<u8> {
    match decoded {
        Some(data) => data,
        None => encode_utf8(text),
    }
}

/// The bytes that a given value stands for, or the message with which it is refused.
pub open spec fn content_of(value: JsData) -> Result<Seq<u8>, Seq<char>> {
    match value {
        JsData::Uint8Array(v) => Ok(v@),
        JsData::ArrayBuffer(v) => Ok(v@),
        JsData::Text(s) => Ok(text_content(s@, base64_decoded(s@))),
        JsData::Array(a) => Ok(numbers(a@)),
        JsData::Other => Err(
            "Unsupported data type. Expected Uint8Array, ArrayBuffer, string, or Array."@,
        ),
    }
}

/// The bytes that a text stands for, given what it decodes to as base64.
pub fn text_bytes(text: &str, decoded: Option<Vec<u8>>) -> (r: Vec<u8>)
    ensures
        r@ == text_content(
            text@,
            match decoded {
                Some(data) => Some(data@),
                None => None,
            },
        ),
{
    match decoded {
        Some(data) => data,
        None => vstd::slice::slice_to_vec(text.as_bytes()),
    }
}

/// The bytes that a given value stands for.
pub fn js_value_to_vec_u8(value: JsData) -> (r: Result<Vec<u8>, String>)
    ensures
        match r {
            Ok(data) => content_of(value) == Ok::<Seq<u8>, Seq<char>>(data@),
            Err(message) => content_of(value) == Err::<Seq<u8>, Seq<char>>(message@),
        },
{
    match value {
        JsData::Uint8Array(v) => Ok(v),
        JsData::ArrayBuffer(v) => Ok(v),
        JsData::Text(s) => {
            let decoded = decode_base64(&s);
            Ok(text_bytes(&s, decoded))
        },
        JsData::Array(a) => {
            let mut data: Vec<u8> = Vec::new();
            let n: usize = a.len();
            for i in 0..n
                invariant
                    n == a@.len(),
                    data@ == numbers(a@.take(i as int)),
            {
                assert(a@.take(i as int + 1).drop_last() == a@.take(i as int));
                if let Some(b) = a[i] {
                    data.push(b);
                }
            }
            assert(a@.take(n as int) == a@);
            Ok(data)
        },
        JsData::Other => Err(
            "Unsupported data type. Expected Uint8Array, ArrayBuffer, string, or Array.".to_string(),
        ),
    }
}

/// Bytes in the form in which they are handed back.
pub enum Output {
    Uint8Array(Vec<u8>),
    ArrayBuffer(Vec<u8>),
    Text(String),
    Array(Vec<u8>),
    Blob(Vec<u8>, String),
}

/// What is handed back.
pub enum OutputView {
    Uint8Array(Seq<u8>),
    ArrayBuffer(Seq<u8>),
    Text(Seq<char>),
    Array(Seq<u8>),
    Blob(Seq<u8>, Seq<char>),
}

impl View for Output {
    type V = OutputView;

    open spec fn view(&self) -> OutputView {
        match self {
            Output::Uint8Array(v) => OutputView::Uint8Array(v@),
            Output::ArrayBuffer(v) => OutputView::ArrayBuffer(v@),
            Output::Text(s) => OutputView::Text(s@),
            Output::Array(v) => OutputView::Array(v@),
            Output::Blob(v, mime) => OutputView::Blob(v@, mime@),
        }
    }
}

/// Whether an output or a message is what was asked for.
pub open spec fn is_output(
    r: Result<Output, String>,
    expected: Result<OutputView, Seq<char>>,
) -> bool {
    match r {
        Ok(output) => expected == Ok::<OutputView, Seq<char>>(output@),
        Err(message) => expected == Err::<OutputView, Seq<char>>(message@),
    }
}

/// Whether base64 is asked for.
pub open spec fn wants_base64(kind: Option<Seq<char>>) -> bool {
    kind == Some("base64"@)
}

/// Whether so many bytes can be written in base64.
pub fn fits_base64(len: usize) -> (r: bool)
    ensures
        r == (len <= base64_limit()),
        r == ((len + 2) / 3 * 4 <= isize::MAX),
{
    len <= isize::MAX as usize / 4 * 3
}

/// The content of a file in a form that is asked for by name, or the message with which the
/// name is refused.
pub open spec fn file_output(data: Seq<u8>, kind: Seq<char>) -> Result<OutputView, Seq<char>> {
    if kind == "uint8array"@ || kind == "nodebuffer"@ {
        Ok(OutputView::Uint8Array(data))
    } else if kind == "arraybuffer"@ {
        Ok(OutputView::ArrayBuffer(data))
    } else if kind == "string"@ || kind == "binarystring"@ {
        Ok(OutputView::Text(utf8_lossy(data)))
    } else if kind == "base64"@ {
        Ok(OutputView::Text(base64_encoded(data)))
    } else if kind == "array"@ {
        Ok(OutputView::Array(data))
    } else if kind == "blob"@ {
        Ok(OutputView::Blob(data, "application/octet-stream"@))
    } else {
        Err("Unsupported type: "@ + kind)
    }
}

/// A text with one character for each byte.
pub open spec fn latin1(data: Seq<u8>) -> Seq<char> {
    Seq::new(data.len(), |i: int| data[i] as char)
}

/// The bytes of an archive in a form that is asked for by name, or the message with which the
/// name is refused. With no name they are handed back as they are; with no media type a blob is
/// a zip archive.
pub open spec fn archive_output(
    data: Seq<u8>,
    kind: Option<Seq<char>>,
    mime: Option<Seq<char>>,
) -> Result<OutputView, Seq<char>> {
    let kind = match kind {
        Some(k) => k,
        None => "uint8array"@,
    };
    if kind == "uint8array"@ || kind == "nodebuffer"@ {
        Ok(OutputView::Uint8Array(data))
    } else if kind == "arraybuffer"@ {
        Ok(OutputView::ArrayBuffer(data))
    } else if kind == "base64"@ {
        Ok(OutputView::Text(base64_encoded(data)))
    } else if kind == "string"@ || kind == "binarystring"@ {
        Ok(OutputView::Text(latin1(data)))
    } else if kind == "array"@ {
        Ok(OutputView::Array(data))
    } else if kind == "blob"@ {
        Ok(
            OutputView::Blob(
                data,
                match mime {
                    Some(m) => m,
                    None => "application/zip"@,
                },
            ),
        )
    } else {
        Err("Unsupported output type: "@ + kind)
    }
}

/// Whether an output is a text that decodes, as base64, to given bytes.
pub open spec fn decodes_to(r: Result<Output, String>, data: Seq<u8>) -> bool {
    match r {
        Ok(Output::Text(s)) => base64_decoded(s@) == Some(data),
        _ => false,
    }
}

/// Whether an output is a text: the one whose UTF-8 the given bytes are, where there is one.
pub open spec fn reads_as_text(r: Result<Output, String>, data: Seq<u8>) -> bool {
    match r {
        Ok(Output::Text(s)) => forall|text: Seq<char>|
            data == #[trigger] encode_utf8(text) ==> s@ == text,
        _ => false,
    }
}

/// The names of the forms are told apart by their lengths, or differ in a character.
pub proof fn lemma_kinds()
    ensures
        "uint8array"@.len() == 10,
        "nodebuffer"@.len() == 10,
        "arraybuffer"@.len() == 11,
        "string"@.len() == 6,
        "binarystring"@.len() == 12,
        "base64"@.len() == 6,
        "array"@.len() == 5,
        "blob"@.len() == 4,
        "string"@ != "base64"@,
{
    reveal_strlit("uint8array");
    reveal_strlit("nodebuffer");
    reveal_strlit("arraybuffer");
    reveal_strlit("string");
    reveal_strlit("binarystring");
    reveal_strlit("base64");
    reveal_strlit("array");
    reveal_strlit("blob");
    assert("base64"@[0] != "string"@[0]);
}

/// The content of a file in a form that is asked for by name.
pub fn file_as(data: Vec<u8>, kind: &str) -> (r: Result<Output, String>)
    requires
        kind@ == "base64"@ ==> data@.len() <= base64_limit(),
    ensures
        is_output(r, file_output(data@, kind@)),
        kind@ == "base64"@ ==> decodes_to(r, data@),
        kind@ == "string"@ || kind@ == "binarystring"@ ==> reads_as_text(r, data@),
        r matches Ok(Output::Uint8Array(v)) ==> v@ == data@,
        r matches Ok(Output::ArrayBuffer(v)) ==> v@ == data@,
        r matches Ok(Output::Array(v)) ==> v@ == data@,
        r matches Ok(Output::Blob(v, _)) ==> v@ == data@,
{
    proof {
        lemma_kinds();
    }
    if same_text(kind, "uint8array") || same_text(kind, "nodebuffer") {
        Ok(Output::Uint8Array(data))
    } else if same_text(kind, "arraybuffer") {
        Ok(Output::ArrayBuffer(data))
    } else if same_text(kind, "string") || same_text(kind, "binarystring") {
        let s = lossy_text(&data);
        proof {
            assert forall|text: Seq<char>| data@ == #[trigger] encode_utf8(text) implies s@
                == text by {
                encode_utf8_valid_utf8(text);
                encode_utf8_decode_utf8(text);
                encode_utf8_decode_utf8(s@);
            }
        }
        Ok(Output::Text(s))
    } else if same_text(kind, "base64") {
        Ok(Output::Text(encode_base64(&data)))
    } else if same_text(kind, "array") {
        Ok(Output::Array(data))
    } else if same_text(kind, "blob") {
        Ok(Output::Blob(data, "application/octet-stream".to_string()))
    } else {
        Err(concat("Unsupported type: ", kind))
    }
}

/// A text with one character for each byte.
fn latin1_text(data: &Vec<u8>) -> (r: String)
    ensures
        r@ == latin1(data@),
{
    let mut s = String::new();
    let n: usize = data.len();
    for i in 0..n
        invariant
            n == data@.len(),
            s@ == latin1(data@.take(i as int)),
    {
        s.push(data[i] as char);
        assert(s@ =~= latin1(data@.take(i as int + 1)));
    }
    assert(data@.take(n as int) == data@);
    s
}

/// The bytes of an archive in a form that is asked for by name.
pub fn archive_as(data: Vec<u8>, kind: &Option<String>, mime: &Option<String>) -> (r: Result<
    Output,
    String,
>)
    requires
        wants_base64(text_of(*kind)) ==> data@.len() <= base64_limit(),
    ensures
        is_output(r, archive_output(data@, text_of(*kind), text_of(*mime))),
        wants_base64(text_of(*kind)) ==> decodes_to(r, data@),
        r matches Ok(Output::Uint8Array(v)) ==> v@ == data@,
        r matches Ok(Output::ArrayBuffer(v)) ==> v@ == data@,
        r matches Ok(Output::Array(v)) ==> v@ == data@,
        r matches Ok(Output::Blob(v, _)) ==> v@ == data@,
{
    proof {
        lemma_kinds();
    }
    let kind = match kind {
        Some(k) => k.clone(),
        None => "uint8array".to_string(),
    };
    if same_text(&kind, "uint8array") || same_text(&kind, "nodebuffer") {
        Ok(Output::Uint8Array(data))
    } else if same_text(&kind, "arraybuffer") {
        Ok(Output::ArrayBuffer(data))
    } else if same_text(&kind, "base64") {
        Ok(Output::Text(encode_base64(&data)))
    } else if same_text(&kind, "string") || same_text(&kind, "binarystring") {
        Ok(Output::Text(latin1_text(&data)))
    } else if same_text(&kind, "array") {
        Ok(Output::Array(data))
    } else if same_text(&kind, "blob") {
        let mime = match mime {
            Some(m) => m.clone(),
            None => "application/zip".to_string(),
        };
        Ok(Output::Blob(data, mime))
    } else {
        Err(concat("Unsupported output type: ", &kind))
    }
}

} // verus!
