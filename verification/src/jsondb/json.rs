//! Documents as JSON text.

use vstd::prelude::*;
use vstd::string::*;
use crate::bytes::copy_bytes;
use crate::error::FlowError;
use crate::jsondb::encoding;
use crate::jsondb::encoding::JsonValue;
use crate::text;
use crate::text::{debug_str, decimal, join, signed_decimal};

verus! {

/// A parsed JSON value of `serde_json`.
#[verifier::external_type_specification]
#[verifier::external_body]
pub struct ExValue(serde_json::Value);

/// A number of `serde_json`.
#[verifier::external_type_specification]
#[verifier::external_body]
pub struct ExNumber(serde_json::Number);

/// What `serde_json::from_slice` makes of bytes: the value that they hold as JSON
/// text, or the text of an error.
pub uninterp spec fn json_parsed(bytes: Seq<u8>) -> Result<JsonValue, Seq<char>>;

/// A character of a string as JSON has it: a quote, a backslash and the control
/// characters are escaped, those by a letter for which there is one, the others by
/// their number.
pub open spec fn escaped_char(c: char) -> Seq<char> {
    let n = c as u32;
    if c == '"' || c == '\\' {
        seq!['\\', c]
    } else if n == 8 {
        seq!['\\', 'b']
    } else if n == 9 {
        seq!['\\', 't']
    } else if n == 10 {
        seq!['\\', 'n']
    } else if n == 12 {
        seq!['\\', 'f']
    } else if n == 13 {
        seq!['\\', 'r']
    } else if n < 32 {
        seq!['\\', 'u', '0', '0', text::digit_char(n as int / 16), text::digit_char(n as int % 16)]
    } else {
        seq![c]
    }
}

/// The characters of a string as JSON has them.
pub open spec fn escaped(s: Seq<char>) -> Seq<char>
    decreases s.len(),
{
    if s.len() == 0 {
        Seq::empty()
    } else {
        escaped_char(s[0]) + escaped(s.drop_first())
    }
}

/// A string as JSON has it: its characters, escaped, in quotes.
pub open spec fn json_quoted(s: Seq<char>) -> Seq<char> {
    seq!['"'] + escaped(s) + seq!['"']
}

/// Whether the outcome of parsing is this one.
pub open spec fn is_outcome(
    r: Result<JsonValue, String>,
    outcome: Result<JsonValue, Seq<char>>,
) -> bool {
    match outcome {
        Ok(value) => r matches Ok(v) && encoding::same_value(v, value),
        Err(why) => r matches Err(e) && e@ == why,
    }
}

/// Moves a number of `serde_json`, which is of one of three kinds, into the library's
/// type. Nothing is claimed of the result here: [`parse_json`] names what comes of
/// the whole text.
#[verifier::external_body]
fn number_value(n: &serde_json::Number) -> (r: JsonValue) {
    match (n.as_i64(), n.as_u64()) {
        (Some(i), _) => JsonValue::Int(i),
        (_, Some(u)) => JsonValue::UInt(u),
        _ => JsonValue::Float { bits: n.as_f64().map_or(0, |x| x.to_bits()), text: n.to_string() },
    }
}

/// Moves a value of `serde_json`, variant by variant, into the library's type. Nothing
/// is claimed of the result here: [`parse_json`] names what comes of the whole text.
#[verifier::external_body]
fn plain_value(value: &serde_json::Value) -> (r: JsonValue) {
    match value {
        serde_json::Value::Null => JsonValue::Null,
        serde_json::Value::Bool(b) => JsonValue::Bool(*b),
        serde_json::Value::Number(n) => number_value(n),
        serde_json::Value::String(s) => JsonValue::Str(s.clone()),
        serde_json::Value::Array(list) => {
            JsonValue::Array { items: list.iter().map(plain_value).collect() }
        },
        serde_json::Value::Object(map) => {
            let entries = map.iter().map(|(k, v)| (k.clone(), plain_value(v))).collect();
            JsonValue::Object { entries }
        },
    }
}

/// Calls `serde_json::from_slice`, for a value of any shape. The result is named; it
/// depends on the bytes alone.
#[verifier::external_body]
fn parse_json(bytes: &[u8]) -> (r: Result<JsonValue, String>)
    ensures
        is_outcome(r, json_parsed(bytes@)),
{
    match serde_json::from_slice::<serde_json::Value>(bytes) {
        Ok(value) => Ok(plain_value(&value)),
        Err(e) => Err(e.to_string()),
    }
}

/// Calls `serde_json::to_string` on a string, which does not fail and writes the
/// string in quotes, with the escapes of [`escaped_char`].
#[verifier::external_body]
fn quote_json(s: &str) -> (r: String)
    ensures
        r@ == json_quoted(s@),
{
    serde_json::to_string(s).unwrap_or_default()
}

/// A document as JSON text, without spaces.
pub open spec fn json_text(doc: JsonValue) -> Seq<char>
    decreases doc, 0nat,
{
    match doc {
        JsonValue::Null => "null"@,
        JsonValue::Bool(true) => "true"@,
        JsonValue::Bool(false) => "false"@,
        JsonValue::Int(n) => text::signed_text(n as int),
        JsonValue::UInt(n) => text::decimal_text(n as nat),
        JsonValue::Float { text, .. } => text@,
        JsonValue::Str(s) => json_quoted(s@),
        JsonValue::Array { items } => "["@ + json_items(items@, items@.len()) + "]"@,
        JsonValue::Object { entries } => "{"@ + json_entries(entries@, entries@.len()) + "}"@,
    }
}

/// The first values of a list as JSON text.
pub open spec fn json_items(items: Seq<JsonValue>, n: nat) -> Seq<char>
    decreases items, n,
{
    if n == 0 || n > items.len() {
        Seq::empty()
    } else if n == 1 {
        json_text(items[0])
    } else {
        json_items(items, (n - 1) as nat) + ","@ + json_text(items[n - 1])
    }
}

/// The first entries of an object as JSON text.
pub open spec fn json_entries(entries: Seq<(String, JsonValue)>, n: nat) -> Seq<char>
    decreases entries, n,
{
    if n == 0 || n > entries.len() {
        Seq::empty()
    } else {
        let entry = json_quoted(entries[n - 1].0@) + ":"@ + json_text(entries[n - 1].1);
        if n == 1 {
            entry
        } else {
            json_entries(entries, (n - 1) as nat) + ","@ + entry
        }
    }
}

/// Values that are the same are written the same.
pub proof fn lemma_same_text(a: JsonValue, b: JsonValue)
    requires
        encoding::same_value(a, b),
    ensures
        json_text(a) == json_text(b),
    decreases a, 0nat,
{
    match (a, b) {
        (JsonValue::Array { items: x }, JsonValue::Array { items: y }) => {
            lemma_same_items(x@, y@, x@.len());
        },
        (JsonValue::Object { entries: x }, JsonValue::Object { entries: y }) => {
            lemma_same_entries(x@, y@, x@.len());
        },
        _ => {},
    }
}

proof fn lemma_same_items(a: Seq<JsonValue>, b: Seq<JsonValue>, n: nat)
    requires
        a.len() == b.len(),
        forall|i: int| 0 <= i < a.len() ==> encoding::same_value(#[trigger] a[i], b[i]),
    ensures
        json_items(a, n) == json_items(b, n),
    decreases a, n,
{
    if 0 < n && n <= a.len() {
        lemma_same_text(a[n - 1], b[n - 1]);
        if n > 1 {
            lemma_same_items(a, b, (n - 1) as nat);
        }
    }
}

proof fn lemma_same_entries(a: Seq<(String, JsonValue)>, b: Seq<(String, JsonValue)>, n: nat)
    requires
        a.len() == b.len(),
        forall|i: int|
            0 <= i < a.len() ==> (#[trigger] a[i]).0@ == b[i].0@ && encoding::same_value(
                a[i].1,
                b[i].1,
            ),
    ensures
        json_entries(a, n) == json_entries(b, n),
    decreases a, n,
{
    if 0 < n && n <= a.len() {
        assert(a[n - 1].0@ == b[n - 1].0@);
        lemma_same_text(a[n - 1].1, b[n - 1].1);
        if n > 1 {
            lemma_same_entries(a, b, (n - 1) as nat);
        }
    }
}

/// Writes a document as JSON text.
pub fn write_json(doc: &JsonValue) -> (r: String)
    ensures
        r@ == json_text(*doc),
    decreases *doc,
{
    match doc {
        JsonValue::Null => "null".to_owned(),
        JsonValue::Bool(true) => "true".to_owned(),
        JsonValue::Bool(false) => "false".to_owned(),
        JsonValue::Int(n) => signed_decimal(*n),
        JsonValue::UInt(n) => decimal(*n),
        JsonValue::Float { text, .. } => text.clone(),
        JsonValue::Str(s) => quote_json(s.as_str()),
        JsonValue::Array { items } => {
            let mut out: String = "[".to_owned();
            let mut i: usize = 0;
            assert(out@ =~= "["@ + json_items(items@, 0));
            while i < items.len()
                invariant
                    i <= items@.len(),
                    decreases_to!(*doc => *items),
                    out@ == "["@ + json_items(items@, i as nat),
                decreases items@.len() - i,
            {
                assert(decreases_to!(*items => items@));
                assert(decreases_to!(items@ => items@[i as int]));
                let ghost start = json_items(items@, i as nat);
                let item = write_json(&items[i]);
                if i > 0 {
                    out = join(out.as_str(), ",");
                }
                out = join(out.as_str(), item.as_str());
                proof {
                    if i > 0 {
                        assert(out@ =~= "["@ + (start + ","@ + item@));
                    } else {
                        assert(out@ =~= "["@ + item@);
                    }
                }
                i += 1;
            }
            join(out.as_str(), "]")
        },
        JsonValue::Object { entries } => {
            let mut out: String = "{".to_owned();
            let mut i: usize = 0;
            assert(out@ =~= "{"@ + json_entries(entries@, 0));
            while i < entries.len()
                invariant
                    i <= entries@.len(),
                    decreases_to!(*doc => *entries),
                    out@ == "{"@ + json_entries(entries@, i as nat),
                decreases entries@.len() - i,
            {
                assert(decreases_to!(*entries => entries@));
                assert(decreases_to!(entries@ => entries@[i as int]));
                assert(decreases_to!(entries@[i as int] => entries@[i as int].1));
                let ghost start = json_entries(entries@, i as nat);
                let name = quote_json(entries[i].0.as_str());
                let item = write_json(&entries[i].1);
                if i > 0 {
                    out = join(out.as_str(), ",");
                }
                out = join(out.as_str(), name.as_str());
                out = join(out.as_str(), ":");
                out = join(out.as_str(), item.as_str());
                proof {
                    let entry = name@ + ":"@ + item@;
                    if i > 0 {
                        assert(out@ =~= "{"@ + (start + ","@ + entry));
                    } else {
                        assert(out@ =~= "{"@ + entry);
                    }
                }
                i += 1;
            }
            join(out.as_str(), "}")
        },
    }
}

/// The bytes that a document is stored as.
pub fn encode_doc(doc: &JsonValue) -> (r: Result<Vec<u8>, FlowError>)
    ensures
        r matches Ok(bytes) && bytes@ == text::utf8(json_text(*doc)),
{
    let written = write_json(doc);
    Ok(copy_bytes(written.as_str().as_bytes()))
}

/// A value as an error shows it: its kind, and what it holds.
pub open spec fn shown(value: JsonValue) -> Seq<char>
    decreases value, 0nat,
{
    match value {
        JsonValue::Null => "Null"@,
        JsonValue::Bool(true) => "Bool(true)"@,
        JsonValue::Bool(false) => "Bool(false)"@,
        JsonValue::Str(s) => "String("@ + text::debug_text(s@) + ")"@,
        JsonValue::Array { items } => "Array ["@ + shown_items(items@, items@.len()) + "]"@,
        JsonValue::Object { entries } => "Object {"@ + shown_entries(entries@, entries@.len())
            + "}"@,
        _ => "Number("@ + json_text(value) + ")"@,
    }
}

/// The first values of a list as an error shows them.
pub open spec fn shown_items(items: Seq<JsonValue>, n: nat) -> Seq<char>
    decreases items, n,
{
    if n == 0 || n > items.len() {
        Seq::empty()
    } else if n == 1 {
        shown(items[0])
    } else {
        shown_items(items, (n - 1) as nat) + ", "@ + shown(items[n - 1])
    }
}

/// The first entries of an object as an error shows them.
pub open spec fn shown_entries(entries: Seq<(String, JsonValue)>, n: nat) -> Seq<char>
    decreases entries, n,
{
    if n == 0 || n > entries.len() {
        Seq::empty()
    } else {
        let entry = text::debug_text(entries[n - 1].0@) + ": "@ + shown(entries[n - 1].1);
        if n == 1 {
            entry
        } else {
            shown_entries(entries, (n - 1) as nat) + ", "@ + entry
        }
    }
}

/// The values of an index entry as an error shows them.
pub open spec fn shown_values(values: Seq<JsonValue>) -> Seq<char> {
    "["@ + shown_items(values, values.len()) + "]"@
}

/// A value as an error shows it.
fn show(value: &JsonValue) -> (r: String)
    ensures
        r@ == shown(*value),
    decreases *value,
{
    match value {
        JsonValue::Null => "Null".to_owned(),
        JsonValue::Bool(true) => "Bool(true)".to_owned(),
        JsonValue::Bool(false) => "Bool(false)".to_owned(),
        JsonValue::Str(s) => {
            let quoted = debug_str(s.as_str());
            let front = join("String(", quoted.as_str());
            join(front.as_str(), ")")
        },
        JsonValue::Array { items } => {
            let mut out: String = "Array [".to_owned();
            let mut i: usize = 0;
            assert(out@ =~= "Array ["@ + shown_items(items@, 0));
            while i < items.len()
                invariant
                    i <= items@.len(),
                    decreases_to!(*value => *items),
                    out@ == "Array ["@ + shown_items(items@, i as nat),
                decreases items@.len() - i,
            {
                assert(decreases_to!(*items => items@));
                assert(decreases_to!(items@ => items@[i as int]));
                let ghost start = shown_items(items@, i as nat);
                let item = show(&items[i]);
                if i > 0 {
                    out = join(out.as_str(), ", ");
                }
                out = join(out.as_str(), item.as_str());
                proof {
                    if i > 0 {
                        assert(out@ =~= "Array ["@ + (start + ", "@ + item@));
                    } else {
                        assert(out@ =~= "Array ["@ + item@);
                    }
                }
                i += 1;
            }
            join(out.as_str(), "]")
        },
        JsonValue::Object { entries } => {
            let mut out: String = "Object {".to_owned();
            let mut i: usize = 0;
            assert(out@ =~= "Object {"@ + shown_entries(entries@, 0));
            while i < entries.len()
                invariant
                    i <= entries@.len(),
                    decreases_to!(*value => *entries),
                    out@ == "Object {"@ + shown_entries(entries@, i as nat),
                decreases entries@.len() - i,
            {
                assert(decreases_to!(*entries => entries@));
                assert(decreases_to!(entries@ => entries@[i as int]));
                assert(decreases_to!(entries@[i as int] => entries@[i as int].1));
                let ghost start = shown_entries(entries@, i as nat);
                let name = debug_str(entries[i].0.as_str());
                let item = show(&entries[i].1);
                if i > 0 {
                    out = join(out.as_str(), ", ");
                }
                out = join(out.as_str(), name.as_str());
                out = join(out.as_str(), ": ");
                out = join(out.as_str(), item.as_str());
                proof {
                    let entry = name@ + ": "@ + item@;
                    if i > 0 {
                        assert(out@ =~= "Object {"@ + (start + ", "@ + entry));
                    } else {
                        assert(out@ =~= "Object {"@ + entry);
                    }
                }
                i += 1;
            }
            join(out.as_str(), "}")
        },
        _ => {
            let written = write_json(value);
            let front = join("Number(", written.as_str());
            join(front.as_str(), ")")
        },
    }
}

/// The values of an index entry as an error shows them.
pub fn show_values(values: &Vec<&JsonValue>) -> (r: String)
    ensures
        r@ == shown_values(encoding::values_of(values@)),
{
    let ghost list = encoding::values_of(values@);
    let mut out: String = "[".to_owned();
    let mut i: usize = 0;
    assert(out@ =~= "["@ + shown_items(list, 0));
    while i < values.len()
        invariant
            i <= values@.len(),
            list == encoding::values_of(values@),
            out@ == "["@ + shown_items(list, i as nat),
        decreases values@.len() - i,
    {
        let ghost start = shown_items(list, i as nat);
        let item = show(values[i]);
        if i > 0 {
            out = join(out.as_str(), ", ");
        }
        out = join(out.as_str(), item.as_str());
        proof {
            assert(list[i as int] == *values@[i as int]);
            if i > 0 {
                assert(out@ =~= "["@ + (start + ", "@ + item@));
            } else {
                assert(out@ =~= "["@ + item@);
            }
        }
        i += 1;
    }
    join(out.as_str(), "]")
}

/// The document that bytes hold.
pub fn decode_doc(bytes: &[u8]) -> (r: Result<JsonValue, FlowError>)
    ensures
        match json_parsed(bytes@) {
            Ok(value) => r matches Ok(doc) && encoding::same_value(doc, value),
            Err(why) => r matches Err(FlowError::Json(e)) && e@ == why,
        },
{
    match parse_json(bytes) {
        Ok(doc) => Ok(doc),
        Err(e) => Err(FlowError::Json(e)),
    }
}

} // verus!
