//! Handing the processing off to the upstream server: projecting inbound fields
//! through the backend's `pass_fields`, overlaying them on the body
//! template, and extracting the answer along the configured response path.
//! The HTTP call itself is I/O and lives outside the library.
use vstd::prelude::*;
use vstd::string::*;

use crate::api::find_value;
use crate::bytes::{all_dec_digits, dec_ascii, dec_val, parse_dec, str_eq, u64_to_dec};
use crate::config::Backend;

verus! {

/// Failures while building the upstream request or reading its response.
#[derive(Clone, Copy, Debug, PartialEq, Eq, Structural)]
pub enum UpstreamError {
    /// A pass field names a key the inbound body does not carry.
    MissingField,
    /// A pass field declares a type that is not string, int or float.
    UnknownFieldType,
    /// An int field does not parse as a 32-bit signed integer.
    InvalidNumber,
    /// A static header line carries no colon.
    HeaderInvalid,
    /// The backend's body template is not a JSON object.
    TemplateInvalid,
    /// The upstream response is not JSON or lacks the configured path.
    ResponseInvalid,
    /// The value at the configured path is not a string.
    NotString,
}

// ---------------------------------------------------------------------------
// A model of JSON trees
// ---------------------------------------------------------------------------
/// A JSON tree as the library reads it. Numbers are kept as raw decimal
/// text: the proxy never computes with them, and the library holds no
/// floating point.
#[derive(Debug)]
pub enum JsonValue {
    Null,
    Bool(bool),
    Num(Vec<u8>),
    Str(String),
    Arr(Vec<JsonValue>),
    Obj(Vec<(String, JsonValue)>),
}

#[verifier::external_type_specification]
#[verifier::external_body]
pub struct ExSerdeValue(serde_json::Value);

/// Whether a text parses as JSON under `serde_json::from_str`; a function of
/// the text alone.
pub uninterp spec fn json_parses(s: Seq<char>) -> bool;

/// The tree a parseable JSON text denotes, in the library's model; a function
/// of the text alone.
pub uninterp spec fn json_of(s: Seq<char>) -> JsonValue;

/// Relies on the `serde_json::Value` variant accessors: rebuilds the tree in
/// the library's model, one arm per variant, moving the fields.
#[verifier::external_body]
fn json_to_model(v: serde_json::Value) -> JsonValue {
    match v {
        serde_json::Value::Null => JsonValue::Null,
        serde_json::Value::Bool(b) => JsonValue::Bool(b),
        serde_json::Value::Number(n) => JsonValue::Num(n.to_string().into_bytes()),
        serde_json::Value::String(s) => JsonValue::Str(s),
        serde_json::Value::Array(a) => JsonValue::Arr(
            a.into_iter().map(json_to_model).collect(),
        ),
        serde_json::Value::Object(m) => JsonValue::Obj(
            m.into_iter().map(|(k, x)| (k, json_to_model(x))).collect(),
        ),
    }
}

/// Relies on `serde_json::from_str`: parse JSON text into the library's
/// model. Parsing is deterministic in the text, so the result carries the
/// names above; what the tree holds is not axiomatized — every function that
/// reads it is verified for every possible tree.
#[verifier::external_body]
pub fn parse_json(s: &str) -> (r: Option<JsonValue>)
    ensures
        r is Some <==> json_parses(s@),
        r matches Some(j) ==> j == json_of(s@),
{
    match serde_json::from_str::<serde_json::Value>(s) {
        Ok(v) => Some(json_to_model(v)),
        Err(_) => None,
    }
}

/// The first field under a key in an object.
pub open spec fn obj_find(fs: Seq<(String, JsonValue)>, key: Seq<char>) -> Option<JsonValue>
    decreases fs.len(),
{
    if fs.len() == 0 {
        None
    } else if fs[0].0@ == key {
        Some(fs[0].1)
    } else {
        obj_find(fs.drop_first(), key)
    }
}

fn obj_find_rec<'a>(fs: &'a Vec<(String, JsonValue)>, key: &str, i: usize) -> (r: Option<
    &'a JsonValue,
>)
    requires
        i <= fs@.len(),
    ensures
        r matches Some(v) ==> obj_find(fs@.skip(i as int), key@) == Some(*v),
        r is None ==> obj_find(fs@.skip(i as int), key@) is None,
    decreases fs@.len() - i,
{
    if i == fs.len() {
        proof {
            assert(fs@.skip(i as int).len() == 0);
        }
        None
    } else {
        let p = &fs[i];
        proof {
            assert(fs@.skip(i as int)[0] == fs@[i as int]);
            assert(fs@.skip(i as int).drop_first() =~= fs@.skip(i as int + 1));
        }
        if str_eq(p.0.as_str(), key) {
            Some(&p.1)
        } else {
            obj_find_rec(fs, key, i + 1)
        }
    }
}

// ---------------------------------------------------------------------------
// Response extraction
// ---------------------------------------------------------------------------
/// A path segment that is a non-negative array index: decimal digits whose
/// value fits `usize`.
pub open spec fn seg_is_index(seg: Seq<char>) -> bool {
    let b = vstd::utf8::encode_utf8(seg);
    b.len() > 0 && all_dec_digits(b) && dec_val(b) <= usize::MAX
}

pub open spec fn seg_index(seg: Seq<char>) -> nat {
    dec_val(vstd::utf8::encode_utf8(seg))
}

/// Traverse a JSON tree along dotted-path segments: a numeric segment
/// indexes an array, any other segment selects an object key.
pub open spec fn extract_spec(j: JsonValue, segs: Seq<Seq<char>>) -> Option<JsonValue>
    decreases segs.len(),
{
    if segs.len() == 0 {
        Some(j)
    } else if seg_is_index(segs[0]) {
        match j {
            JsonValue::Arr(items) => if seg_index(segs[0]) < items@.len() {
                extract_spec(items@[seg_index(segs[0]) as int], segs.drop_first())
            } else {
                None
            },
            _ => None,
        }
    } else {
        match j {
            JsonValue::Obj(fs) => match obj_find(fs@, segs[0]) {
                Some(x) => extract_spec(x, segs.drop_first()),
                None => None,
            },
            _ => None,
        }
    }
}

/// Traverse the tree along the split response path.
pub fn extract_field<'a>(root: &'a JsonValue, segs: &Vec<String>, i: usize) -> (r: Option<
    &'a JsonValue,
>)
    requires
        i <= segs@.len(),
    ensures
        r matches Some(v) ==> extract_spec(*root, segs.deep_view().skip(i as int)) == Some(*v),
        r is None ==> extract_spec(*root, segs.deep_view().skip(i as int)) is None,
    decreases segs@.len() - i,
{
    if i == segs.len() {
        proof {
            assert(segs.deep_view().skip(i as int).len() == 0);
        }
        Some(root)
    } else {
        let seg = &segs[i];
        proof {
            assert(segs.deep_view().skip(i as int)[0] == segs@[i as int]@);
            assert(segs.deep_view().skip(i as int).drop_first() =~= segs.deep_view().skip(
                i as int + 1,
            ));
        }
        let sb = seg.as_str().as_bytes_vec();
        let idx: Option<u64> = match parse_dec(&sb) {
            Some(v) => if v <= usize::MAX as u64 {
                Some(v)
            } else {
                None
            },
            None => None,
        };
        match idx {
            Some(n) => {
                proof {
                    assert(seg_is_index(segs@[i as int]@));
                }
                match root {
                    JsonValue::Arr(items) => {
                        if (n as usize) < items.len() {
                            extract_field(&items[n as usize], segs, i + 1)
                        } else {
                            None
                        }
                    },
                    _ => None,
                }
            },
            None => {
                proof {
                    assert(!seg_is_index(segs@[i as int]@));
                }
                match root {
                    JsonValue::Obj(fs) => {
                        proof {
                            assert(fs@.skip(0) =~= fs@);
                        }
                        match obj_find_rec(fs, seg.as_str(), 0) {
                            Some(x) => extract_field(x, segs, i + 1),
                            None => None,
                        }
                    },
                    _ => None,
                }
            },
        }
    }
}

/// Split text on a one-character separator; empty pieces are kept.
pub open spec fn split_on(s: Seq<char>, sep: char, i: int) -> Seq<Seq<char>>
    decreases s.len() - i when 0 <= i <= s.len()
    via split_on_decreases
{
    match find_char(s, sep, i) {
        None => seq![s.subrange(i, s.len() as int)],
        Some(j) => seq![s.subrange(i, j)] + split_on(s, sep, j + 1),
    }
}

/// First occurrence of a character at or after `i`.
pub open spec fn find_char(s: Seq<char>, sep: char, i: int) -> Option<int>
    decreases s.len() - i,
{
    if i < 0 || i >= s.len() {
        None
    } else if s[i] == sep {
        Some(i)
    } else {
        find_char(s, sep, i + 1)
    }
}

pub proof fn lemma_find_char_props(s: Seq<char>, sep: char, i: int)
    ensures
        find_char(s, sep, i) matches Some(j) ==> i <= j < s.len() && s[j] == sep,
    decreases s.len() - i,
{
    if !(i < 0 || i >= s.len()) {
        lemma_find_char_props(s, sep, i + 1);
    }
}

#[via_fn]
proof fn split_on_decreases(s: Seq<char>, sep: char, i: int) {
    lemma_find_char_props(s, sep, i);
}

fn find_char_exec(s: &str, sep: char, i: usize) -> (r: Option<usize>)
    requires
        i <= s@.len(),
    ensures
        r matches Some(v) ==> find_char(s@, sep, i as int) == Some(v as int),
        r is None ==> find_char(s@, sep, i as int) is None,
    decreases s@.len() - i,
{
    let n = s.unicode_len();
    if i >= n {
        None
    } else if s.get_char(i) == sep {
        Some(i)
    } else {
        find_char_exec(s, sep, i + 1)
    }
}

/// Split text on a separator character.
pub fn split_text(s: &str, sep: char) -> (r: Vec<String>)
    ensures
        r.deep_view() == split_on(s@, sep, 0),
{
    let mut out: Vec<String> = Vec::new();
    let n = s.unicode_len();
    let mut from: usize = 0;
    loop
        invariant
            0 <= from <= n,
            n == s@.len(),
            split_on(s@, sep, 0) == out.deep_view() + split_on(s@, sep, from as int),
        decreases n - from,
    {
        let ghost pre = out.deep_view();
        match find_char_exec(s, sep, from) {
            Some(j) => {
                proof {
                    lemma_find_char_props(s@, sep, from as int);
                }
                let piece = String::from_str(s.substring_char(from, j));
                out.push(piece);
                proof {
                    assert(out.deep_view() =~= pre.push(s@.subrange(from as int, j as int)));
                    assert(out.deep_view() + split_on(s@, sep, j as int + 1) =~= pre + split_on(
                        s@,
                        sep,
                        from as int,
                    ));
                }
                from = j + 1;
            },
            None => {
                let piece = String::from_str(s.substring_char(from, n));
                out.push(piece);
                proof {
                    assert(out.deep_view() =~= pre.push(s@.subrange(from as int, n as int)));
                    assert(out.deep_view() =~= pre + split_on(s@, sep, from as int));
                    assert(out.deep_view() + Seq::<Seq<char>>::empty() =~= out.deep_view());
                }
                return out;
            },
        }
    }
}

// ---------------------------------------------------------------------------
// Field projection
// ---------------------------------------------------------------------------
/// First position at or after `i` holding one of two bytes.
pub open spec fn find_byte2(s: Seq<u8>, b1: u8, b2: u8, i: int) -> Option<int>
    decreases s.len() - i,
{
    if i < 0 || i >= s.len() {
        None
    } else if s[i] == b1 || s[i] == b2 {
        Some(i)
    } else {
        find_byte2(s, b1, b2, i + 1)
    }
}

pub proof fn lemma_find_byte2_props(s: Seq<u8>, b1: u8, b2: u8, i: int)
    ensures
        find_byte2(s, b1, b2, i) matches Some(j) ==> i <= j < s.len(),
    decreases s.len() - i,
{
    if !(i < 0 || i >= s.len()) {
        lemma_find_byte2_props(s, b1, b2, i + 1);
    }
}

fn find_byte2_exec(s: &Vec<u8>, b1: u8, b2: u8, i: usize) -> (r: Option<usize>)
    requires
        i <= s@.len(),
    ensures
        r matches Some(v) ==> find_byte2(s@, b1, b2, i as int) == Some(v as int),
        r is None ==> find_byte2(s@, b1, b2, i as int) is None,
    decreases s@.len() - i,
{
    if i == s.len() {
        None
    } else if s[i] == b1 || s[i] == b2 {
        Some(i)
    } else {
        find_byte2_exec(s, b1, b2, i + 1)
    }
}

fn digits_in_range(s: &Vec<u8>, from: usize, to: usize) -> (r: bool)
    requires
        from <= to <= s@.len(),
    ensures
        r == all_dec_digits(s@.subrange(from as int, to as int)),
{
    let mut i: usize = from;
    while i < to
        invariant
            from <= i <= to <= s@.len(),
            all_dec_digits(s@.subrange(from as int, i as int)),
        decreases to - i,
    {
        let b = s[i];
        if b < 48 || b > 57 {
            assert(s@.subrange(from as int, to as int)[i - from] == s@[i as int]);
            return false;
        }
        proof {
            assert(s@.subrange(from as int, i as int + 1) =~= s@.subrange(
                from as int,
                i as int,
            ).push(s@[i as int]));
        }
        i = i + 1;
    }
    proof {
        assert(s@.subrange(from as int, i as int) =~= s@.subrange(from as int, to as int));
    }
    true
}

/// A float mantissa: digits, or digits around one point with a digit on at
/// least one side.
pub open spec fn is_mantissa(b: Seq<u8>) -> bool {
    match find_byte2(b, 46, 46, 0) {
        None => b.len() > 0 && all_dec_digits(b),
        Some(i) => b.len() > 1 && all_dec_digits(b.subrange(0, i)) && all_dec_digits(
            b.subrange(i + 1, b.len() as int),
        ),
    }
}

/// A float exponent: an optional sign, then digits.
pub open spec fn is_exponent(b: Seq<u8>) -> bool {
    let body = if b.len() > 0 && (b[0] == 43 || b[0] == 45) {
        b.drop_first()
    } else {
        b
    };
    body.len() > 0 && all_dec_digits(body)
}

/// Finite 32-bit float text: an optional sign, a mantissa, and an optional
/// exponent introduced by `e` or `E`. This is the accepted float grammar
/// minus the non-finite words, which a JSON number cannot carry anyway.
pub open spec fn is_float_text(s: Seq<u8>) -> bool {
    let body = if s.len() > 0 && (s[0] == 43 || s[0] == 45) {
        s.drop_first()
    } else {
        s
    };
    match find_byte2(body, 101, 69, 0) {
        None => is_mantissa(body),
        Some(i) => is_mantissa(body.subrange(0, i)) && is_exponent(
            body.subrange(i + 1, body.len() as int),
        ),
    }
}

fn mantissa_ok(b: &Vec<u8>) -> (r: bool)
    ensures
        r == is_mantissa(b@),
{
    let n = b.len();
    proof {
        assert(b@.subrange(0, n as int) =~= b@);
    }
    match find_byte2_exec(b, 46, 46, 0) {
        None => n > 0 && digits_in_range(b, 0, n),
        Some(i) => {
            proof {
                lemma_find_byte2_props(b@, 46, 46, 0);
            }
            n > 1 && digits_in_range(b, 0, i) && digits_in_range(b, i + 1, n)
        },
    }
}

fn exponent_ok(b: &Vec<u8>) -> (r: bool)
    ensures
        r == is_exponent(b@),
{
    let n = b.len();
    let from: usize = if n > 0 && (b[0] == 43 || b[0] == 45) {
        1
    } else {
        0
    };
    proof {
        if from == 1 {
            assert(b@.subrange(1, n as int) =~= b@.drop_first());
        } else {
            assert(b@.subrange(0, n as int) =~= b@);
        }
    }
    n > from && digits_in_range(b, from, n)
}

/// Whether text denotes a finite 32-bit float.
pub fn float_text_ok(s: &Vec<u8>) -> (r: bool)
    ensures
        r == is_float_text(s@),
{
    let n = s.len();
    let start: usize = if n > 0 && (s[0] == 43 || s[0] == 45) {
        1
    } else {
        0
    };
    let body = crate::bytes::sub_bytes(s, start, n);
    proof {
        if start == 1 {
            assert(body@ =~= s@.drop_first());
        } else {
            assert(body@ =~= s@);
        }
    }
    let m = body.len();
    match find_byte2_exec(&body, 101, 69, 0) {
        None => mantissa_ok(&body),
        Some(i) => {
            proof {
                lemma_find_byte2_props(body@, 101, 69, 0);
            }
            let mant = crate::bytes::sub_bytes(&body, 0, i);
            let exp = crate::bytes::sub_bytes(&body, i + 1, m);
            mantissa_ok(&mant) && exponent_ok(&exp)
        },
    }
}

/// A projected field value, typed by the backend's `pass_fields`
/// declaration. Floating-point fields keep their raw text: the library holds
/// no floats, and the edge turns the text into a JSON number.
#[derive(Debug)]
pub enum FieldValue {
    Str(String),
    Int(i32),
    FloatText(String),
}

/// Signed 32-bit decimal text: an optional sign, then digits, in range.
pub open spec fn i32_text_ok(b: Seq<u8>) -> bool {
    let body = if b.len() > 0 && (b[0] == 43 || b[0] == 45) {
        b.drop_first()
    } else {
        b
    };
    let neg = b.len() > 0 && b[0] == 45;
    body.len() > 0 && all_dec_digits(body) && (if neg {
        dec_val(body) <= 0x8000_0000
    } else {
        dec_val(body) <= 0x7fff_ffff
    })
}

pub open spec fn i32_text_val(b: Seq<u8>) -> int {
    let body = if b.len() > 0 && (b[0] == 43 || b[0] == 45) {
        b.drop_first()
    } else {
        b
    };
    if b.len() > 0 && b[0] == 45 {
        -(dec_val(body) as int)
    } else {
        dec_val(body) as int
    }
}

/// Parse signed 32-bit decimal text.
pub fn parse_i32(b: &Vec<u8>) -> (r: Option<i32>)
    ensures
        r is Some <==> i32_text_ok(b@),
        r matches Some(v) ==> v == i32_text_val(b@),
{
    let n = b.len();
    if n == 0 {
        return None;
    }
    let first = b[0];
    let signed = first == 43 || first == 45;
    let neg = first == 45;
    let body = if signed {
        crate::bytes::sub_bytes(b, 1, n)
    } else {
        crate::bytes::sub_bytes(b, 0, n)
    };
    proof {
        if signed {
            assert(body@ =~= b@.drop_first());
        } else {
            assert(body@ =~= b@);
        }
    }
    match parse_dec(&body) {
        Some(v) => {
            if neg {
                if v <= 0x8000_0000u64 {
                    Some((-(v as i64)) as i32)
                } else {
                    None
                }
            } else {
                if v <= 0x7fff_ffffu64 {
                    Some(v as i32)
                } else {
                    None
                }
            }
        },
        None => None,
    }
}

/// Whether a field value fits its declared type and source text.
pub open spec fn field_matches(v: FieldValue, ktype: Seq<char>, found: Seq<char>) -> bool {
    if ktype == "string"@ {
        v matches FieldValue::Str(s) && s@ == found
    } else if ktype == "int"@ {
        v matches FieldValue::Int(n) && i32_text_ok(vstd::utf8::encode_utf8(found)) && n
            == i32_text_val(vstd::utf8::encode_utf8(found))
    } else if ktype == "float"@ {
        v matches FieldValue::FloatText(s) && s@ == found
    } else {
        false
    }
}

/// Every pass field can be projected from the inbound body.
pub open spec fn projectable(
    indata: Seq<(String, String)>,
    fields: Seq<(String, String)>,
) -> bool {
    forall|i: int|
        0 <= i < fields.len() ==> {
            let found = find_value(indata, #[trigger] fields[i].0@, 0);
            &&& found is Some
            &&& (fields[i].1@ == "string"@ || fields[i].1@ == "int"@ || fields[i].1@ == "float"@)
            &&& (fields[i].1@ == "int"@ ==> i32_text_ok(
                vstd::utf8::encode_utf8(found.unwrap()),
            ))
            &&& (fields[i].1@ == "float"@ ==> is_float_text(
                vstd::utf8::encode_utf8(found.unwrap()),
            ))
        }
}

/// Validates input fields and passes only the ones that we defined as
/// desirable: project the inbound body through `pass_fields` with type
/// coercion. A missing key rejects the request; an unknown type or a bad
/// number rejects the configuration or the value.
pub fn parse_indata(
    indata: &Vec<(String, String)>,
    pass_fields: &Vec<(String, String)>,
) -> (r: Result<Vec<(String, FieldValue)>, UpstreamError>)
    ensures
        r is Ok <==> projectable(indata@, pass_fields@),
        r matches Ok(out) ==> out@.len() == pass_fields@.len() && forall|i: int|
            0 <= i < out@.len() ==> (#[trigger] out@[i]).0@ == pass_fields@[i].0@ && field_matches(
                out@[i].1,
                pass_fields@[i].1@,
                find_value(indata@, pass_fields@[i].0@, 0).unwrap(),
            ),
{
    proof {
        reveal_strlit("string");
        reveal_strlit("int");
        reveal_strlit("float");
    }
    let mut out: Vec<(String, FieldValue)> = Vec::new();
    let mut i: usize = 0;
    while i < pass_fields.len()
        invariant
            0 <= i <= pass_fields@.len(),
            out@.len() == i,
            forall|j: int|
                0 <= j < i ==> {
                    let found = find_value(indata@, #[trigger] pass_fields@[j].0@, 0);
                    &&& found is Some
                    &&& (pass_fields@[j].1@ == "string"@ || pass_fields@[j].1@ == "int"@
                        || pass_fields@[j].1@ == "float"@)
                    &&& (pass_fields@[j].1@ == "int"@ ==> i32_text_ok(
                        vstd::utf8::encode_utf8(found.unwrap()),
                    ))
                    &&& (pass_fields@[j].1@ == "float"@ ==> is_float_text(
                        vstd::utf8::encode_utf8(found.unwrap()),
                    ))
                },
            forall|j: int|
                0 <= j < i ==> (#[trigger] out@[j]).0@ == pass_fields@[j].0@ && field_matches(
                    out@[j].1,
                    pass_fields@[j].1@,
                    find_value(indata@, pass_fields@[j].0@, 0).unwrap(),
                ),
        decreases pass_fields@.len() - i,
    {
        proof {
            reveal_strlit("string");
            reveal_strlit("int");
            reveal_strlit("float");
            assert(("string"@).len() == 6);
            assert(("int"@).len() == 3);
            assert(("float"@).len() == 5);
        }
        let field = &pass_fields[i];
        let val = match crate::api::find_value_exec(indata, field.0.as_str()) {
            Some(v) => v,
            None => {
                return Err(UpstreamError::MissingField);
            },
        };
        let fv: FieldValue = if str_eq(field.1.as_str(), "string") {
            FieldValue::Str(String::from_str(val.as_str()))
        } else if str_eq(field.1.as_str(), "int") {
            let vb = val.as_str().as_bytes_vec();
            match parse_i32(&vb) {
                Some(n) => {
                    proof {
                        assert(vb@ == vstd::utf8::encode_utf8(val@));
                        assert(find_value(indata@, pass_fields@[i as int].0@, 0) == Some(val@));
                        assert(i32_text_ok(vstd::utf8::encode_utf8(
                            find_value(indata@, pass_fields@[i as int].0@, 0).unwrap(),
                        )));
                    }
                    FieldValue::Int(n)
                },
                None => {
                    return Err(UpstreamError::InvalidNumber);
                },
            }
        } else if str_eq(field.1.as_str(), "float") {
            let vb = val.as_str().as_bytes_vec();
            if float_text_ok(&vb) {
                proof {
                    assert(vb@ == vstd::utf8::encode_utf8(val@));
                    assert(find_value(indata@, pass_fields@[i as int].0@, 0) == Some(val@));
                    assert(is_float_text(vstd::utf8::encode_utf8(
                        find_value(indata@, pass_fields@[i as int].0@, 0).unwrap(),
                    )));
                }
                FieldValue::FloatText(String::from_str(val.as_str()))
            } else {
                return Err(UpstreamError::InvalidNumber);
            }
        } else {
            return Err(UpstreamError::UnknownFieldType);
        };
        let key = String::from_str(field.0.as_str());
        out.push((key, fv));
        proof {
            assert(find_value(indata@, pass_fields@[i as int].0@, 0) is Some);
            assert(out@[i as int].0@ == pass_fields@[i as int].0@);
            assert(field_matches(
                out@[i as int].1,
                pass_fields@[i as int].1@,
                find_value(indata@, pass_fields@[i as int].0@, 0).unwrap(),
            ));
            assert(pass_fields@[i as int].1@ == "string"@ || pass_fields@[i as int].1@ == "int"@
                || pass_fields@[i as int].1@ == "float"@);
            assert(pass_fields@[i as int].1@ == "int"@ ==> i32_text_ok(
                vstd::utf8::encode_utf8(
                    find_value(indata@, pass_fields@[i as int].0@, 0).unwrap(),
                ),
            ));
            assert(pass_fields@[i as int].1@ == "float"@ ==> is_float_text(
                vstd::utf8::encode_utf8(
                    find_value(indata@, pass_fields@[i as int].0@, 0).unwrap(),
                ),
            ));
        }
        i = i + 1;
    }
    Ok(out)
}

// ---------------------------------------------------------------------------
// Overlay
// ---------------------------------------------------------------------------
/// A JSON value carrying a projected field.
pub open spec fn fv_rel(j: JsonValue, f: FieldValue) -> bool {
    match f {
        FieldValue::Str(s) => j matches JsonValue::Str(t) && t@ == s@,
        FieldValue::Int(n) => j matches JsonValue::Num(b) && b@ == i32_dec_bytes(n),
        FieldValue::FloatText(s) => j matches JsonValue::Num(b) && b@ == vstd::utf8::encode_utf8(
            s@,
        ),
    }
}

/// Decimal text of a signed 32-bit number.
pub open spec fn i32_dec_bytes(n: i32) -> Seq<u8> {
    if n < 0 {
        seq![45u8] + dec_ascii((-(n as int)) as nat)
    } else {
        dec_ascii(n as nat)
    }
}

fn fv_to_json(f: &FieldValue) -> (r: JsonValue)
    ensures
        fv_rel(r, *f),
{
    match f {
        FieldValue::Str(s) => JsonValue::Str(String::from_str(s.as_str())),
        FieldValue::Int(n) => {
            let mut b: Vec<u8> = Vec::new();
            let mag: u64 = if *n < 0 {
                b.push(45);
                (-(*n as i64)) as u64
            } else {
                (*n as i64) as u64
            };
            let digits = u64_to_dec(mag);
            crate::bytes::append_bytes(&mut b, &digits);
            proof {
                if *n < 0 {
                    assert(b@ =~= seq![45u8] + dec_ascii((-(*n as int)) as nat));
                } else {
                    assert(b@ =~= dec_ascii(*n as nat));
                }
            }
            JsonValue::Num(b)
        },
        FieldValue::FloatText(s) => JsonValue::Num(s.as_str().as_bytes_vec()),
    }
}

/// Setting a key in an object: replace its first occurrence, or append.
pub open spec fn obj_set(fs: Seq<(String, JsonValue)>, key: String, v: JsonValue) -> Seq<
    (String, JsonValue),
>
    decreases fs.len(),
{
    if fs.len() == 0 {
        seq![(key, v)]
    } else if fs[0].0@ == key@ {
        seq![(key, v)] + fs.drop_first()
    } else {
        seq![fs[0]] + obj_set(fs.drop_first(), key, v)
    }
}

/// After a set, the key maps to the new value and the rest is unchanged.
pub proof fn lemma_obj_set(fs: Seq<(String, JsonValue)>, key: String, v: JsonValue, k: Seq<char>)
    ensures
        k == key@ ==> obj_find(obj_set(fs, key, v), k) == Some(v),
        k != key@ ==> obj_find(obj_set(fs, key, v), k) == obj_find(fs, k),
    decreases fs.len(),
{
    let o = obj_set(fs, key, v);
    if fs.len() == 0 {
        assert(o[0] == (key, v));
        assert(o.drop_first() =~= Seq::<(String, JsonValue)>::empty());
        if k != key@ {
            assert(obj_find(o, k) == obj_find(o.drop_first(), k));
        }
    } else if fs[0].0@ == key@ {
        assert(o[0] == (key, v));
        assert(o.drop_first() =~= fs.drop_first());
        if k != key@ {
            assert(obj_find(o, k) == obj_find(o.drop_first(), k));
            assert(obj_find(fs, k) == obj_find(fs.drop_first(), k));
        }
    } else {
        lemma_obj_set(fs.drop_first(), key, v, k);
        assert(o[0] == fs[0]);
        assert(o.drop_first() =~= obj_set(fs.drop_first(), key, v));
        if k == key@ {
            assert(obj_find(o, k) == obj_find(o.drop_first(), k));
        } else {
            if fs[0].0@ == k {
                assert(obj_find(o, k) == Some(o[0].1));
                assert(obj_find(fs, k) == Some(fs[0].1));
            } else {
                assert(obj_find(o, k) == obj_find(o.drop_first(), k));
                assert(obj_find(fs, k) == obj_find(fs.drop_first(), k));
            }
        }
    }
}

/// Setting the key at its first occurrence is an update there.
proof fn lemma_obj_set_update(fs: Seq<(String, JsonValue)>, i: int, key: String, v: JsonValue)
    requires
        0 <= i < fs.len(),
        fs[i].0@ == key@,
        forall|j: int| 0 <= j < i ==> (#[trigger] fs[j]).0@ != key@,
    ensures
        obj_set(fs, key, v) == fs.update(i, (key, v)),
    decreases i,
{
    if i == 0 {
        assert(obj_set(fs, key, v) == seq![(key, v)] + fs.drop_first());
        assert(seq![(key, v)] + fs.drop_first() =~= fs.update(0, (key, v)));
    } else {
        lemma_obj_set_update(fs.drop_first(), i - 1, key, v);
        assert(fs[0].0@ != key@);
        assert(obj_set(fs, key, v) == seq![fs[0]] + obj_set(fs.drop_first(), key, v));
        assert(fs.drop_first().update(i - 1, (key, v)) =~= fs.update(i, (key, v)).drop_first());
        assert(seq![fs[0]] + fs.update(i, (key, v)).drop_first() =~= fs.update(i, (key, v)));
    }
}

/// Setting an absent key appends it.
proof fn lemma_obj_set_append(fs: Seq<(String, JsonValue)>, key: String, v: JsonValue)
    requires
        forall|j: int| 0 <= j < fs.len() ==> (#[trigger] fs[j]).0@ != key@,
    ensures
        obj_set(fs, key, v) == fs.push((key, v)),
    decreases fs.len(),
{
    if fs.len() == 0 {
        assert(obj_set(fs, key, v) =~= fs.push((key, v)));
    } else {
        assert(forall|j: int|
            0 <= j < fs.drop_first().len() ==> (#[trigger] fs.drop_first()[j]).0@ != key@);
        lemma_obj_set_append(fs.drop_first(), key, v);
        assert(obj_set(fs, key, v) == seq![fs[0]] + fs.drop_first().push((key, v)));
        assert(seq![fs[0]] + fs.drop_first().push((key, v)) =~= fs.push((key, v)));
    }
}

/// Index of the first field under the key, or the length.
fn find_key_index(fs: &Vec<(String, JsonValue)>, key: &str) -> (r: usize)
    ensures
        r <= fs@.len(),
        r < fs@.len() ==> fs@[r as int].0@ == key@,
        forall|j: int| 0 <= j < r ==> (#[trigger] fs@[j]).0@ != key@,
{
    let n = fs.len();
    let mut i: usize = 0;
    while i < n
        invariant
            0 <= i <= n,
            n == fs@.len(),
            forall|j: int| 0 <= j < i ==> (#[trigger] fs@[j]).0@ != key@,
        decreases n - i,
    {
        if str_eq(fs[i].0.as_str(), key) {
            return i;
        }
        i = i + 1;
    }
    i
}

/// Set a key in an object in place: replace its first occurrence, or
/// append. Afterwards the key maps to the value and every other key is
/// untouched.
pub fn obj_set_exec(fs: &mut Vec<(String, JsonValue)>, key: String, v: JsonValue)
    ensures
        final(fs)@ == obj_set(old(fs)@, key, v),
        obj_find(final(fs)@, key@) == Some(v),
        forall|k: Seq<char>| k != key@ ==> obj_find(final(fs)@, k) == obj_find(old(fs)@, k),
{
    proof {
        lemma_obj_set(old(fs)@, key, v, key@);
        assert forall|k: Seq<char>| k != key@ implies obj_find(obj_set(old(fs)@, key, v), k)
            == #[trigger] obj_find(old(fs)@, k) by {
            lemma_obj_set(old(fs)@, key, v, k);
        }
    }
    let idx = find_key_index(fs, key.as_str());
    if idx < fs.len() {
        let ghost pre = fs@;
        proof {
            lemma_obj_set_update(pre, idx as int, key, v);
        }
        fs[idx] = (key, v);
    } else {
        let ghost pre = fs@;
        proof {
            lemma_obj_set_append(pre, key, v);
        }
        fs.push((key, v));
    }
}

// ---------------------------------------------------------------------------
// The upstream builder
// ---------------------------------------------------------------------------
/// A static header line `Name: Value`: the name before the first colon and
/// the value between the first and second colon (or the end), both trimmed.
pub open spec fn header_parts(h: Seq<char>) -> Option<(Seq<char>, Seq<char>)> {
    match find_char(h, ':', 0) {
        None => None,
        Some(c) => {
            let rest = h.subrange(c + 1, h.len() as int);
            let value = match find_char(rest, ':', 0) {
                None => rest,
                Some(c2) => rest.subrange(0, c2),
            };
            Some((trim_spec(h.subrange(0, c)), trim_spec(value)))
        },
    }
}

/// Whitespace for trimming: the ASCII blanks.
pub open spec fn is_space(c: char) -> bool {
    c == ' ' || c == '\t' || c == '\n' || c == '\r'
}

pub open spec fn trim_start_spec(s: Seq<char>) -> Seq<char>
    decreases s.len(),
{
    if s.len() > 0 && is_space(s[0]) {
        trim_start_spec(s.drop_first())
    } else {
        s
    }
}

pub open spec fn trim_end_spec(s: Seq<char>) -> Seq<char>
    decreases s.len(),
{
    if s.len() > 0 && is_space(s.last()) {
        trim_end_spec(s.drop_last())
    } else {
        s
    }
}

/// Text with surrounding blanks removed.
pub open spec fn trim_spec(s: Seq<char>) -> Seq<char> {
    trim_end_spec(trim_start_spec(s))
}

fn is_space_exec(c: char) -> (r: bool)
    ensures
        r == is_space(c),
{
    c == ' ' || c == '\t' || c == '\n' || c == '\r'
}

/// Trim surrounding blanks from text.
pub fn trim(s: &str) -> (r: String)
    ensures
        r@ == trim_spec(s@),
{
    let n = s.unicode_len();
    let mut a: usize = 0;
    proof {
        assert(s@.skip(0) =~= s@);
    }
    while a < n && is_space_exec(s.get_char(a))
        invariant
            0 <= a <= n,
            n == s@.len(),
            trim_start_spec(s@) == trim_start_spec(s@.skip(a as int)),
        decreases n - a,
    {
        proof {
            assert(s@.skip(a as int)[0] == s@[a as int]);
            assert(s@.skip(a as int).drop_first() =~= s@.skip(a as int + 1));
        }
        a = a + 1;
    }
    proof {
        if a < n {
            assert(s@.skip(a as int)[0] == s@[a as int]);
        }
        assert(trim_start_spec(s@) == s@.skip(a as int));
    }
    let mut b: usize = n;
    proof {
        assert(s@.subrange(a as int, b as int) =~= s@.skip(a as int));
    }
    while b > a && is_space_exec(s.get_char(b - 1))
        invariant
            a <= b <= n,
            n == s@.len(),
            trim_end_spec(s@.skip(a as int)) == trim_end_spec(s@.subrange(a as int, b as int)),
        decreases b,
    {
        proof {
            let cur = s@.subrange(a as int, b as int);
            assert(cur.last() == s@[b as int - 1]);
            assert(cur.drop_last() =~= s@.subrange(a as int, b as int - 1));
        }
        b = b - 1;
    }
    proof {
        let cur = s@.subrange(a as int, b as int);
        if b > a {
            assert(cur.last() == s@[b as int - 1]);
        }
        assert(trim_end_spec(s@.subrange(a as int, b as int)) == s@.subrange(a as int, b as int));
    }
    String::from_str(s.substring_char(a, b))
}

/// Split a static header line into its name and value.
pub fn split_header_line(h: &str) -> (r: Result<(String, String), UpstreamError>)
    ensures
        r matches Ok(p) ==> header_parts(h@) matches Some(hp) && p.0@ == hp.0 && p.1@ == hp.1,
        r is Err <==> header_parts(h@) is None,
{
    proof {
        lemma_find_char_props(h@, ':', 0);
    }
    let c = match find_char_exec(h, ':', 0) {
        Some(c) => c,
        None => {
            return Err(UpstreamError::HeaderInvalid);
        },
    };
    let n = h.unicode_len();
    let name = trim(h.substring_char(0, c));
    let rest = h.substring_char(c + 1, n);
    proof {
        lemma_find_char_props(rest@, ':', 0);
    }
    let value_raw = match find_char_exec(rest, ':', 0) {
        Some(c2) => rest.substring_char(0, c2),
        None => rest,
    };
    let value = trim(value_raw);
    Ok((name, value))
}

/// A JSON value carrying a projected field of the declared type: strings
/// pass through, ints are rendered in decimal, float text is kept verbatim.
pub open spec fn json_field_rel(v: JsonValue, ktype: Seq<char>, found: Seq<char>) -> bool {
    if ktype == "string"@ {
        v matches JsonValue::Str(t) && t@ == found
    } else if ktype == "int"@ {
        v matches JsonValue::Num(b) && b@ == i32_dec_bytes(
            i32_text_val(vstd::utf8::encode_utf8(found)) as i32,
        )
    } else {
        v matches JsonValue::Num(b) && b@ == vstd::utf8::encode_utf8(found)
    }
}

/// Every static header line of a backend splits into name and value.
pub open spec fn headers_split(hs: Seq<String>) -> bool {
    forall|i: int| 0 <= i < hs.len() ==> header_parts((#[trigger] hs[i])@) is Some
}

/// Handing connectivity and processing to the upstream server.
#[derive(Debug)]
pub struct Upstream {
    pub backend: Backend,
}

/// The plain parts of the HTTP request the edge will send.
#[derive(Debug)]
pub struct UpstreamRequest {
    pub uri: String,
    pub headers: Vec<(String, String)>,
    pub body: JsonValue,
}

impl Upstream {
    /// Create a new object based on the Backend definition; rejects a
    /// backend whose body template is not a JSON object.
    pub fn new(backend: Backend) -> (r: Result<Upstream, UpstreamError>)
        ensures
            r is Ok <==> (json_parses(backend.body@) && json_of(backend.body@) matches
                JsonValue::Obj(_)),
            r matches Ok(u) ==> u.backend == backend,
            r is Err ==> r == Err::<Upstream, UpstreamError>(UpstreamError::TemplateInvalid),
    {
        match parse_json(backend.body.as_str()) {
            Some(t) => match t {
                JsonValue::Obj(_) => Ok(Upstream { backend }),
                _ => Err(UpstreamError::TemplateInvalid),
            },
            None => Err(UpstreamError::TemplateInvalid),
        }
    }

    /// Build the request based on the input data that we want to forward and
    /// the Backend config: the projected fields overlaid on the template at
    /// the top level, the backend's static headers, and its upstream URI.
    pub fn build(&self, indata: &Vec<(String, String)>) -> (r: Result<
        UpstreamRequest,
        UpstreamError,
    >)
        ensures
            r matches Ok(req) ==> {
                &&& req.uri@ == self.backend.upstream@
                &&& req.headers@.len() == self.backend.headers@.len()
                &&& forall|i: int|
                    0 <= i < req.headers@.len() ==> (header_parts(
                        #[trigger] self.backend.headers@[i]@,
                    ) matches Some(hp) && req.headers@[i].0@ == hp.0 && req.headers@[i].1@ == hp.1)
                &&& projectable(indata@, self.backend.pass_fields@)
                &&& req.body matches JsonValue::Obj(_)
                &&& forall|i: int|
                    0 <= i < self.backend.pass_fields@.len() && (forall|i2: int|
                        i < i2 < self.backend.pass_fields@.len()
                            ==> (#[trigger] self.backend.pass_fields@[i2]).0@
                            != self.backend.pass_fields@[i].0@) ==> (match req.body {
                        JsonValue::Obj(fs) => obj_find(
                            fs@,
                            (#[trigger] self.backend.pass_fields@[i]).0@,
                        ) matches Some(v) && json_field_rel(
                            v,
                            self.backend.pass_fields@[i].1@,
                            find_value(indata@, self.backend.pass_fields@[i].0@, 0).unwrap(),
                        ),
                        _ => false,
                    })
            },
            r is Ok <==> (projectable(indata@, self.backend.pass_fields@) && headers_split(
                self.backend.headers@,
            ) && json_parses(self.backend.body@) && json_of(self.backend.body@) matches
                JsonValue::Obj(_)),
            r matches Ok(req) ==> (match (req.body, json_of(self.backend.body@)) {
                (JsonValue::Obj(fs), JsonValue::Obj(tf)) => forall|k: Seq<char>|
                    (forall|i: int|
                        0 <= i < self.backend.pass_fields@.len()
                            ==> (#[trigger] self.backend.pass_fields@[i]).0@ != k) ==> #[trigger] obj_find(
                        fs@,
                        k,
                    ) == obj_find(tf@, k),
                _ => false,
            }),
    {
        let fields = match parse_indata(indata, &self.backend.pass_fields) {
            Ok(f) => f,
            Err(e) => {
                return Err(e);
            },
        };
        let mut headers: Vec<(String, String)> = Vec::new();
        let mut i: usize = 0;
        while i < self.backend.headers.len()
            invariant
                0 <= i <= self.backend.headers@.len(),
                headers@.len() == i,
                forall|j: int|
                    0 <= j < i ==> (header_parts(#[trigger] self.backend.headers@[j]@) matches Some(
                        hp,
                    ) && headers@[j].0@ == hp.0 && headers@[j].1@ == hp.1),
            decreases self.backend.headers@.len() - i,
        {
            let line = &self.backend.headers[i];
            match split_header_line(line.as_str()) {
                Ok(p) => {
                    headers.push(p);
                },
                Err(e) => {
                    proof {
                        assert(header_parts(self.backend.headers@[i as int]@) is None);
                        assert(!headers_split(self.backend.headers@));
                    }
                    return Err(e);
                },
            }
            i = i + 1;
        }
        proof {
            assert(headers_split(self.backend.headers@));
        }
        let template = match parse_json(self.backend.body.as_str()) {
            Some(t) => t,
            None => {
                return Err(UpstreamError::TemplateInvalid);
            },
        };
        proof {
            assert(template == json_of(self.backend.body@));
        }
        let mut body_fields: Vec<(String, JsonValue)> = match template {
            JsonValue::Obj(fs) => fs,
            _ => {
                return Err(UpstreamError::TemplateInvalid);
            },
        };
        let ghost tf = body_fields@;
        proof {
            assert(json_of(self.backend.body@) matches JsonValue::Obj(v) && v@ == tf);
        }
        let ghost proj = fields@;
        let mut j: usize = 0;
        while j < fields.len()
            invariant
                0 <= j <= fields@.len(),
                fields@ == proj,
                forall|jj: int|
                    0 <= jj < j && (forall|j2: int|
                        jj < j2 < j ==> (#[trigger] proj[j2]).0@ != proj[jj].0@) ==> (obj_find(
                        body_fields@,
                        (#[trigger] proj[jj]).0@,
                    ) matches Some(v) && fv_rel(v, proj[jj].1)),
                forall|k: Seq<char>|
                    (forall|jj: int| 0 <= jj < j ==> (#[trigger] proj[jj]).0@ != k)
                        ==> #[trigger] obj_find(body_fields@, k) == obj_find(tf, k),
            decreases fields@.len() - j,
        {
            let f = &fields[j];
            let v = fv_to_json(&f.1);
            let key = String::from_str(f.0.as_str());
            let ghost set_val = v;
            obj_set_exec(&mut body_fields, key, v);
            proof {
                assert forall|jj: int|
                    0 <= jj < j + 1 && (forall|j2: int|
                        jj < j2 < j + 1 ==> (#[trigger] proj[j2]).0@ != proj[jj].0@) implies (
                obj_find(body_fields@, (#[trigger] proj[jj]).0@) matches Some(v2) && fv_rel(
                    v2,
                    proj[jj].1,
                )) by {
                    if jj == j {
                        assert(obj_find(body_fields@, proj[jj].0@) == Some(set_val));
                    } else {
                        assert(proj[j as int].0@ != proj[jj].0@);
                        assert(obj_find(body_fields@, proj[jj].0@) == obj_find(
                            body_fields@,
                            proj[jj].0@,
                        ));
                    }
                }
                assert forall|k: Seq<char>|
                    (forall|jj: int| 0 <= jj < j + 1 ==> (#[trigger] proj[jj]).0@ != k)
                        implies #[trigger] obj_find(body_fields@, k) == obj_find(tf, k) by {
                    assert(proj[j as int].0@ != k);
                }
            }
            j = j + 1;
        }
        proof {
            reveal_strlit("string");
            reveal_strlit("int");
            reveal_strlit("float");
            assert(("string"@).len() == 6);
            assert(("int"@).len() == 3);
            assert(("float"@).len() == 5);
            let pf = self.backend.pass_fields@;
            assert forall|i: int|
                0 <= i < pf.len() && (forall|i2: int|
                    i < i2 < pf.len() ==> (#[trigger] pf[i2]).0@ != pf[i].0@) implies (obj_find(
                body_fields@,
                (#[trigger] pf[i]).0@,
            ) matches Some(v) && json_field_rel(
                v,
                pf[i].1@,
                find_value(indata@, pf[i].0@, 0).unwrap(),
            )) by {
                assert(proj[i].0@ == pf[i].0@);
                assert forall|j2: int| i < j2 < proj.len() implies (#[trigger] proj[j2]).0@
                    != proj[i].0@ by {
                    assert(proj[j2].0@ == pf[j2].0@);
                }
                assert(obj_find(body_fields@, proj[i].0@) matches Some(v) && fv_rel(v, proj[i].1));
                let found = find_value(indata@, pf[i].0@, 0).unwrap();
                assert(field_matches(proj[i].1, pf[i].1@, found));
            }
            assert forall|k: Seq<char>|
                (forall|i: int| 0 <= i < pf.len() ==> (#[trigger] pf[i]).0@ != k)
                    implies #[trigger] obj_find(body_fields@, k) == obj_find(tf, k) by {
                assert forall|jj: int| 0 <= jj < proj.len() implies (#[trigger] proj[jj]).0@
                    != k by {
                    assert(proj[jj].0@ == pf[jj].0@);
                }
            }
        }
        let uri = String::from_str(self.backend.upstream.as_str());
        Ok(UpstreamRequest { uri, headers, body: JsonValue::Obj(body_fields) })
    }

    /// Parse the response from the upstream server: follow the configured
    /// dotted path through the JSON body and return the string found there.
    pub fn parse(&self, resp_data: &str) -> (r: Result<String, UpstreamError>)
        ensures
            r is Ok <==> (json_parses(resp_data@) && (extract_spec(
                json_of(resp_data@),
                split_on(self.backend.response_fields@, '.', 0),
            ) matches Some(v) && v matches JsonValue::Str(_))),
            r matches Ok(s) ==> (extract_spec(
                json_of(resp_data@),
                split_on(self.backend.response_fields@, '.', 0),
            ) matches Some(v) && v matches JsonValue::Str(t) && t@ == s@),
            r == Err::<String, UpstreamError>(UpstreamError::ResponseInvalid) <==> !(json_parses(
                resp_data@,
            ) && extract_spec(
                json_of(resp_data@),
                split_on(self.backend.response_fields@, '.', 0),
            ) is Some),
            r == Err::<String, UpstreamError>(UpstreamError::NotString) <==> (json_parses(
                resp_data@,
            ) && (extract_spec(
                json_of(resp_data@),
                split_on(self.backend.response_fields@, '.', 0),
            ) matches Some(v) && !(v matches JsonValue::Str(_)))),
    {
        let root = match parse_json(resp_data) {
            Some(v) => v,
            None => {
                return Err(UpstreamError::ResponseInvalid);
            },
        };
        let segs = split_text(self.backend.response_fields.as_str(), '.');
        proof {
            assert(segs.deep_view().skip(0) =~= segs.deep_view());
        }
        let found = match extract_field(&root, &segs, 0) {
            Some(v) => v,
            None => {
                return Err(UpstreamError::ResponseInvalid);
            },
        };
        match found {
            JsonValue::Str(s) => {
                let out = String::from_str(s.as_str());
                proof {
                    let path = split_on(self.backend.response_fields@, '.', 0);
                    assert(extract_spec(root, path) matches Some(v) && v matches JsonValue::Str(t)
                        && t@ == out@);
                }
                Ok(out)
            },
            _ => Err(UpstreamError::NotString),
        }
    }
}

// ---------------------------------------------------------------------------
// Paragraphs
// ---------------------------------------------------------------------------
/// First position of the two-character separator at or after `i`.
pub open spec fn find_sep(s: Seq<char>, i: int) -> Option<int>
    decreases s.len() - i,
{
    if i < 0 || i + 2 > s.len() {
        None
    } else if s[i] == '\n' && s[i + 1] == '\n' {
        Some(i)
    } else {
        find_sep(s, i + 1)
    }
}

pub proof fn lemma_find_sep_props(s: Seq<char>, i: int)
    ensures
        find_sep(s, i) matches Some(j) ==> i <= j && j + 2 <= s.len(),
    decreases s.len() - i,
{
    if !(i < 0 || i + 2 > s.len()) {
        lemma_find_sep_props(s, i + 1);
    }
}

/// The pieces of text split on blank-line separators, from `i` on.
pub open spec fn split_paras(s: Seq<char>, i: int) -> Seq<Seq<char>>
    decreases s.len() - i when 0 <= i <= s.len()
    via split_paras_decreases
{
    match find_sep(s, i) {
        None => seq![s.subrange(i, s.len() as int)],
        Some(j) => seq![s.subrange(i, j)] + split_paras(s, j + 2),
    }
}

#[via_fn]
proof fn split_paras_decreases(s: Seq<char>, i: int) {
    lemma_find_sep_props(s, i);
}

fn find_sep_exec(s: &str, i: usize) -> (r: Option<usize>)
    requires
        i <= s@.len(),
    ensures
        r matches Some(v) ==> find_sep(s@, i as int) == Some(v as int),
        r is None ==> find_sep(s@, i as int) is None,
    decreases s@.len() - i,
{
    let n = s.unicode_len();
    if i >= n || n - i < 2 {
        None
    } else if s.get_char(i) == '\n' && s.get_char(i + 1) == '\n' {
        Some(i)
    } else {
        find_sep_exec(s, i + 1)
    }
}

/// The upstream data trimmed and split on blank lines, as the response body
/// presents it.
pub fn split_paragraphs(data: &str) -> (r: Vec<String>)
    ensures
        r.deep_view() == split_paras(trim_spec(data@), 0),
{
    let t = trim(data);
    let ts = t.as_str();
    let n = ts.unicode_len();
    let mut out: Vec<String> = Vec::new();
    let mut from: usize = 0;
    loop
        invariant
            0 <= from <= n,
            n == ts@.len(),
            ts@ == trim_spec(data@),
            split_paras(trim_spec(data@), 0) == out.deep_view() + split_paras(ts@, from as int),
        decreases n - from,
    {
        let ghost pre = out.deep_view();
        match find_sep_exec(ts, from) {
            Some(j) => {
                proof {
                    lemma_find_sep_props(ts@, from as int);
                }
                out.push(String::from_str(ts.substring_char(from, j)));
                proof {
                    assert(out.deep_view() =~= pre.push(ts@.subrange(from as int, j as int)));
                    assert(out.deep_view() + split_paras(ts@, j as int + 2) =~= pre + split_paras(
                        ts@,
                        from as int,
                    ));
                }
                from = j + 2;
            },
            None => {
                out.push(String::from_str(ts.substring_char(from, n)));
                proof {
                    assert(out.deep_view() =~= pre.push(ts@.subrange(from as int, n as int)));
                    assert(out.deep_view() =~= pre + split_paras(ts@, from as int));
                }
                return out;
            },
        }
    }
}

} // verus!
