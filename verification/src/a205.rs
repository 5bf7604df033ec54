//! ASHRAE Standard 205 representation files: format detection, schema
//! checks and the descriptive parts of the representation specifications.
//!
//! A Standard 205 file is either JSON text (development) or CBOR binary
//! (production).  The first non-whitespace byte tells them apart: JSON
//! documents open with `{` or `[`, CBOR maps with a byte of major type 5.

use vstd::prelude::*;

verus! {

#[verifier::external_type_specification]
#[verifier::external_body]
pub struct ExIoError(std::io::Error);

#[verifier::external_type_specification]
#[verifier::external_body]
pub struct ExJsonError(serde_json::Error);

#[verifier::external_type_specification]
#[verifier::external_body]
pub struct ExJsonNumber(serde_json::Number);

#[verifier::external_type_specification]
#[verifier::external_body]
pub struct ExJsonValue(serde_json::Value);

/// A decoded JSON or CBOR document: the tree the Standard 205 schemas are
/// written over.  Object members keep their keys; numbers stay opaque.
#[derive(Debug)]
pub enum JsonValue {
    Null,
    Bool(bool),
    Number(serde_json::Number),
    String(String),
    Array(Vec<JsonValue>),
    Object(Vec<(String, JsonValue)>),
}

/// Errors raised while loading a Standard 205 file.
#[derive(Debug)]
pub enum A205Error {
    Io(std::io::Error),
    Json(serde_json::Error),
    Cbor(String),
    SchemaMismatch { expected: String, found: String },
    Other(String),
}

/// Encoding of a Standard 205 file.
#[derive(Debug, Clone, Copy, PartialEq, Eq, Structural)]
pub enum FileFormat {
    Json,
    Cbor,
}

/// `metadata` block shared by every representation specification.
#[derive(Debug, Clone)]
pub struct Metadata {
    pub data_model: String,
    pub schema: String,
    pub schema_version: String,
    pub description: String,
    pub id: String,
    pub data_timestamp: String,
    pub data_version: u32,
    pub data_source: String,
    pub disclaimer: String,
    pub notes: String,
}

/// Chiller condenser type (RS0001).
#[derive(Debug, Clone, Copy, PartialEq, Eq, Structural)]
pub enum CondenserType {
    Air,
    Liquid,
    Evaporative,
}

/// Compressor speed control type (RS0001).
#[derive(Debug, Clone, Copy, PartialEq, Eq, Structural)]
pub enum SpeedControl {
    Continuous,
    Discrete,
}

/// ASCII whitespace as `u8::is_ascii_whitespace` defines it: space,
/// horizontal tab, line feed, form feed and carriage return.
pub open spec fn is_ascii_ws(b: u8) -> bool {
    b == 0x20u8 || b == 0x09u8 || b == 0x0Au8 || b == 0x0Cu8 || b == 0x0Du8
}

/// First byte at or after `i` that is not ASCII whitespace, or 0 when there is none.
pub open spec fn first_non_ws_from(bytes: Seq<u8>, i: int) -> u8
    decreases bytes.len() - i,
{
    if i < 0 || i >= bytes.len() {
        0u8
    } else if is_ascii_ws(bytes[i]) {
        first_non_ws_from(bytes, i + 1)
    } else {
        bytes[i]
    }
}

/// Format of a non-empty file: JSON when its first non-whitespace byte is
/// `{` or `[`, CBOR otherwise.
pub open spec fn format_of(bytes: Seq<u8>) -> FileFormat {
    let c = first_non_ws_from(bytes, 0);
    if c == 0x7Bu8 || c == 0x5Bu8 {
        FileFormat::Json
    } else {
        FileFormat::Cbor
    }
}

/// Behind a whitespace prefix, searching from any position inside the
/// prefix finds the same byte as searching the remainder from its start.
proof fn lemma_first_non_ws_shift(pre: Seq<u8>, rest: Seq<u8>, i: int)
    requires
        0 <= i <= pre.len(),
        forall|j: int| 0 <= j < pre.len() ==> is_ascii_ws(#[trigger] pre[j]),
    ensures
        first_non_ws_from(pre + rest, i) == first_non_ws_from(rest, 0),
    decreases pre.len() - i,
{
    let s = pre + rest;
    if i < pre.len() {
        assert(s[i] == pre[i]);
        lemma_first_non_ws_shift(pre, rest, i + 1);
    } else {
        lemma_first_non_ws_suffix(pre, rest, 0);
    }
}

/// Searching the concatenation from inside its second part equals
/// searching the second part.
proof fn lemma_first_non_ws_suffix(pre: Seq<u8>, rest: Seq<u8>, j: int)
    requires
        0 <= j <= rest.len(),
    ensures
        first_non_ws_from(pre + rest, pre.len() + j) == first_non_ws_from(rest, j),
    decreases rest.len() - j,
{
    if j < rest.len() {
        assert((pre + rest)[pre.len() + j] == rest[j]);
        lemma_first_non_ws_suffix(pre, rest, j + 1);
    }
}

/// Leading ASCII whitespace never changes the detected format: a JSON
/// document stays JSON however it is indented.
pub proof fn law_leading_whitespace_ignored(ws: Seq<u8>, bytes: Seq<u8>)
    requires
        forall|j: int| 0 <= j < ws.len() ==> is_ascii_ws(#[trigger] ws[j]),
    ensures
        format_of(ws + bytes) == format_of(bytes),
{
    lemma_first_non_ws_shift(ws, bytes, 0);
}

/// Whether `serde_json::from_slice` accepts `bytes` as a JSON value.
pub uninterp spec fn json_accepts(bytes: Seq<u8>) -> bool;

/// Whether `ciborium::from_reader` accepts `bytes` as a CBOR value.
pub uninterp spec fn cbor_accepts(bytes: Seq<u8>) -> bool;

/// Display text of the error `ciborium::from_reader` reports for `bytes`.
pub uninterp spec fn cbor_error_text(bytes: Seq<u8>) -> Seq<char>;

/// Message of the error raised for an empty file.
pub open spec fn empty_file_message(path: Seq<char>) -> Seq<char> {
    "empty file: "@ + path
}

/// Decides the format of a Standard 205 file from its contents; `path`
/// names the file in the error raised for an empty one.
pub fn detect_format(path: &str, bytes: &[u8]) -> (r: Result<FileFormat, A205Error>)
    ensures
        bytes@.len() == 0 <==> r is Err,
        r matches Ok(f) ==> f == format_of(bytes@),
        r matches Err(e) ==> (e matches A205Error::Other(m) && m@ == empty_file_message(path@)),
{
    if bytes.len() == 0 {
        let mut m = String::from_str("empty file: ");
        m.append(path);
        proof {
            reveal_strlit("empty file: ");
        }
        return Err(A205Error::Other(m));
    }
    let mut i: usize = 0;
    let mut first: u8 = 0;
    while i < bytes.len()
        invariant_except_break
            first == 0,
        invariant
            i <= bytes@.len(),
            first_non_ws_from(bytes@, i as int) == first_non_ws_from(bytes@, 0),
        ensures
            first == first_non_ws_from(bytes@, 0),
        decreases bytes@.len() - i,
    {
        let b = bytes[i];
        if !(b == 0x20u8 || b == 0x09u8 || b == 0x0Au8 || b == 0x0Cu8 || b == 0x0Du8) {
            first = b;
            break;
        }
        i = i + 1;
    }
    if first == 0x7Bu8 || first == 0x5Bu8 {
        Ok(FileFormat::Json)
    } else {
        Ok(FileFormat::Cbor)
    }
}

/// Equality of two string slices.
fn str_equal(a: &str, b: &str) -> (r: bool)
    ensures
        r == (a@ == b@),
{
    let sa = String::from_str(a);
    let sb = String::from_str(b);
    sa == sb
}

/// Checks that a loaded file declares the representation specification
/// `expected` (for example `"RS0001"`) in its metadata.
pub fn check_schema(metadata: &Metadata, expected: &str) -> (r: Result<(), A205Error>)
    ensures
        r is Ok <==> metadata.schema@ == expected@,
        r is Err ==> (r matches Err(A205Error::SchemaMismatch { expected: ex, found })
            && ex@ == expected@ && found@ == metadata.schema@),
{
    if !str_equal(metadata.schema.as_str(), expected) {
        return Err(
            A205Error::SchemaMismatch {
                expected: String::from_str(expected),
                found: metadata.schema.clone(),
            },
        );
    }
    Ok(())
}

/// Document that `serde_json::from_slice` decodes from `bytes`.
pub uninterp spec fn json_document(bytes: Seq<u8>) -> JsonValue;

/// Document that `ciborium::from_reader` decodes from `bytes`.
pub uninterp spec fn cbor_document(bytes: Seq<u8>) -> JsonValue;

/// Converts a decoded `serde_json::Value` into the library's document
/// tree, variant for variant, moving every field.  Nothing is claimed of
/// the result: the input value is opaque here.
#[verifier::external_body]
fn document_tree(v: serde_json::Value) -> JsonValue {
    match v {
        serde_json::Value::Null => JsonValue::Null,
        serde_json::Value::Bool(b) => JsonValue::Bool(b),
        serde_json::Value::Number(n) => JsonValue::Number(n),
        serde_json::Value::String(s) => JsonValue::String(s),
        serde_json::Value::Array(a) => JsonValue::Array(a.into_iter().map(document_tree).collect()),
        serde_json::Value::Object(m) => JsonValue::Object(
            m.into_iter().map(|(k, x)| (k, document_tree(x))).collect(),
        ),
    }
}

/// Wraps `serde_json::from_slice::<serde_json::Value>`, which parses `bytes`
/// as one JSON document.  Claimed: whether it succeeds and the document it
/// yields depend on the bytes alone.
#[verifier::external_body]
fn json_value_from_slice(bytes: &[u8]) -> (r: Result<JsonValue, serde_json::Error>)
    ensures
        r is Ok <==> json_accepts(bytes@),
        r matches Ok(v) ==> v == json_document(bytes@),
{
    serde_json::from_slice::<serde_json::Value>(bytes).map(document_tree)
}

/// Wraps `ciborium::from_reader::<serde_json::Value, &[u8]>`, which decodes
/// `bytes` as one CBOR item, and renders its error with `Display`.  Claimed:
/// success, the document and the error text depend on the bytes alone.
#[verifier::external_body]
fn cbor_value_from_slice(bytes: &[u8]) -> (r: Result<JsonValue, String>)
    ensures
        r is Ok <==> cbor_accepts(bytes@),
        r matches Ok(v) ==> v == cbor_document(bytes@),
        r matches Err(m) ==> m@ == cbor_error_text(bytes@),
{
    ciborium::from_reader::<serde_json::Value, &[u8]>(bytes).map(document_tree).map_err(
        |e| format!("{}", e),
    )
}

/// First member named `key` among object entries `es`.
pub open spec fn member_in(es: Seq<(String, JsonValue)>, key: Seq<char>) -> Option<JsonValue>
    decreases es.len(),
{
    if es.len() == 0 {
        None
    } else if es[0].0@ == key {
        Some(es[0].1)
    } else {
        member_in(es.drop_first(), key)
    }
}

/// Member `key` of an object; `None` for a missing key or a non-object.
pub open spec fn member_of(v: JsonValue, key: Seq<char>) -> Option<JsonValue> {
    match v {
        JsonValue::Object(es) => member_in(es@, key),
        _ => None,
    }
}

/// Text of the `metadata.schema` string of a document, empty when the
/// document has no such string.
pub open spec fn schema_text(v: JsonValue) -> Seq<char> {
    match member_of(v, "metadata"@) {
        Some(m) => match member_of(m, "schema"@) {
            Some(JsonValue::String(s)) => s@,
            _ => Seq::empty(),
        },
        None => Seq::empty(),
    }
}

/// Member `key` of an object document.
fn member<'a>(v: &'a JsonValue, key: &str) -> (r: Option<&'a JsonValue>)
    ensures
        r is Some <==> member_of(*v, key@) is Some,
        r matches Some(x) ==> member_of(*v, key@) == Some(*x),
{
    match v {
        JsonValue::Object(es) => {
            let k = String::from_str(key);
            let mut i: usize = 0;
            assert(es@.subrange(0, es@.len() as int) =~= es@);
            while i < es.len()
                invariant
                    i <= es@.len(),
                    k@ == key@,
                    member_of(*v, key@) == member_in(es@, key@),
                    member_in(es@, key@) == member_in(es@.subrange(i as int, es@.len() as int), key@),
                decreases es@.len() - i,
            {
                assert(es@.subrange(i as int, es@.len() as int).drop_first() =~= es@.subrange(
                    i + 1,
                    es@.len() as int,
                ));
                assert(es@.subrange(i as int, es@.len() as int)[0] == es@[i as int]);
                if es[i].0 == k {
                    return Some(&es[i].1);
                }
                i = i + 1;
            }
            None
        },
        _ => None,
    }
}

/// The `metadata.schema` string of a Standard 205 document (an assembly
/// component, say), or the empty string when it has no such string.
pub fn component_schema(v: &JsonValue) -> (s: String)
    ensures
        s@ == schema_text(*v),
{
    match member(v, "metadata") {
        Some(m) => match member(m, "schema") {
            Some(JsonValue::String(t)) => t.clone(),
            _ => String::new(),
        },
        None => String::new(),
    }
}

/// Reads the `metadata.schema` field of a Standard 205 file's contents
/// without decoding the rest of the payload (the empty string when the
/// document has no such field).  `path` names the file in error messages.
pub fn peek_schema(path: &str, bytes: &[u8]) -> (r: Result<String, A205Error>)
    ensures
        bytes@.len() == 0 ==> (r matches Err(A205Error::Other(m)) && m@ == empty_file_message(
            path@,
        )),
        bytes@.len() > 0 && format_of(bytes@) == FileFormat::Json ==> (r is Ok <==> json_accepts(
            bytes@,
        )) && (r is Err ==> r matches Err(A205Error::Json(_))) && (r matches Ok(s) ==> s@
            == schema_text(json_document(bytes@))),
        bytes@.len() > 0 && format_of(bytes@) == FileFormat::Cbor ==> (r is Ok <==> cbor_accepts(
            bytes@,
        )) && (r is Err ==> (r matches Err(A205Error::Cbor(m)) && m@ == cbor_error_text(bytes@)))
            && (r matches Ok(s) ==> s@ == schema_text(cbor_document(bytes@))),
{
    let fmt = match detect_format(path, bytes) {
        Ok(f) => f,
        Err(e) => return Err(e),
    };
    let probe = match fmt {
        FileFormat::Json => match json_value_from_slice(bytes) {
            Ok(v) => v,
            Err(e) => return Err(A205Error::Json(e)),
        },
        FileFormat::Cbor => match cbor_value_from_slice(bytes) {
            Ok(v) => v,
            Err(m) => return Err(A205Error::Cbor(m)),
        },
    };
    Ok(component_schema(&probe))
}

/// Index of the first assembly component that declares schema `target` and
/// whose payload decoded (`decoded[i]`), if any.  A component with the
/// right schema whose payload did not decode is passed over.
pub fn first_decoded_component(schemas: &Vec<String>, decoded: &Vec<bool>, target: &str) -> (r:
    Option<usize>)
    requires
        schemas@.len() == decoded@.len(),
    ensures
        r matches Some(i) ==> i < schemas@.len() && schemas@[i as int]@ == target@ && decoded@[i as int],
        r matches Some(i) ==> forall|j: int|
            0 <= j < i ==> !(schemas@[j]@ == target@ && decoded@[j]),
        r is None ==> forall|j: int|
            0 <= j < schemas@.len() ==> !(schemas@[j]@ == target@ && decoded@[j]),
{
    let mut i: usize = 0;
    while i < schemas.len()
        invariant
            i <= schemas@.len(),
            schemas@.len() == decoded@.len(),
            forall|j: int| 0 <= j < i ==> !(schemas@[j]@ == target@ && decoded@[j]),
        decreases schemas@.len() - i,
    {
        if decoded[i] && str_equal(schemas[i].as_str(), target) {
            return Some(i);
        }
        i = i + 1;
    }
    None
}

/// Grid axes that an RS0001 chiller cooling map may declare.
#[derive(Debug, Clone, Copy, PartialEq, Eq, Structural)]
pub enum AxisKind {
    EvapFlow,
    EvapLeavingTemp,
    CondenserAirDrybulb,
    CondenserAirRH,
    CondenserAirWetbulb,
    AmbientPressure,
    CondenserLiquidFlow,
    CondenserLiquidEntering,
    CompressorSequence,
}

/// One-element sequence when `present`, empty otherwise.
pub open spec fn optional_axis(present: bool, k: AxisKind) -> Seq<AxisKind> {
    if present {
        seq![k]
    } else {
        Seq::empty()
    }
}

/// Row-major axis order of an RS0001 cooling map, given which of the
/// optional condenser axes the file populates: evaporator flow, evaporator
/// leaving temperature, then the condenser liquid flow and entering
/// temperature, condenser air dry-bulb, wet-bulb and relative humidity,
/// ambient pressure (each only when present), and last the compressor
/// sequence number.
pub open spec fn cooling_axis_order_spec(
    liquid_flow: bool,
    liquid_entering: bool,
    air_drybulb: bool,
    air_wetbulb: bool,
    air_rh: bool,
    ambient_pressure: bool,
) -> Seq<AxisKind> {
    seq![AxisKind::EvapFlow, AxisKind::EvapLeavingTemp] + optional_axis(
        liquid_flow,
        AxisKind::CondenserLiquidFlow,
    ) + optional_axis(liquid_entering, AxisKind::CondenserLiquidEntering) + optional_axis(
        air_drybulb,
        AxisKind::CondenserAirDrybulb,
    ) + optional_axis(air_wetbulb, AxisKind::CondenserAirWetbulb) + optional_axis(
        air_rh,
        AxisKind::CondenserAirRH,
    ) + optional_axis(ambient_pressure, AxisKind::AmbientPressure) + seq![
        AxisKind::CompressorSequence,
    ]
}

/// Pushes `k` onto `v` when `present`.
fn push_if(v: &mut Vec<AxisKind>, present: bool, k: AxisKind)
    ensures
        final(v)@ == old(v)@ + optional_axis(present, k),
{
    if present {
        v.push(k);
    }
    proof {
        if !present {
            assert(old(v)@ + optional_axis(present, k) =~= old(v)@);
        }
    }
}

/// Axis order of an RS0001 cooling map for the optional axes it declares.
pub fn cooling_axis_order(
    liquid_flow: bool,
    liquid_entering: bool,
    air_drybulb: bool,
    air_wetbulb: bool,
    air_rh: bool,
    ambient_pressure: bool,
) -> (order: Vec<AxisKind>)
    ensures
        order@ == cooling_axis_order_spec(
            liquid_flow,
            liquid_entering,
            air_drybulb,
            air_wetbulb,
            air_rh,
            ambient_pressure,
        ),
{
    let mut v: Vec<AxisKind> = Vec::new();
    v.push(AxisKind::EvapFlow);
    v.push(AxisKind::EvapLeavingTemp);
    assert(v@ =~= seq![AxisKind::EvapFlow, AxisKind::EvapLeavingTemp]);
    push_if(&mut v, liquid_flow, AxisKind::CondenserLiquidFlow);
    push_if(&mut v, liquid_entering, AxisKind::CondenserLiquidEntering);
    push_if(&mut v, air_drybulb, AxisKind::CondenserAirDrybulb);
    push_if(&mut v, air_wetbulb, AxisKind::CondenserAirWetbulb);
    push_if(&mut v, air_rh, AxisKind::CondenserAirRH);
    push_if(&mut v, ambient_pressure, AxisKind::AmbientPressure);
    let ghost before = v@;
    v.push(AxisKind::CompressorSequence);
    assert(v@ =~= before + seq![AxisKind::CompressorSequence]);
    v
}

} // verus!
