use openbse::a205::{
    check_schema, component_schema, cooling_axis_order, detect_format, first_decoded_component,
    peek_schema, A205Error, AxisKind, CondenserType, FileFormat, JsonValue, Metadata,
    SpeedControl,
};

fn metadata(schema: &str) -> Metadata {
    Metadata {
        data_model: "ASHRAE_205".to_string(),
        schema: schema.to_string(),
        schema_version: "2.0.0".to_string(),
        description: String::new(),
        id: "id".to_string(),
        data_timestamp: String::new(),
        data_version: 1,
        data_source: String::new(),
        disclaimer: String::new(),
        notes: String::new(),
    }
}

// {"metadata": {"schema": "RS0001"}} in CBOR
const CBOR_RS0001: [u8; 32] = [
    0xa1, 0x68, b'm', b'e', b't', b'a', b'd', b'a', b't', b'a', 0xa1, 0x66, b's', b'c', b'h', b'e',
    b'm', b'a', 0x66, b'R', b'S', b'0', b'0', b'0', b'1', 0, 0, 0, 0, 0, 0, 0,
];

#[test]
fn detects_json_object_and_array() {
    assert_eq!(detect_format("f", b"{}").unwrap(), FileFormat::Json);
    assert_eq!(detect_format("f", b"[1]").unwrap(), FileFormat::Json);
    assert_eq!(detect_format("f", b" \t\r\n\x0c{").unwrap(), FileFormat::Json);
}

#[test]
fn detects_cbor_otherwise() {
    assert_eq!(detect_format("f", &[0xa3, 0x01]).unwrap(), FileFormat::Cbor);
    // vertical tab is not ASCII whitespace for this rule
    assert_eq!(detect_format("f", b"\x0b{").unwrap(), FileFormat::Cbor);
    // only whitespace: no JSON opener found
    assert_eq!(detect_format("f", b"   ").unwrap(), FileFormat::Cbor);
}

#[test]
fn empty_file_is_an_error() {
    match detect_format("dir/x.a205", b"") {
        Err(A205Error::Other(m)) => assert_eq!(m, "empty file: dir/x.a205"),
        other => panic!("unexpected {:?}", other),
    }
}

#[test]
fn schema_check_accepts_matching_schema() {
    assert!(check_schema(&metadata("RS0001"), "RS0001").is_ok());
}

#[test]
fn schema_check_reports_mismatch() {
    match check_schema(&metadata("RS0004"), "RS0002") {
        Err(A205Error::SchemaMismatch { expected, found }) => {
            assert_eq!(expected, "RS0002");
            assert_eq!(found, "RS0004");
        }
        other => panic!("unexpected {:?}", other),
    }
}

#[test]
fn peek_schema_reads_json() {
    let s = peek_schema("f", br#"{"metadata": {"schema": "RS0003", "id": 1}, "x": [1.5]}"#).unwrap();
    assert_eq!(s, "RS0003");
}

#[test]
fn peek_schema_reads_cbor() {
    let s = peek_schema("f", &CBOR_RS0001[..25]).unwrap();
    assert_eq!(s, "RS0001");
}

#[test]
fn peek_schema_missing_field_is_empty() {
    assert_eq!(peek_schema("f", br#"{"metadata": {}}"#).unwrap(), "");
    assert_eq!(peek_schema("f", br#"{"metadata": {"schema": 5}}"#).unwrap(), "");
    assert_eq!(peek_schema("f", b"[]").unwrap(), "");
}

#[test]
fn peek_schema_parse_errors() {
    assert!(matches!(peek_schema("f", b"{ not json"), Err(A205Error::Json(_))));
    assert!(matches!(peek_schema("f", &[0xa1]), Err(A205Error::Cbor(_))));
    assert!(matches!(peek_schema("f", b""), Err(A205Error::Other(_))));
}

#[test]
fn component_schema_of_values() {
    let md = JsonValue::Object(vec![
        ("id".to_string(), JsonValue::Null),
        ("schema".to_string(), JsonValue::String("RS0005".to_string())),
    ]);
    let v = JsonValue::Object(vec![
        ("description".to_string(), JsonValue::Array(vec![])),
        ("metadata".to_string(), md),
    ]);
    assert_eq!(component_schema(&v), "RS0005");
    let w = JsonValue::Object(vec![("performance".to_string(), JsonValue::Object(vec![]))]);
    assert_eq!(component_schema(&w), "");
    let x = JsonValue::Object(vec![(
        "metadata".to_string(),
        JsonValue::Object(vec![("schema".to_string(), JsonValue::Bool(true))]),
    )]);
    assert_eq!(component_schema(&x), "");
    assert_eq!(component_schema(&JsonValue::String("metadata".to_string())), "");
}

#[test]
fn first_decoded_component_skips_failed_decodes() {
    let schemas = vec!["RS0007".to_string(), "RS0005".to_string(), "RS0005".to_string()];
    assert_eq!(first_decoded_component(&schemas, &vec![true, true, true], "RS0005"), Some(1));
    assert_eq!(first_decoded_component(&schemas, &vec![true, false, true], "RS0005"), Some(2));
    assert_eq!(first_decoded_component(&schemas, &vec![true, false, false], "RS0005"), None);
    assert_eq!(first_decoded_component(&schemas, &vec![true, true, true], "RS0006"), None);
}

#[test]
fn cooling_axis_order_air_cooled() {
    // Air-cooled chiller: dry-bulb, relative humidity and ambient pressure axes.
    let order = cooling_axis_order(false, false, true, false, true, true);
    assert_eq!(
        order,
        vec![
            AxisKind::EvapFlow,
            AxisKind::EvapLeavingTemp,
            AxisKind::CondenserAirDrybulb,
            AxisKind::CondenserAirRH,
            AxisKind::AmbientPressure,
            AxisKind::CompressorSequence,
        ]
    );
}

#[test]
fn cooling_axis_order_liquid_cooled() {
    let order = cooling_axis_order(true, true, false, false, false, false);
    assert_eq!(
        order,
        vec![
            AxisKind::EvapFlow,
            AxisKind::EvapLeavingTemp,
            AxisKind::CondenserLiquidFlow,
            AxisKind::CondenserLiquidEntering,
            AxisKind::CompressorSequence,
        ]
    );
}

#[test]
fn cooling_axis_order_all_axes() {
    let order = cooling_axis_order(true, true, true, true, true, true);
    assert_eq!(order.len(), 9);
    assert_eq!(order[4], AxisKind::CondenserAirDrybulb);
    assert_eq!(order[5], AxisKind::CondenserAirWetbulb);
    assert_eq!(order[6], AxisKind::CondenserAirRH);
}

#[test]
fn rs0001_enums_compare() {
    assert_ne!(CondenserType::Air, CondenserType::Liquid);
    assert_eq!(SpeedControl::Discrete, SpeedControl::Discrete);
}
