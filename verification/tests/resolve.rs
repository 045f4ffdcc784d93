use std::io::Write;
use pinmame_nvram::json::{JsonNumber, JsonValue};
use pinmame_nvram::error::NvramError;
use pinmame_nvram::resolve::{json_hex_or_int, parse_hex_string, validate_range};

fn range_map() -> Vec<(String, JsonValue)> {
    vec![
        ("min".to_string(), JsonValue::Number(JsonNumber::PosInt(0))),
        ("max".to_string(), JsonValue::Number(JsonNumber::PosInt(31))),
    ]
}

#[test]
fn test_validate_range_in_range() {
    assert_eq!(validate_range(&range_map(), Some(15)), None);
}

#[test]
fn test_validate_range_out_of_range() {
    assert_eq!(
        validate_range(&range_map(), Some(255)),
        Some("Value out of range: 0 ≤ 255 ≤ 31".to_string())
    );
}

#[test]
fn test_validate_range_no_raw_value_is_skipped() {
    // encodings that do not produce a number pass None and are not checked
    assert_eq!(validate_range(&range_map(), None), None);
}

#[test]
fn test_validate_range_no_bounds() {
    // a descriptor without min/max is never range-checked
    assert_eq!(validate_range(&Vec::new(), Some(255)), None);
}

#[test]
fn validate_range_unscales_first() {
    let mut map = range_map();
    map.push(("scale".to_string(), JsonValue::Number(JsonNumber::PosInt(10))));
    assert_eq!(validate_range(&map, Some(310)), None);
    assert_eq!(
        validate_range(&map, Some(320)),
        Some("Value out of range: 0 ≤ 32 ≤ 31".to_string())
    );
}

#[test]
fn hex_or_int_reads_both_forms() {
    let s = |t: &str| JsonValue::String(t.to_string());
    assert_eq!(0x1234, json_hex_or_int(&s("0x1234")).unwrap());
    assert_eq!(0xABCD, json_hex_or_int(&s("0XabCD")).unwrap());
    assert_eq!(0x10, json_hex_or_int(&s("0x+10")).unwrap());
    assert_eq!(42, json_hex_or_int(&JsonValue::Number(JsonNumber::PosInt(42))).unwrap());
    assert_eq!("cannot parse integer from empty string", json_hex_or_int(&s("0x")).unwrap_err().message());
    assert_eq!("invalid digit found in string", json_hex_or_int(&s("0x12g")).unwrap_err().message());
    assert_eq!("invalid digit found in string", json_hex_or_int(&s("0x+")).unwrap_err().message());
    assert_eq!("invalid digit found in string", json_hex_or_int(&s("0x-1")).unwrap_err().message());
    assert_eq!(
        "number too large to fit in target type",
        json_hex_or_int(&s("0x10000000000000000")).unwrap_err().message()
    );
    assert_eq!(u64::MAX, json_hex_or_int(&s("0xFFFFFFFFFFFFFFFF")).unwrap());
}

use pinmame_nvram::compressed::decompress;
use pinmame_nvram::error::ErrorKind;
use pinmame_nvram::index::{index_entry, rom_name};
use pinmame_nvram::model::{Endian, GlobalSettingsImpl, Nibble};
use pinmame_nvram::resolve::{checksum16_from_json, resolve_recursive, Platform};

fn scale(v: u64, s: JsonNumber) -> u64 {
    match s {
        JsonNumber::PosInt(k) => (v as f64 * k as f64) as u64,
        JsonNumber::NegInt(k) => (v as f64 * k as f64) as u64,
        JsonNumber::FloatBits(b) => (v as f64 * f64::from_bits(b)) as u64,
    }
}

fn text(t: &str) -> JsonValue {
    JsonValue::String(t.to_string())
}

fn num(n: u64) -> JsonValue {
    JsonValue::Number(JsonNumber::PosInt(n))
}

fn obj(entries: Vec<(&str, JsonValue)>) -> JsonValue {
    JsonValue::Object(entries.into_iter().map(|(k, v)| (k.to_string(), v)).collect())
}

fn field<'a>(v: &'a JsonValue, key: &str) -> Option<&'a JsonValue> {
    match v {
        JsonValue::Object(es) => es.iter().find(|(k, _)| k == key).map(|(_, v)| v),
        _ => None,
    }
}

fn as_text(v: Option<&JsonValue>) -> Option<String> {
    match v {
        Some(JsonValue::String(s)) => Some(s.clone()),
        _ => None,
    }
}

fn as_num(v: Option<&JsonValue>) -> Option<u64> {
    match v {
        Some(JsonValue::Number(JsonNumber::PosInt(n))) => Some(*n),
        _ => None,
    }
}

fn platform() -> Platform {
    Platform { endian: Endian::Big, nvram_address: 0x100, nvram_nibble: Nibble::Both, nvram_offset: 0x100 }
}

fn settings() -> GlobalSettingsImpl {
    GlobalSettingsImpl {
        _endian: None,
        _nibble: None,
        _char_map: None,
        _values: Some(vec![("modes".to_string(), vec!["off".to_string(), "on".to_string()])]),
    }
}

fn image() -> Vec<u8> {
    // "ABC", a BCD score 1234, an enum index 1, then a checksum16 over
    // the first 8 bytes; the last 6 bytes hold the dip switches
    let mut data = vec![0x41, 0x42, 0x43, 0x12, 0x34, 0x01, 0x00, 0x00];
    let sum: u16 = data[..6].iter().map(|b| *b as u16).sum();
    let stored = 0xFFFF - sum;
    data[6] = (stored >> 8) as u8;
    data[7] = stored as u8;
    data.extend_from_slice(&[0b0000_0010, 0, 0, 0, 0, 0]);
    data
}

fn map() -> JsonValue {
    obj(vec![
        ("_notes", text("not resolved")),
        ("_fileformat", num(1)),
        (
            "high_scores",
            JsonValue::Array(vec![obj(vec![
                ("label", text("Grand Champion")),
                ("initials", obj(vec![("start", text("0x100")), ("encoding", text("ch")), ("length", num(3))])),
                (
                    "score",
                    obj(vec![
                        ("start", text("0x103")),
                        ("encoding", text("bcd")),
                        ("length", num(2)),
                        ("units", text("points")),
                    ]),
                ),
            ])]),
        ),
        (
            "mode",
            obj(vec![
                ("start", num(0x105)),
                ("encoding", text("enum")),
                ("values", JsonValue::Array(vec![text("easy"), text("hard")])),
                ("min", num(0)),
                ("max", num(0)),
            ]),
        ),
        ("lost", obj(vec![("start", text("0x10")), ("encoding", text("int")), ("label", text("Before"))])),
        ("switch", obj(vec![("offsets", JsonValue::Array(vec![num(2)])), ("encoding", text("dipsw")), ("values", text("modes"))])),
        ("checksum16", JsonValue::Array(vec![obj(vec![("start", text("0x100")), ("end", text("0x107")), ("label", text("all"))])])),
    ])
}

#[test]
fn resolve_replaces_descriptors_by_values() {
    let data = image();
    let resolved = resolve_recursive(&map(), &settings(), &platform(), &data, &scale).unwrap();
    assert!(field(&resolved, "_notes").is_none());
    assert_eq!(Some(1), as_num(field(&resolved, "_fileformat")));

    let hs = match field(&resolved, "high_scores") {
        Some(JsonValue::Array(items)) => &items[0],
        other => panic!("unexpected {other:?}"),
    };
    assert_eq!(Some("Grand Champion".to_string()), as_text(field(hs, "label")));
    assert_eq!(Some("ABC".to_string()), as_text(field(field(hs, "initials").unwrap(), "value")));
    let score = field(hs, "score").unwrap();
    assert_eq!(Some(1234), as_num(field(score, "value")));
    assert_eq!(Some("points".to_string()), as_text(field(score, "units")));
    assert!(field(score, "warning").is_none());

    let mode = field(&resolved, "mode").unwrap();
    assert_eq!(Some("hard".to_string()), as_text(field(mode, "value")));
    assert_eq!(Some("Value out of range: 0 ≤ 1 ≤ 0".to_string()), as_text(field(mode, "warning")));

    let lost = field(&resolved, "lost").unwrap();
    assert!(field(lost, "value").is_none());
    assert_eq!(Some("Before".to_string()), as_text(field(lost, "label")));
    assert_eq!(
        Some("Failed to resolve: Value is stored outside the NVRAM".to_string()),
        as_text(field(lost, "warning"))
    );

    let switch = field(&resolved, "switch").unwrap();
    assert_eq!(Some("on".to_string()), as_text(field(switch, "value")));

    match field(&resolved, "checksum16") {
        Some(JsonValue::Array(items)) => {
            assert_eq!(Some("all".to_string()), as_text(field(&items[0], "label")));
            assert_eq!(Some("valid".to_string()), as_text(field(&items[0], "value")));
        },
        other => panic!("unexpected {other:?}"),
    }
}

#[test]
fn resolve_reports_checksum_mismatch() {
    let mut data = image();
    data[7] ^= 0xFF;
    let resolved = resolve_recursive(&map(), &settings(), &platform(), &data, &scale).unwrap();
    match field(&resolved, "checksum16") {
        Some(JsonValue::Array(items)) => {
            assert_eq!(Some("mismatch".to_string()), as_text(field(&items[0], "value")));
            assert_eq!(Some(data[6] as u64 * 256 + data[7] as u64), as_num(field(&items[0], "checksum_mismatch_expected")));
        },
        other => panic!("unexpected {other:?}"),
    }
}

#[test]
fn resolve_fails_on_unknown_encoding() {
    let map = obj(vec![("x", obj(vec![("start", num(0x100)), ("encoding", text("bool"))]))]);
    let e = resolve_recursive(&map, &settings(), &platform(), &image(), &scale).unwrap_err();
    assert_eq!(ErrorKind::InvalidData, e.kind());
}

#[test]
fn resolve_enum_index_out_of_bounds() {
    let map = obj(vec![(
        "x",
        obj(vec![("start", num(0x100)), ("encoding", text("enum")), ("values", JsonValue::Array(vec![text("a")]))]),
    )]);
    let resolved = resolve_recursive(&map, &settings(), &platform(), &image(), &scale).unwrap();
    assert_eq!(
        Some("Failed to resolve: Index 65 out of bounds for enum with 1 values".to_string()),
        as_text(field(field(&resolved, "x").unwrap(), "warning"))
    );
}

#[test]
fn resolve_raw_and_bits() {
    let map = obj(vec![
        ("raw", obj(vec![("start", num(0x101)), ("encoding", text("raw")), ("length", num(2))])),
        ("bits", obj(vec![("start", num(0x101)), ("encoding", text("bits"))])),
    ]);
    let resolved = resolve_recursive(&map, &settings(), &platform(), &image(), &scale).unwrap();
    match field(field(&resolved, "raw").unwrap(), "value") {
        Some(JsonValue::Array(items)) => {
            assert_eq!(2, items.len());
            assert_eq!(Some(0x42), as_num(Some(&items[0])));
        },
        other => panic!("unexpected {other:?}"),
    }
    assert_eq!(
        Some("Bits encoding not implemented".to_string()),
        as_text(field(field(&resolved, "bits").unwrap(), "value"))
    );
}

#[test]
fn checksum16_entries_read_from_json() {
    let c = checksum16_from_json(&obj(vec![("start", text("0x10")), ("length", num(4)), ("label", text("a"))])).unwrap();
    assert_eq!(16, c.start.to_u64());
    assert_eq!(Some(4), c.length);
    assert!(checksum16_from_json(&obj(vec![("end", num(3))])).is_err());
    assert!(checksum16_from_json(&obj(vec![("start", text("16"))])).is_err());
}

#[test]
fn rom_names_and_index() {
    assert_eq!("afm_113b", rom_name("afm_113b.nv"));
    assert_eq!("hs_l4", rom_name("hs_l4.nv.json"));
    assert_eq!("plain", rom_name("plain"));
    let index = obj(vec![("_note", text("notes")), ("hs_l4", text("maps/williams/hs.nv.json"))]);
    assert!(index_entry(&index, "_note").is_none());
    assert!(index_entry(&index, "afm").is_none());
    assert_eq!(Some("maps/williams/hs.nv.json".to_string()), as_text(index_entry(&index, "hs_l4")));
}

#[test]
fn decompress_round_trip() {
    let plain = b"{\"hs_l4\": \"maps/hs.nv.json\"}".to_vec();
    let mut compressed = Vec::new();
    {
        let mut w = brotli::CompressorWriter::new(&mut compressed, 4096, 11, 22);
        w.write_all(&plain).unwrap();
    }
    assert_ne!(plain, compressed);
    assert_eq!(plain, decompress(&compressed).unwrap());
    let e = decompress(&plain).unwrap_err();
    assert_eq!("Invalid Data", e.message());
    assert_eq!(ErrorKind::InvalidData, e.kind());
}

use pinmame_nvram::model::{HexString};
use pinmame_nvram::resolve::can_resolve;

#[test]
fn can_resolve_accepts_well_formed_maps() {
    assert!(can_resolve(&map(), &settings(), &platform(), &image(), &scale));
}

#[test]
fn can_resolve_refuses_malformed_descriptors() {
    // a length that is not a number
    let bad_length = obj(vec![("x", obj(vec![("start", num(0x100)), ("encoding", text("int")), ("length", text("3"))]))]);
    assert!(!can_resolve(&bad_length, &settings(), &platform(), &image(), &scale));
    // a start that is decimal text
    let bad_start = obj(vec![("x", obj(vec![("start", text("256")), ("encoding", text("raw"))]))]);
    assert!(!can_resolve(&bad_start, &settings(), &platform(), &image(), &scale));
    // a checksum list that is not a list
    let bad_checksums = obj(vec![("checksum16", text("none"))]);
    assert!(!can_resolve(&bad_checksums, &settings(), &platform(), &image(), &scale));
    // keys that start with `_` are not resolved, so they are not checked
    let skipped = obj(vec![("_x", obj(vec![("start", text("256")), ("encoding", text("raw"))]))]);
    assert!(can_resolve(&skipped, &settings(), &platform(), &image(), &scale));
}

#[test]
fn hex_string_display_text() {
    let h = HexString { value: 16, serialized: "0x10".to_string() };
    assert_eq!("0x10 (16)", h.display_text());
}

#[test]
fn resolve_missing_start() {
    let map = obj(vec![("x", obj(vec![("encoding", text("raw"))]))]);
    let resolved = resolve_recursive(&map, &settings(), &platform(), &image(), &scale).unwrap();
    assert_eq!(
        Some("Failed to resolve: Missing start value for NVRAM encoding".to_string()),
        as_text(field(field(&resolved, "x").unwrap(), "warning"))
    );
}

#[test]
fn hex_strings_of_a_map() {
    let h = parse_hex_string("0x1A".to_string()).unwrap().unwrap();
    assert_eq!((26, "0x1A".to_string()), (h.value, h.serialized));
    assert!(parse_hex_string("1A".to_string()).is_none());
    assert!(parse_hex_string("0x1G".to_string()).is_none());
    assert!(matches!(parse_hex_string("0x".to_string()), Some(Err(NvramError::HexEmpty))));
    assert!(matches!(
        parse_hex_string("0x10000000000000000".to_string()),
        Some(Err(NvramError::HexTooLarge))
    ));
}
