use tensorpeek::json::Json;

fn parse(s: &str) -> Json {
    Json::parse(s.as_bytes()).expect("valid JSON")
}

#[test]
fn parses_scalars_and_keywords() {
    assert_eq!(parse("null"), Json::Null);
    assert_eq!(parse("true"), Json::Bool(true));
    assert_eq!(parse(" false "), Json::Bool(false));
    assert_eq!(parse("42"), Json::Int(42));
    assert_eq!(parse("-7"), Json::Int(-7));
    assert_eq!(parse("2.5"), Json::Float(2.5f64.to_bits()));
    assert_eq!(parse("1e3"), Json::Float(1000.0f64.to_bits()));
}

#[test]
fn preserves_u64_offsets_exactly() {
    // 2^63 + 3 loses precision through f64; safetensors offsets must not.
    let v = parse("9223372036854775811");
    assert_eq!(v, Json::Int(9_223_372_036_854_775_811));
}

#[test]
fn object_key_order_is_preserved_and_accessors_work() {
    let v = parse(r#"{"z":1,"a":"F32","m":[2,3]}"#);
    let Json::Obj(ref members) = v else {
        panic!("not an object")
    };
    let keys: Vec<&str> = members.iter().map(|(k, _)| k.as_str()).collect();
    assert_eq!(keys, ["z", "a", "m"]);
    assert_eq!(v.get("a").and_then(Json::as_str), Some("F32"));
    assert_eq!(
        v.get("m").and_then(Json::as_arr).unwrap()[0].as_int(),
        Some(2)
    );
    assert!(v.get("missing").is_none());
}

#[test]
fn decodes_escapes_surrogate_pairs_and_multibyte_utf8() {
    assert_eq!(parse(r#""a\nb\t\"\\""#), Json::Str("a\nb\t\"\\".into()));
    assert_eq!(parse(r#""é""#), Json::Str("é".into()));
    // U+1F600 as a surrogate pair.
    assert_eq!(parse(r#""😀""#), Json::Str("😀".into()));
    assert_eq!(
        parse("\"多言語テンソル\""),
        Json::Str("多言語テンソル".into())
    );
}

#[test]
fn rejects_malformed_documents_with_byte_offsets() {
    // Lone surrogates and bad escapes.
    assert!(Json::parse(br#""\ud800""#).is_err());
    assert!(Json::parse(br#""\udc00""#).is_err());
    assert!(Json::parse(br#""\q""#).is_err());
    // Trailing garbage, leading zeros, raw control characters.
    assert!(Json::parse(b"{} x").is_err());
    assert!(Json::parse(b"01").is_err());
    assert!(Json::parse(b"\"a\x01b\"").is_err());
    // Errors carry the byte offset where parsing failed.
    assert_eq!(Json::parse(br#"{"a": }"#).unwrap_err().offset, 6);
}

#[test]
fn depth_cap_stops_a_nesting_bomb() {
    let bomb = "[".repeat(100_000);
    let err = Json::parse(bomb.as_bytes()).unwrap_err();
    assert!(err.msg.contains("deep"), "got: {}", err.msg);
}

#[test]
fn pretty_and_compact_round_trip() {
    let src = r#"{"name":"fc1.weight","shape":[8,16],"ok":true,"lr":0.001,"note":null}"#;
    let v = parse(src);
    assert_eq!(Json::parse(v.pretty().as_bytes()).unwrap(), v);
    assert_eq!(v.compact(), src);
}

#[test]
fn serializer_escapes_and_marks_floats() {
    assert_eq!(Json::Str("a\"b\u{1}".into()).compact(), "\"a\\\"b\\u0001\"");
    // A whole-number float keeps a decimal point so it re-parses as a float.
    assert_eq!(Json::Float(3.0f64.to_bits()).compact(), "3.0");
    assert_eq!(Json::Float(f64::NAN.to_bits()).compact(), "null");
}
