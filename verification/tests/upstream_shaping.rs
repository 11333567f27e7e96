//! Upstream request building and response extraction.
use lsat_proxy::config::Backend;
use lsat_proxy::upstream::{
    parse_indata, split_paragraphs, split_text, FieldValue, JsonValue, Upstream, UpstreamError,
};

fn backend(template: &str, pass_fields: &[(&str, &str)], response_fields: &str) -> Backend {
    Backend {
        name: "up".to_string(),
        path: "/echo".to_string(),
        upstream: "https://upstream.example/api".to_string(),
        headers: vec!["Content-Type: application/json".to_string(), "X-K: v".to_string()],
        body: template.to_string(),
        pass_fields: pass_fields
            .iter()
            .map(|(k, v)| (k.to_string(), v.to_string()))
            .collect(),
        capabilties: "".to_string(),
        constraints: vec![],
        price_msat: 1,
        budget_multiple: None,
        price_passthrough: false,
        response_fields: response_fields.to_string(),
    }
}

fn pairs(items: &[(&str, &str)]) -> Vec<(String, String)> {
    items
        .iter()
        .map(|(k, v)| (k.to_string(), v.to_string()))
        .collect()
}

#[test]
fn projection_coerces_declared_types() {
    let indata = pairs(&[("q", "hello"), ("n", "-42"), ("f", "1.5")]);
    let fields = pairs(&[("q", "string"), ("n", "int"), ("f", "float")]);
    let out = parse_indata(&indata, &fields).expect("project");
    assert_eq!(out.len(), 3);
    assert!(matches!(&out[0].1, FieldValue::Str(s) if s == "hello"));
    assert!(matches!(&out[1].1, FieldValue::Int(n) if *n == -42));
    assert!(matches!(&out[2].1, FieldValue::FloatText(s) if s == "1.5"));
}

#[test]
fn projection_rejects_bad_inputs() {
    let indata = pairs(&[("q", "hello")]);
    // missing key
    let r = parse_indata(&indata, &pairs(&[("missing", "string")]));
    assert_eq!(r.unwrap_err(), UpstreamError::MissingField);
    // unknown declared type
    let r = parse_indata(&indata, &pairs(&[("q", "decimal")]));
    assert_eq!(r.unwrap_err(), UpstreamError::UnknownFieldType);
    // int that does not parse
    let r = parse_indata(&pairs(&[("n", "4x")]), &pairs(&[("n", "int")]));
    assert_eq!(r.unwrap_err(), UpstreamError::InvalidNumber);
    // int out of 32-bit range
    let r = parse_indata(&pairs(&[("n", "2147483648")]), &pairs(&[("n", "int")]));
    assert_eq!(r.unwrap_err(), UpstreamError::InvalidNumber);
    let ok = parse_indata(&pairs(&[("n", "2147483647")]), &pairs(&[("n", "int")]));
    assert!(ok.is_ok());
}

#[test]
fn projection_validates_float_text() {
    // a float field must denote a finite 32-bit float
    for bad in ["abc", "", ".", "1e", "1.2.3", "inf", "nan", "--5"] {
        let r = parse_indata(&pairs(&[("f", bad)]), &pairs(&[("f", "float")]));
        assert_eq!(r.unwrap_err(), UpstreamError::InvalidNumber);
    }
    for good in ["1.5", "-0.25", "3.", ".5", "+7", "2e10", "6.02E-23"] {
        let r = parse_indata(&pairs(&[("f", good)]), &pairs(&[("f", "float")]));
        assert!(matches!(&r.expect("float")[0].1, FieldValue::FloatText(s) if s == good));
    }
}

fn obj_get<'a>(v: &'a JsonValue, key: &str) -> Option<&'a JsonValue> {
    match v {
        JsonValue::Obj(fs) => fs.iter().find(|(k, _)| k == key).map(|(_, x)| x),
        _ => None,
    }
}

#[test]
fn build_overlays_fields_on_template() {
    let b = backend(r#"{"model":"small","q":"default"}"#, &[("q", "string")], "data");
    let up = Upstream::new(b).expect("new");
    let req = up
        .build(&pairs(&[("q", "hello"), ("ignored", "x")]))
        .expect("build");
    assert_eq!(req.uri, "https://upstream.example/api");
    assert_eq!(req.headers.len(), 2);
    assert_eq!(req.headers[0].0, "Content-Type");
    assert_eq!(req.headers[0].1, "application/json");
    // the template key survives, the projected key replaces its default
    assert!(matches!(obj_get(&req.body, "model"), Some(JsonValue::Str(s)) if s == "small"));
    assert!(matches!(obj_get(&req.body, "q"), Some(JsonValue::Str(s)) if s == "hello"));
}

#[test]
fn build_renders_numeric_fields() {
    let b = backend("{}", &[("n", "int"), ("f", "float")], "data");
    let up = Upstream::new(b).expect("new");
    let req = up
        .build(&pairs(&[("n", "-42"), ("f", "2.75")]))
        .expect("build");
    assert!(matches!(obj_get(&req.body, "n"), Some(JsonValue::Num(b)) if b == b"-42"));
    assert!(matches!(obj_get(&req.body, "f"), Some(JsonValue::Num(b)) if b == b"2.75"));
}

#[test]
fn build_rejects_bad_template_and_headers() {
    let r = Upstream::new(backend("[1,2]", &[], "data"));
    assert!(r.is_err());
    let r = Upstream::new(backend("not json", &[], "data"));
    assert!(r.is_err());
    let mut bad = backend("{}", &[], "data");
    bad.headers = vec!["NoColonHere".to_string()];
    let up = Upstream::new(bad).expect("new");
    assert_eq!(up.build(&Vec::new()).unwrap_err(), UpstreamError::HeaderInvalid);
}

#[test]
fn parse_extracts_along_dotted_path() {
    let b = backend("{}", &[], "choices.0.text");
    let up = Upstream::new(b).expect("new");
    let body = r#"{"choices":[{"text":"  first\n\nsecond "},{"text":"other"}]}"#;
    let out = up.parse(body).expect("parse");
    assert_eq!(out, "  first\n\nsecond ");
    let paras = split_paragraphs(&out);
    assert_eq!(paras, vec!["first".to_string(), "second".to_string()]);
}

#[test]
fn parse_rejects_missing_or_nonstring() {
    let b = backend("{}", &[], "data.text");
    let up = Upstream::new(b).expect("new");
    assert_eq!(
        up.parse("not json").unwrap_err(),
        UpstreamError::ResponseInvalid
    );
    assert_eq!(
        up.parse(r#"{"data":{}}"#).unwrap_err(),
        UpstreamError::ResponseInvalid
    );
    assert_eq!(
        up.parse(r#"{"data":{"text":5}}"#).unwrap_err(),
        UpstreamError::NotString
    );
}

#[test]
fn text_splitting() {
    let segs = split_text("a.0.c", '.');
    assert_eq!(segs, vec!["a".to_string(), "0".to_string(), "c".to_string()]);
    let segs = split_text("", '.');
    assert_eq!(segs, vec!["".to_string()]);
    let segs = split_text("a..b", '.');
    assert_eq!(segs, vec!["a".to_string(), "".to_string(), "b".to_string()]);
    let paras = split_paragraphs("one\n\n\n\ntwo");
    assert_eq!(paras, vec!["one".to_string(), "".to_string(), "two".to_string()]);
    let paras = split_paragraphs("   ");
    assert_eq!(paras, vec!["".to_string()]);
}
