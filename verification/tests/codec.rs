use cloudevents_echo::event::Event;
use cloudevents_echo::event::DecodeError;
use cloudevents_echo::structured::{encode_structured, decode_structured};
use cloudevents_echo::binary::{encode_binary, decode_binary};
use cloudevents_echo::json::check_json_value;

fn b(s: &str) -> Vec<u8> {
    s.as_bytes().to_vec()
}

fn sample_event() -> Event {
    let mut e = Event::new(b("0001"), b("example.test"), b("http://localhost"));
    e.set_time(b("2024-01-01T00:00:00Z"));
    e.set_data(b("application/json"), b("{\"hello\":\"world\"}"));
    e.add_extension(b("someint"), b("10"));
    e
}

#[test]
fn structured_encode_is_canonical() {
    let e = sample_event();
    let out = encode_structured(&e);
    let expected = "{\"id\":\"0001\",\"type\":\"example.test\",\"source\":\"http://localhost\",\"time\":\"2024-01-01T00:00:00Z\",\"datacontenttype\":\"application/json\",\"data\":{\"hello\":\"world\"},\"someint\":\"10\"}";
    assert_eq!(out, expected.as_bytes().to_vec());
}

#[test]
fn structured_round_trip() {
    let e = sample_event();
    let out = encode_structured(&e);
    let back = decode_structured(&out).unwrap();
    assert_eq!(back.id, b("0001"));
    assert_eq!(back.ty, b("example.test"));
    assert_eq!(back.source, b("http://localhost"));
    assert_eq!(back.time, Some(b("2024-01-01T00:00:00Z")));
    assert_eq!(back.datacontenttype, Some(b("application/json")));
    assert_eq!(back.data, Some(b("{\"hello\":\"world\"}")));
    assert_eq!(back.extensions, vec![(b("someint"), b("10"))]);
}

#[test]
fn structured_round_trip_minimal() {
    let e = Event::new(b("x"), b("t"), b("urn:s"));
    let out = encode_structured(&e);
    assert_eq!(out, b("{\"id\":\"x\",\"type\":\"t\",\"source\":\"urn:s\"}"));
    let back = decode_structured(&out).unwrap();
    assert_eq!(back.id, b("x"));
    assert_eq!(back.time, None);
    assert_eq!(back.data, None);
    assert!(back.extensions.is_empty());
}

#[test]
fn structured_round_trip_escapes() {
    let mut e = Event::new(b("a\"b\\c"), b("line\nbreak"), b("urn:q"));
    e.add_extension(b("note7"), b("tab\there"));
    let out = encode_structured(&e);
    let back = decode_structured(&out).unwrap();
    assert_eq!(back.id, b("a\"b\\c"));
    assert_eq!(back.ty, b("line\nbreak"));
    assert_eq!(back.extensions, vec![(b("note7"), b("tab\there"))]);
}

#[test]
fn decode_accepts_any_member_order_and_whitespace() {
    let body = b(" { \"source\" : \"urn:s\" , \"id\" : \"7\" , \"type\" : \"t\" } ");
    let e = decode_structured(&body).unwrap();
    assert_eq!(e.id, b("7"));
    assert_eq!(e.ty, b("t"));
    assert_eq!(e.source, b("urn:s"));
}

#[test]
fn decode_data_variants() {
    for data in ["\"text\"", "17", "-3.5e2", "true", "null", "[1,2,3]", "{\"a\":{\"b\":\"}\"}}"] {
        let body = format!(
            "{{\"id\":\"1\",\"type\":\"t\",\"source\":\"s\",\"data\":{}}}",
            data
        );
        let e = decode_structured(body.as_bytes()).unwrap();
        assert_eq!(e.data, Some(data.as_bytes().to_vec()), "data case {}", data);
    }
}

#[test]
fn decode_missing_id() {
    let body = b("{\"type\":\"t\",\"source\":\"s\"}");
    assert_eq!(decode_structured(&body), Err(DecodeError::MissingId));
}

#[test]
fn decode_missing_type_and_source() {
    assert_eq!(
        decode_structured(&b("{\"id\":\"1\",\"source\":\"s\"}")),
        Err(DecodeError::MissingType)
    );
    assert_eq!(
        decode_structured(&b("{\"id\":\"1\",\"type\":\"t\"}")),
        Err(DecodeError::MissingSource)
    );
}

#[test]
fn decode_malformed_json() {
    assert_eq!(decode_structured(&b("not json")), Err(DecodeError::Malformed));
    assert_eq!(decode_structured(&b("{\"id\":\"1\"")), Err(DecodeError::Malformed));
    assert_eq!(decode_structured(&b("{\"id\":1,\"type\":\"t\",\"source\":\"s\"}")),
        Err(DecodeError::Malformed));
    assert_eq!(decode_structured(&b("")), Err(DecodeError::Malformed));
}

#[test]
fn decode_duplicate_attribute() {
    let body = b("{\"id\":\"1\",\"id\":\"2\",\"type\":\"t\",\"source\":\"s\"}");
    assert_eq!(decode_structured(&body), Err(DecodeError::DuplicateAttribute));
    let body2 = b("{\"id\":\"1\",\"type\":\"t\",\"source\":\"s\",\"k1\":\"a\",\"k1\":\"b\"}");
    assert_eq!(decode_structured(&body2), Err(DecodeError::DuplicateAttribute));
}

#[test]
fn decode_malformed_time() {
    let body = b("{\"id\":\"1\",\"type\":\"t\",\"source\":\"s\",\"time\":\"yesterday\"}");
    assert_eq!(decode_structured(&body), Err(DecodeError::MalformedTime));
    let feb29 = b("{\"id\":\"1\",\"type\":\"t\",\"source\":\"s\",\"time\":\"2023-02-29T00:00:00Z\"}");
    assert_eq!(decode_structured(&feb29), Err(DecodeError::MalformedTime));
}

#[test]
fn decode_accepts_time_formats() {
    for t in [
        "2024-02-29T23:59:60Z",
        "2024-01-01t00:00:00z",
        "2024-01-01T12:30:15.25+05:30",
        "1999-12-31T23:59:59-08:00",
    ] {
        let body = format!(
            "{{\"id\":\"1\",\"type\":\"t\",\"source\":\"s\",\"time\":\"{}\"}}",
            t
        );
        let e = decode_structured(body.as_bytes()).unwrap();
        assert_eq!(e.time, Some(t.as_bytes().to_vec()), "time case {}", t);
    }
}

#[test]
fn binary_round_trip() {
    let e = sample_event();
    let (headers, body) = encode_binary(&e);
    assert_eq!(
        headers,
        vec![
            (b("ce-id"), b("0001")),
            (b("ce-type"), b("example.test")),
            (b("ce-source"), b("http://localhost")),
            (b("ce-time"), b("2024-01-01T00:00:00Z")),
            (b("content-type"), b("application/json")),
            (b("ce-someint"), b("10")),
        ]
    );
    assert_eq!(body, b("{\"hello\":\"world\"}"));
    let back = decode_binary(&headers, &body).unwrap();
    assert_eq!(back.id, b("0001"));
    assert_eq!(back.ty, b("example.test"));
    assert_eq!(back.source, b("http://localhost"));
    assert_eq!(back.time, Some(b("2024-01-01T00:00:00Z")));
    assert_eq!(back.datacontenttype, Some(b("application/json")));
    assert_eq!(back.data, Some(b("{\"hello\":\"world\"}")));
    assert_eq!(back.extensions, vec![(b("someint"), b("10"))]);
}

#[test]
fn binary_decode_ignores_case_and_other_headers() {
    let headers = vec![
        (b("Ce-Id"), b("9")),
        (b("CE-TYPE"), b("t")),
        (b("ce-source"), b("s")),
        (b("Accept"), b("*/*")),
        (b("Content-Length"), b("0")),
    ];
    let e = decode_binary(&headers, &[]).unwrap();
    assert_eq!(e.id, b("9"));
    assert_eq!(e.ty, b("t"));
    assert_eq!(e.source, b("s"));
    assert_eq!(e.data, None);
    assert!(e.extensions.is_empty());
}

#[test]
fn binary_decode_missing_id() {
    let headers = vec![(b("ce-type"), b("t")), (b("ce-source"), b("s"))];
    assert_eq!(decode_binary(&headers, &[]), Err(DecodeError::MissingId));
}

#[test]
fn binary_decode_duplicate_header() {
    let headers = vec![
        (b("ce-id"), b("1")),
        (b("CE-ID"), b("2")),
        (b("ce-type"), b("t")),
        (b("ce-source"), b("s")),
    ];
    assert_eq!(decode_binary(&headers, &[]), Err(DecodeError::DuplicateAttribute));
}

#[test]
fn structured_rejects_bad_extension_name() {
    let upper = b("{\"id\":\"1\",\"type\":\"t\",\"source\":\"s\",\"Someint\":\"10\"}");
    assert_eq!(decode_structured(&upper), Err(DecodeError::Malformed));
    let nonstring = b("{\"id\":\"1\",\"type\":\"t\",\"source\":\"s\",\"someint\":10}");
    assert_eq!(decode_structured(&nonstring), Err(DecodeError::Malformed));
}

#[test]
fn binary_rejects_bad_extension_header() {
    let headers = vec![
        (b("ce-id"), b("1")),
        (b("ce-type"), b("t")),
        (b("ce-source"), b("s")),
        (b("ce-some_int"), b("10")),
    ];
    assert_eq!(decode_binary(&headers, &[]), Err(DecodeError::Malformed));
    let reserved = vec![
        (b("ce-id"), b("1")),
        (b("ce-type"), b("t")),
        (b("ce-source"), b("s")),
        (b("ce-data"), b("x")),
    ];
    assert_eq!(decode_binary(&reserved, &[]), Err(DecodeError::Malformed));
}

#[test]
fn structured_encode_escapes_control_bytes() {
    let e = Event::new(b("a\u{1f}b"), b("t"), b("s"));
    let out = encode_structured(&e);
    assert_eq!(
        out,
        b("{\"id\":\"a\\u001fb\",\"type\":\"t\",\"source\":\"s\"}")
    );
    let back = decode_structured(&out).unwrap();
    assert_eq!(back.id, b("a\u{1f}b"));
}

#[test]
fn check_json_value_accepts_exact_values() {
    for good in ["{\"a\":1}", "[]", "\"s\"", "17", "true", "null", "-2.5e-1"] {
        assert!(check_json_value(good.as_bytes()), "case {}", good);
    }
    for bad in ["", " 1", "1 2", "{", "\"unterminated", "tru"] {
        assert!(!check_json_value(bad.as_bytes()), "case {}", bad);
    }
}
