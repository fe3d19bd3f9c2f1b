use cloudevents_echo::server::{handle_get, handle_post};
use cloudevents_echo::structured::decode_structured;
use cloudevents_echo::binary::decode_binary;

fn b(s: &str) -> Vec<u8> {
    s.as_bytes().to_vec()
}

fn structured_headers() -> Vec<(Vec<u8>, Vec<u8>)> {
    vec![(b("content-type"), b("application/cloudevents+json"))]
}

#[test]
fn get_returns_fixed_greeting() {
    let r = handle_get();
    assert_eq!(r.status, 200);
    assert_eq!(r.body, b("hello from cloudevents server"));
}

#[test]
fn post_structured_echoes_event() {
    let body = b("{\"id\":\"0001\",\"type\":\"example.test\",\"source\":\"http://localhost\",\"time\":\"2024-01-01T00:00:00Z\",\"datacontenttype\":\"application/json\",\"data\":{\"hello\":\"world\"},\"someint\":\"10\"}");
    let r = handle_post(&structured_headers(), &body);
    assert_eq!(r.status, 200);
    assert_eq!(
        r.headers,
        vec![(b("content-type"), b("application/cloudevents+json"))]
    );
    let e = decode_structured(&r.body).unwrap();
    assert_eq!(e.id, b("0001"));
    assert_eq!(e.ty, b("example.test"));
    assert_eq!(e.source, b("http://localhost"));
    assert_eq!(e.time, Some(b("2024-01-01T00:00:00Z")));
    assert_eq!(e.data, Some(b("{\"hello\":\"world\"}")));
    assert_eq!(e.extensions, vec![(b("someint"), b("10"))]);
}

#[test]
fn post_missing_id_is_client_error() {
    let body = b("{\"type\":\"example.test\",\"source\":\"http://localhost\"}");
    let r = handle_post(&structured_headers(), &body);
    assert_eq!(r.status, 400);
    assert_ne!(r.status, 200);
    assert_eq!(r.body, b("missing required attribute: id"));
}

#[test]
fn post_malformed_body_is_client_error() {
    let r = handle_post(&structured_headers(), b("{oops").as_slice());
    assert_eq!(r.status, 400);
    assert_eq!(r.body, b("malformed event"));
}

#[test]
fn post_binary_echoes_event() {
    let headers = vec![
        (b("ce-id"), b("42")),
        (b("ce-type"), b("example.test")),
        (b("ce-source"), b("urn:here")),
        (b("content-type"), b("text/plain")),
    ];
    let r = handle_post(&headers, b("payload").as_slice());
    assert_eq!(r.status, 200);
    let e = decode_binary(&r.headers, &r.body).unwrap();
    assert_eq!(e.id, b("42"));
    assert_eq!(e.ty, b("example.test"));
    assert_eq!(e.source, b("urn:here"));
    assert_eq!(e.datacontenttype, Some(b("text/plain")));
    assert_eq!(e.data, Some(b("payload")));
}

#[test]
fn posts_with_distinct_ids_stay_independent() {
    let one = b("{\"id\":\"alpha\",\"type\":\"t\",\"source\":\"s\"}");
    let two = b("{\"id\":\"beta\",\"type\":\"t\",\"source\":\"s\"}");
    let r1 = handle_post(&structured_headers(), &one);
    let r2 = handle_post(&structured_headers(), &two);
    let e1 = decode_structured(&r1.body).unwrap();
    let e2 = decode_structured(&r2.body).unwrap();
    assert_eq!(e1.id, b("alpha"));
    assert_eq!(e2.id, b("beta"));
    let r1_again = handle_post(&structured_headers(), &one);
    assert_eq!(r1.body, r1_again.body);
}

#[test]
fn hello_world() {
    let mut req_event = cloudevents_echo::Event::new(
        b("0001"),
        b("example.test"),
        b("http://localhost"),
    );
    req_event.set_time(b("2024-01-01T00:00:00Z"));
    req_event.set_data(b("application/json"), b("{\"hello\":\"world\"}"));
    req_event.add_extension(b("someint"), b("10"));
    let body = cloudevents_echo::structured::encode_structured(&req_event);
    let r = handle_post(&structured_headers(), &body);
    assert_eq!(r.status, 200);
    let resp = decode_structured(&r.body).unwrap();
    assert_eq!(resp, req_event);
    println!("client received event {}", String::from_utf8_lossy(&r.body));
}
