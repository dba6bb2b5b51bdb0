use aether_vm::http::{
    build_http_request, content_length, head_complete, http_request_value, http_response_value,
    parse_http_head, parse_request_line, MAX_HEAD_BYTES,
};
use aether_vm::strmap::StrMap;
use aether_vm::value::Value;

fn header(h: &StrMap<String>, k: &str) -> Option<String> {
    h.get(&k.to_string()).cloned()
}

#[test]
fn head_splits_into_first_line_and_headers() {
    let head = "GET /a?b=1 HTTP/1.1\r\nHost: example.com\r\nContent-Length:  12 \r\nX-Flag\r\nACCEPT: */*\r\n\r\nignored: yes\r\n";
    let (first, headers) = parse_http_head(head);
    assert_eq!(first, "GET /a?b=1 HTTP/1.1");
    assert_eq!(header(&headers, "host"), Some("example.com".to_string()));
    assert_eq!(header(&headers, "content-length"), Some("12".to_string()));
    assert_eq!(header(&headers, "accept"), Some("*/*".to_string()));
    assert_eq!(header(&headers, "ignored"), None);
    assert_eq!(headers.len(), 3);
    assert_eq!(content_length(&headers), 12);
}

#[test]
fn later_header_wins_and_values_keep_colons() {
    let (first, headers) = parse_http_head("HTTP/1.1 200 OK\r\nA: 1\r\na: 2\r\nTime: 10:30");
    assert_eq!(first, "HTTP/1.1 200 OK");
    assert_eq!(header(&headers, "a"), Some("2".to_string()));
    assert_eq!(header(&headers, "time"), Some("10:30".to_string()));
    let (only, none) = parse_http_head("");
    assert_eq!(only, "");
    assert_eq!(none.len(), 0);
}

#[test]
fn content_length_defaults_to_zero() {
    let mut h = StrMap::new();
    assert_eq!(content_length(&h), 0);
    h.insert("content-length".to_string(), "abc".to_string());
    assert_eq!(content_length(&h), 0);
    h.insert("content-length".to_string(), "+7".to_string());
    assert_eq!(content_length(&h), 7);
}

#[test]
fn request_lines() {
    assert_eq!(
        parse_request_line("get /search?q=rust&x=1 HTTP/1.1"),
        Ok(("GET".to_string(), "/search".to_string(), "q=rust&x=1".to_string()))
    );
    assert_eq!(
        parse_request_line("POST   /submit   HTTP/1.1"),
        Ok(("POST".to_string(), "/submit".to_string(), "".to_string()))
    );
    assert_eq!(parse_request_line("GET"), Err("Malformed HTTP request line".to_string()));
}

#[test]
fn client_request_text() {
    let none: Vec<(String, String)> = vec![];
    assert_eq!(
        build_http_request("GET", "localhost", 8080, "/", "", &none),
        "GET / HTTP/1.1\r\nHost: localhost:8080\r\nUser-Agent: Aether/2.0\r\nConnection: close\r\n\r\n"
    );
    assert_eq!(
        build_http_request("POST", "h", 80, "/p", "{\"a\":\"é\"}", &none),
        "POST /p HTTP/1.1\r\nHost: h:80\r\nUser-Agent: Aether/2.0\r\nConnection: close\r\nContent-Type: application/json\r\nContent-Length: 10\r\n\r\n{\"a\":\"é\"}"
    );
    let custom = vec![("content-TYPE".to_string(), "text/plain".to_string())];
    assert_eq!(
        build_http_request("PUT", "h", 1, "/x", "hi", &custom),
        "PUT /x HTTP/1.1\r\nHost: h:1\r\nUser-Agent: Aether/2.0\r\nConnection: close\r\ncontent-TYPE: text/plain\r\nContent-Length: 2\r\n\r\nhi"
    );
}

#[test]
fn response_and_request_values() {
    let mut h = StrMap::new();
    h.insert("server".to_string(), "x".to_string());
    match http_response_value("HTTP/1.1 404 Not Found", &h, "nope".to_string()) {
        Value::MapEntries(es) => {
            assert!(matches!(es[0].1, Value::Int(404)));
            assert!(matches!(es[1].1, Value::Bool(false)));
            assert!(matches!(&es[2].1, Value::String(s) if s == "nope"));
            assert!(matches!(&es[3].1, Value::MapEntries(hs) if hs.len() == 1));
        },
        _ => panic!("a map"),
    }
    match http_response_value("garbage", &h, String::new()) {
        Value::MapEntries(es) => {
            assert!(matches!(es[0].1, Value::Int(200)));
            assert!(matches!(es[1].1, Value::Bool(true)));
        },
        _ => panic!("a map"),
    }
    match http_request_value(5, "GET".to_string(), "/a".to_string(), "b=1".to_string(), &h, String::new()) {
        Value::MapEntries(es) => {
            let keys: Vec<&str> = es.iter().map(|(k, _)| k.as_str()).collect();
            assert_eq!(keys, vec!["id", "method", "path", "query", "headers", "body"]);
            assert!(matches!(es[0].1, Value::Int(5)));
        },
        _ => panic!("a map"),
    }
}

#[test]
fn head_ends_with_blank_line() {
    assert!(head_complete(&b"GET / HTTP/1.1\r\n\r\n".to_vec()));
    assert!(!head_complete(&b"GET / HTTP/1.1\r\n".to_vec()));
    assert!(!head_complete(&b"\r\n".to_vec()));
    assert_eq!(MAX_HEAD_BYTES, 65536);
}
