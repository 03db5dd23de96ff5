use wurl::json::JsonNode;
use wurl::response::{parse_set_cookie, response_data};

#[test]
fn set_cookie_parsing() {
    let (name, c) = parse_set_cookie(" sid = abc ; Path=/; HttpOnly; ; SameSite = Strict;Secure");
    assert_eq!(name, "sid");
    assert_eq!(c.value, "abc");
    assert_eq!(
        c.attributes,
        vec![
            ("path".to_string(), Some("/".to_string())),
            ("httponly".to_string(), None),
            ("samesite".to_string(), Some("Strict".to_string())),
            ("secure".to_string(), None),
        ]
    );
    let (name, c) = parse_set_cookie("flag");
    assert_eq!(name, "flag");
    assert_eq!(c.value, "");
    assert!(c.attributes.is_empty());
    let (name, c) = parse_set_cookie("a=b=c");
    assert_eq!((name.as_str(), c.value.as_str()), ("a", "b=c"));
}

#[test]
fn response_from_parts() {
    let headers = vec![
        ("Content-Type".to_string(), "application/json".to_string()),
        ("X-A".to_string(), "1".to_string()),
    ];
    let cookies = vec!["s=1; HttpOnly".to_string(), "t=2".to_string()];
    let r = response_data(201, &headers, &cookies, "{\"a\":[1,\"x\"],\"b\":null}".to_string(), 12);
    assert_eq!(r.status, 201);
    assert_eq!(r.duration_ms, 12);
    assert_eq!(
        r.headers,
        vec![
            ("content-type".to_string(), "application/json".to_string()),
            ("x-a".to_string(), "1".to_string())
        ]
    );
    assert_eq!(r.cookies.len(), 2);
    assert_eq!(r.cookies[0].0, "s");
    assert_eq!(r.cookies[1].1.value, "2");
    let json = r.body_json.expect("valid JSON");
    assert_eq!(json.text, "{\"a\":[1,\"x\"],\"b\":null}");
    match &json.node {
        JsonNode::Object(ms) => {
            assert_eq!(ms.len(), 2);
            assert_eq!(ms[0].0, "a");
            assert_eq!(ms[0].1.text, "[1,\"x\"]");
            match &ms[0].1.node {
                JsonNode::Array(items) => {
                    assert!(matches!(items[0].node, JsonNode::Number(Some(1))));
                    assert!(matches!(&items[1].node, JsonNode::Str(s) if s == "x"));
                }
                _ => panic!("not an array"),
            }
        }
        _ => panic!("not an object"),
    }
    let r2 = response_data(200, &vec![], &vec![], "not json".to_string(), 0);
    assert!(r2.body_json.is_none());
}
