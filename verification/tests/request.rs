use wurl::request::{
    cookie_header, header_pairs, is_absolute, method_from_lower, plan_request, plan_test_request,
    query_pairs, request_url, resolve_url, shell_split, str_to_method, with_scheme, HttpMethod,
    RequestFlags, TestRequest,
};

fn flags(base: &str, path: Option<&str>) -> RequestFlags {
    RequestFlags {
        base: base.to_string(),
        path: path.map(|p| p.to_string()),
        query: vec![],
        headers: vec![],
        cookies: vec![],
        json: vec![],
    }
}

fn strings(v: &[&str]) -> Vec<String> {
    v.iter().map(|s| s.to_string()).collect()
}

#[test]
fn shell_split_doc_example() {
    assert_eq!(
        shell_split(r#"get "https://api.example.com/users" --query page=1"#),
        strings(&["get", "https://api.example.com/users", "--query", "page=1"])
    );
}

#[test]
fn shell_split_quotes_and_escapes() {
    assert_eq!(
        shell_split("  post \"a b\"\t--json x=\"1\" \"\" \"q\\\"x\\\\\" \"open"),
        strings(&["post", "a b", "--json", "x=\"1\"", "", "q\"x\\", "open"])
    );
    assert_eq!(shell_split(""), Vec::<String>::new());
    assert_eq!(shell_split("   \n "), Vec::<String>::new());
    assert_eq!(shell_split("a\u{3000}b"), strings(&["a", "b"]));
    assert_eq!(shell_split("\"x\\"), strings(&["x"]));
}

#[test]
fn methods() {
    assert_eq!(str_to_method("GET"), Ok(HttpMethod::Get));
    assert_eq!(str_to_method("Post"), Ok(HttpMethod::Post));
    assert_eq!(str_to_method("put"), Ok(HttpMethod::Put));
    assert_eq!(str_to_method("PATCH"), Ok(HttpMethod::Patch));
    assert_eq!(str_to_method("delete"), Ok(HttpMethod::Delete));
    assert_eq!(str_to_method("HEAD"), Err("unknown method: head".to_string()));
    assert_eq!(method_from_lower("GET"), Err("unknown method: GET".to_string()));
    assert_eq!(method_from_lower("get"), Ok(HttpMethod::Get));
}

#[test]
fn urls() {
    assert!(is_absolute("http://x"));
    assert!(is_absolute("https://x"));
    assert!(!is_absolute("ftp://x"));
    assert_eq!(request_url(&flags("http://h", Some("/p"))), "http://h/p");
    assert_eq!(request_url(&flags("http://h", None)), "http://h");
    assert_eq!(request_url(&flags("example.com", Some("/users"))), "http://example.com/users");
    assert_eq!(resolve_url("https://base", &flags("/users", Some("/1"))), "https://base/users/1");
    assert_eq!(resolve_url("https://base", &flags("http://abs", Some("/1"))), "http://abs/1");
    assert_eq!(resolve_url("", &flags("/users", None)), "/users");
    assert_eq!(with_scheme("example.com".to_string()), "http://example.com");
    assert_eq!(with_scheme("https://example.com".to_string()), "https://example.com");
}

#[test]
fn pairs_and_cookies() {
    let q = query_pairs(&strings(&["page=1", "bad", "a=b=c", "=v"]));
    assert_eq!(
        q,
        vec![
            ("page".to_string(), "1".to_string()),
            ("a".to_string(), "b=c".to_string()),
            ("".to_string(), "v".to_string())
        ]
    );
    let h = header_pairs(&strings(&[" Authorization : Bearer t ", "nocolon", "X:1:2"]));
    assert_eq!(
        h,
        vec![
            ("Authorization".to_string(), "Bearer t".to_string()),
            ("X".to_string(), "1:2".to_string())
        ]
    );
    assert_eq!(cookie_header(&strings(&["a=1", "junk", "b=2"])), Some("a=1; b=2".to_string()));
    assert_eq!(cookie_header(&strings(&["junk"])), None);
    assert_eq!(cookie_header(&vec![]), None);
}

#[test]
fn plans() {
    let mut f = flags("/users", Some("/7"));
    f.query = strings(&["x=1"]);
    f.headers = strings(&["A: b"]);
    f.cookies = strings(&["s=1"]);
    let req = TestRequest { method: "Get".to_string(), args: f };
    let p = plan_test_request(&req, "http://base").unwrap();
    assert_eq!(p.method, HttpMethod::Get);
    assert_eq!(p.url, "http://base/users/7");
    assert_eq!(p.query, vec![("x".to_string(), "1".to_string())]);
    assert_eq!(p.headers, vec![("A".to_string(), "b".to_string())]);
    assert_eq!(p.cookie, Some("s=1".to_string()));

    let bad = TestRequest { method: "fetch".to_string(), args: flags("x", None) };
    assert_eq!(plan_test_request(&bad, "").err(), Some("unknown method: fetch".to_string()));

    let p2 = plan_request(HttpMethod::Post, "http://h".to_string(), &flags("http://h", None));
    assert_eq!(p2.method, HttpMethod::Post);
    assert!(p2.query.is_empty() && p2.headers.is_empty() && p2.cookie.is_none());
}
