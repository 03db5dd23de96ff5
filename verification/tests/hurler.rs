use wurl::error::WurlError;
use wurl::hurler::Ho;

#[test]
fn ho_new_splits_and_adds_scheme() {
    let ho = Ho::new("example.com/x".to_string(), Some("{}".to_string()), &["a=1", "b=c=d"], &["H:v", "K:"])
        .unwrap();
    assert_eq!(ho.path, "http://example.com/x");
    assert_eq!(ho.body, Some("{}".to_string()));
    assert_eq!(
        ho.queries,
        Some(vec![("a".to_string(), "1".to_string()), ("b".to_string(), "c=d".to_string())])
    );
    assert_eq!(
        ho.headers,
        Some(vec![("H".to_string(), "v".to_string()), ("K".to_string(), "".to_string())])
    );
    let https = Ho::new("https://h".to_string(), None, &[], &[]).unwrap();
    assert_eq!(https.path, "https://h");
}

#[test]
fn ho_new_refuses_missing_values() {
    match Ho::new("h".to_string(), None, &["a"], &["H:v"]) {
        Err(WurlError::Query(m)) => assert_eq!(m, "missing value"),
        _ => panic!("expected a query error"),
    }
    match Ho::new("h".to_string(), None, &["a=1"], &["H"]) {
        Err(WurlError::Header(m)) => assert_eq!(m, "missing value"),
        _ => panic!("expected a header error"),
    }
    assert!(matches!(Ho::get_queries(&["x"]), Err(WurlError::Query(_))));
    assert!(matches!(Ho::get_headers(&["x:y"]), Ok(v) if v.len() == 1));
}
