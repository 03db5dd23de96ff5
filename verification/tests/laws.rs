use wurl::check::{display_path, target_label};
use wurl::json::{json_quote, navigate_json};
use wurl::request::shell_split;
use wurl::response::response_data;
use wurl::suite::ast::{AssertTarget, BodyTarget, PathSegment};
use wurl::suite::helpers::{parse_path, parse_target};
use wurl::suite::lexer::{Lexer, Token};

fn key(k: &str) -> PathSegment {
    PathSegment::Key(k.to_string())
}

#[test]
fn path_display_parses_back() {
    let cases = vec![
        vec![],
        vec![key("a")],
        vec![PathSegment::Index(0), key("id")],
        vec![key("a"), key("b"), PathSegment::Index(12), key("c"), PathSegment::Index(3)],
        vec![PathSegment::Index(7)],
    ];
    for segs in cases {
        let shown = display_path(&segs);
        assert_eq!(parse_path(&shown), segs);
    }
}

#[test]
fn target_label_parses_back() {
    let targets = vec![
        AssertTarget::Status,
        AssertTarget::Duration,
        AssertTarget::Body(BodyTarget::Raw),
        AssertTarget::Body(BodyTarget::Path(vec![key("items"), PathSegment::Index(0), key("id")])),
        AssertTarget::Header("content-type".to_string()),
        AssertTarget::Cookie("session".to_string(), None),
        AssertTarget::Cookie("session".to_string(), Some("httponly".to_string())),
    ];
    for t in targets {
        let label = target_label(&t);
        assert_eq!(parse_target(&label), Ok(t));
    }
}

#[test]
fn lexer_without_literals_splits_words() {
    let input = " group  g\ttest t get /x\nassert status 200 end end ";
    let expected: Vec<Token> =
        input.split_ascii_whitespace().map(|w| Token::from_ident(w.to_string())).collect();
    assert_eq!(Lexer::new(input).tokens(), expected);
}

#[test]
fn shell_split_without_leading_quotes_is_whitespace_split() {
    let s = "get a\"b --query x=\"y\"  z";
    let expected: Vec<String> = s.split_whitespace().map(String::from).collect();
    assert_eq!(shell_split(s), expected);
}

#[test]
fn navigate_concatenated_paths() {
    let r = response_data(200, &vec![], &vec![], r#"{"a":{"b":[10,{"c":"x"}]}}"#.to_string(), 0);
    let root = r.body_json.unwrap();
    let p = vec![key("a"), key("b")];
    let q = vec![PathSegment::Index(1), key("c")];
    let whole: Vec<PathSegment> = vec![key("a"), key("b"), PathSegment::Index(1), key("c")];
    let mid = navigate_json(&root, &p).unwrap();
    assert_eq!(navigate_json(mid, &q).unwrap().text, navigate_json(&root, &whole).unwrap().text);
    assert_eq!(navigate_json(&root, &whole).unwrap().text, "\"x\"");
    assert_eq!(navigate_json(&root, &vec![]).unwrap().text, root.text);
    assert!(navigate_json(&root, &vec![key("z"), key("c")]).is_none());
}

#[test]
fn json_string_escapes() {
    assert_eq!(json_quote("a\"b\\c\u{1}\n\t\u{8}\u{c}\r\u{1f}é"), "\"a\\\"b\\\\c\\u0001\\n\\t\\b\\f\\r\\u001fé\"");
}
