use wurl::json_body::parse_json;
use wurl::request::json_body;

fn value(text: &str) -> serde_json::Value {
    serde_json::from_str(text).unwrap()
}

#[test]
fn test_parse_json() {
    let input = [
        ("foo=bar"),
        ("tbl.jim=mmy"),
        ("tbl.baz=bax"),
        ("a=30"),
        ("b=[foo, bar, 1, true, false, null]"),
    ];
    let json = parse_json(&input);
    assert_eq!(
        value(&json),
        value(
            r#"{
            "foo": "bar",
            "tbl": {
                "jim": "mmy",
                "baz": "bax"
            },
            "a": 30,
            "b": ["foo", "bar", 1, true, false, null]
        }"#
        )
    );
}

#[test]
fn readme_nested_objects() {
    let json = parse_json(&["user.name=Alice", "user.address.city=Portland", "settings.theme=dark"]);
    assert_eq!(
        json,
        r#"{"settings":{"theme":"dark"},"user":{"address":{"city":"Portland"},"name":"Alice"}}"#
    );
}

#[test]
fn auto_typing_and_overrides() {
    assert_eq!(
        parse_json(&["n=-1.5e3", "z=0", "lead=007", "t=true", "nul=null", "s=hello world", "q=say \"hi\"", "e=[]", "noeq"]),
        r#"{"e":[],"lead":"007","n":-1500.0,"nul":null,"q":"say \"hi\"","s":"hello world","t":true,"z":0}"#
    );
    assert_eq!(parse_json(&["b=1", "a=2"]), r#"{"a":2,"b":1}"#);
    assert_eq!(parse_json(&["a=1", "a.b=2", "c.d=3", "c=4", "a.c=5"]), r#"{"a":{"b":2,"c":5},"c":4}"#);
    assert_eq!(parse_json(&[]), "{}");
    assert_eq!(json_body(&vec![]), None);
    assert_eq!(json_body(&vec!["x=1".to_string()]), Some(r#"{"x":1}"#.to_string()));
}
