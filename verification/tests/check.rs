use wurl::check::{evaluate_all, evaluate_assert, finish, NumAnswer, NumKind, NumQuery, Outcome, Relation};
use wurl::response::response_data;
use wurl::check::ResponseData;
use wurl::suite::ast::Assert;
use wurl::suite::parse;

fn answer(q: &NumQuery) -> NumAnswer {
    let e: f64 = q.expected.parse().unwrap();
    let a: Option<f64> = q.actual.as_ref().map(|t| t.parse().unwrap());
    let holds = match (&q.kind, a) {
        (NumKind::ArrayHas, _) | (NumKind::ArrayLacks, _) => {
            q.items.iter().any(|t| t.parse::<f64>().unwrap() == e)
        }
        (NumKind::Equals, Some(a)) | (NumKind::NotEquals, Some(a)) | (NumKind::LengthExact, Some(a)) => a == e,
        (NumKind::Order(Relation::Gt), Some(a)) => a > e,
        (NumKind::Order(Relation::Gte), Some(a)) => a >= e,
        (NumKind::Order(Relation::Lt), Some(a)) => a < e,
        (NumKind::Order(Relation::Lte), Some(a)) => a <= e,
        _ => false,
    };
    NumAnswer {
        holds,
        actual_shown: a.map(|a| a.to_string()).unwrap_or_default(),
        expected_shown: e.to_string(),
    }
}

fn run(a: &Assert, resp: &ResponseData) -> Result<(), String> {
    match evaluate_assert(a, resp) {
        Outcome::Done(r) => r,
        Outcome::Ask(q) => finish(&q, &answer(&q)),
    }
}

fn asserts(lines: &str) -> Vec<Assert> {
    let text = format!("group g test t get {} end end", lines);
    let mut suite = parse(&text).unwrap();
    suite.0.remove(0).tests.remove(0).asserts
}

fn response(status: u16, body: &str) -> ResponseData {
    let headers = vec![
        ("Content-Type".to_string(), "application/json".to_string()),
        ("X-Empty".to_string(), "".to_string()),
    ];
    let cookies = vec!["session=abc123; HttpOnly; SameSite=Strict".to_string()];
    response_data(status, &headers, &cookies, body.to_string(), 120)
}

fn results(lines: &str, resp: &ResponseData) -> Vec<Result<(), String>> {
    let all = asserts(lines);
    let rs = evaluate_all(&all, resp, &answer);
    let one_by_one: Vec<Result<(), String>> = all.iter().map(|a| run(a, resp)).collect();
    assert_eq!(rs, one_by_one);
    rs
}

const BODY: &str = r#"{"user":{"name":"alice","age":30,"tags":["a","b"]},"flag":false,"none":null,"empty":"","items":[{"id":7}]}"#;

#[test]
fn status_assertions() {
    let ok = response(204, "");
    let r = results("assert status assert status 204 assert status equals 200 assert not status 404", &ok);
    assert_eq!(r[0], Ok(()));
    assert_eq!(r[1], Ok(()));
    assert_eq!(r[2], Err("assert status equals 200\n  expected: 200\n       got: 204".to_string()));
    assert_eq!(r[3], Ok(()));
    let bad = response(404, "");
    let r = results("assert status assert not status 404", &bad);
    assert_eq!(r[0], Err("assert status — expected 2xx, got 404".to_string()));
    assert_eq!(r[1], Err("assert not status — expected to fail but passed".to_string()));
}

#[test]
fn body_path_assertions() {
    let resp = response(200, BODY);
    let r = results(
        "assert body.user.name assert body.missing assert body.none assert body.flag assert body.empty \
         assert body.user.name equals alice assert body.user.age gt 18 assert body.user.age lt 18 \
         assert body.user.tags contains \"b\" assert body.user.tags length 2 assert body.items[0].id equals 7 \
         assert body.none absent assert body.user absent assert body.user.name starts-with \"al\" \
         assert body.user.name ends-with \"x\"",
        &resp,
    );
    assert_eq!(r[0], Ok(()));
    assert_eq!(r[1], Err("body.missing — key not found".to_string()));
    assert_eq!(r[2], Err("body.none — value is null".to_string()));
    assert_eq!(r[3], Err("body.flag — value is false".to_string()));
    assert_eq!(r[4], Err("body.empty — value is empty string".to_string()));
    assert_eq!(r[5], Ok(()));
    assert_eq!(r[6], Ok(()));
    assert_eq!(r[7], Err("assert body.user.age lt 18 — got 30".to_string()));
    assert_eq!(r[8], Ok(()));
    assert_eq!(r[9], Ok(()));
    assert_eq!(r[10], Ok(()));
    assert_eq!(r[11], Ok(()));
    assert_eq!(
        r[12],
        Err("body.user — expected absent, got {\"age\":30,\"name\":\"alice\",\"tags\":[\"a\",\"b\"]}".to_string())
    );
    assert_eq!(r[13], Ok(()));
    assert_eq!(
        r[14],
        Err("assert body.user.name ends-with \"x\"\n  expected: ends with \"x\"\n       got: \"alice\"".to_string())
    );
}

#[test]
fn raw_body_and_json_errors() {
    let resp = response(200, "hello");
    let r = results(
        "assert body assert body empty assert body length 5 assert body contains \"ell\" assert body.x \
         assert body length gt 9",
        &resp,
    );
    assert_eq!(r[0], Ok(()));
    assert_eq!(r[1], Err("assert body empty — body is not empty".to_string()));
    assert_eq!(r[2], Ok(()));
    assert_eq!(r[3], Ok(()));
    assert_eq!(r[4], Err("body.x — body is not valid JSON".to_string()));
    assert_eq!(r[5], Err("assert body length gt 9 — got 5".to_string()));
    let empty = response(200, "");
    assert_eq!(results("assert body", &empty)[0], Err("assert body — body is empty".to_string()));
}

#[test]
fn header_and_cookie_assertions() {
    let resp = response(200, BODY);
    let r = results(
        "assert header.Content-Type contains json assert header.x-missing assert header.x-empty absent \
         assert cookie.session equals abc123 assert cookie.session.httponly assert cookie.session.samesite equals Strict \
         assert cookie.session.httponly equals x assert cookie.nope.path assert cookie.session.secure \
         assert not cookie.tracking present assert cookie.session absent",
        &resp,
    );
    assert_eq!(r[0], Ok(()));
    assert_eq!(r[1], Err("header.x-missing — not present".to_string()));
    assert_eq!(r[2], Err("header.x-empty — expected absent, got \"\"".to_string()));
    assert_eq!(r[3], Ok(()));
    assert_eq!(r[4], Ok(()));
    assert_eq!(r[5], Ok(()));
    assert_eq!(
        r[6],
        Err("cookie.session.httponly — attribute has no value (flag only)".to_string())
    );
    assert_eq!(r[7], Err("cookie.nope — not set".to_string()));
    assert_eq!(r[8], Err("cookie.session.secure — attribute not set".to_string()));
    assert_eq!(r[9], Ok(()));
    assert_eq!(r[10], Err("cookie.session — expected absent but was set".to_string()));
}

#[test]
fn duration_and_type_errors() {
    let resp = response(200, BODY);
    let r = results(
        "assert duration lt 500 assert duration gte 121 assert body.user.name gt 3 assert body.user.age contains \"3\" \
         assert body.user.name matches r\"a.*\" assert body.user.age gt x",
        &resp,
    );
    assert_eq!(r[0], Ok(()));
    assert_eq!(r[1], Err("assert duration gte 121 — got 120".to_string()));
    assert_eq!(r[2], Err("body.user.name gt — not a number: \"alice\"".to_string()));
    assert_eq!(r[3], Err("body.user.age contains — not a string or array".to_string()));
    assert_eq!(r[4], Ok(()));
    assert_eq!(r[5], Err("body.user.age gt — expected must be a number".to_string()));
}

#[test]
fn regex_matching() {
    let resp = response(200, r#"{"email":"alice@example.com","bad":"not-an-email","n":3}"#);
    let r = results(
        r#"assert body.email matches r"^[\w.]+@[\w.]+\.[a-z]{2,}$" assert body.bad matches r"^[\w.]+@[\w.]+\.[a-z]{2,}$"
           assert header.content-type matches r"application/(json|xml)" assert body.email matches r"(" assert body.n matches r"3"
           assert not body.bad matches r"@""#,
        &resp,
    );
    assert_eq!(r[0], Ok(()));
    assert_eq!(
        r[1],
        Err("assert body.bad matches r\"^[\\w.]+@[\\w.]+\\.[a-z]{2,}$\"\n  expected: to match r\"^[\\w.]+@[\\w.]+\\.[a-z]{2,}$\"\n       got: \"not-an-email\"".to_string())
    );
    assert_eq!(r[2], Ok(()));
    assert_eq!(r[3], Err("body.email matches — invalid regex r\"(\"".to_string()));
    assert_eq!(r[4], Err("body.n matches — not a string".to_string()));
    assert_eq!(r[5], Ok(()));
}

#[test]
fn contains_on_arrays_and_empty_values() {
    let resp = response(200, r#"{"ids":[1,2,3],"mixed":["a",true,null,2.5],"e":[],"o":{},"s":"abc"}"#);
    let r = results(
        "assert body.ids contains 2 assert body.ids contains 2.0 assert body.ids contains 9 \
         assert body.mixed contains true assert body.mixed contains null assert body.mixed contains 2.5 \
         assert body.mixed contains false assert body.ids not-contains 9 assert body.ids not-contains 1 \
         assert body.mixed not-contains \"a\" assert body.e assert body.o assert body.s contains 1 \
         assert body.ids",
        &resp,
    );
    assert_eq!(r[0], Ok(()));
    assert_eq!(r[1], Ok(()));
    assert_eq!(r[2], Err("body.ids contains 9 — not found in array".to_string()));
    assert_eq!(r[3], Ok(()));
    assert_eq!(r[4], Ok(()));
    assert_eq!(r[5], Ok(()));
    assert_eq!(r[6], Err("body.mixed contains false — not found in array".to_string()));
    assert_eq!(r[7], Ok(()));
    assert_eq!(r[8], Err("body.ids not-contains 1 — found in array".to_string()));
    assert_eq!(r[9], Err("body.mixed not-contains \"a\" — found in array".to_string()));
    assert_eq!(r[10], Err("body.e — value is empty array".to_string()));
    assert_eq!(r[11], Err("body.o — value is empty object".to_string()));
    assert_eq!(r[12], Err("body.s contains — value must be a string".to_string()));
    assert_eq!(r[13], Ok(()));
}
