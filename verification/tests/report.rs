use wurl::error::WurlError;
use wurl::report::{failed_test, report, run_result, test_result, GroupResult};

#[test]
fn every_failure_is_reported_in_order() {
    let results = vec![Err("first".to_string()), Ok(()), Err("second".to_string())];
    let t = test_result("t".to_string(), &results);
    assert!(!t.passed);
    assert_eq!(t.failures, vec!["first".to_string(), "second".to_string()]);
    let ok = test_result("u".to_string(), &vec![Ok(()), Ok(())]);
    assert!(ok.passed);
    assert!(ok.failures.is_empty());
}

#[test]
fn report_lines_and_counts() {
    let groups = vec![
        GroupResult {
            name: "auth".to_string(),
            tests: vec![
                test_result("login".to_string(), &vec![Ok(())]),
                failed_test("logout".to_string(), "request failed: boom".to_string()),
            ],
        },
        GroupResult { name: "empty".to_string(), tests: vec![] },
    ];
    let r = report(&groups);
    assert_eq!(r.passed, 1);
    assert_eq!(r.failed, 1);
    assert_eq!(
        r.lines,
        vec![
            "\ngroup auth".to_string(),
            "  ✓  login".to_string(),
            "  ✗  logout".to_string(),
            "       request failed: boom".to_string(),
            "\ngroup empty".to_string(),
            "\n1 passed, 1 failed".to_string(),
        ]
    );
    assert!(matches!(run_result(&r), Err(WurlError::TestsFailed(1))));
    let none = report(&vec![]);
    assert_eq!(none.lines, vec!["\n0 passed, 0 failed".to_string()]);
    assert!(run_result(&none).is_ok());
}
