use wurl::outline::{Group, Lexer, Parser, Suite, Test, Token};

#[test]
fn suite_test_parser_multiple_groups() {
    let input = r#"
        group auth
            test abc
                get "/foo"
                assert status 200
                assert body.foo
            end
        end

        group foo
            test abc
                get "/foo"
                assert status 200
                assert body.foo
            end

            test ab
                get "/foo"
                assert status 200
                assert body.foo "bar"
            end
        end
        "#;

    let lexer = Lexer::new(input);
    let parser = Parser::new(lexer.tokens());

    let suite = parser.parse().unwrap();

    assert_eq!(
        suite,
        Suite(vec![
            Group {
                name: "auth".to_string(),
                tests: vec![Test {
                    name: "abc".to_string(),
                    value: r#"get "/foo""#.to_string(),
                    asserts: vec!["status 200".to_string(), "body.foo".to_string()],
                }],
            },
            Group {
                name: "foo".to_string(),
                tests: vec![
                    Test {
                        name: "abc".to_string(),
                        value: r#"get "/foo""#.to_string(),
                        asserts: vec!["status 200".to_string(), "body.foo".to_string()],
                    },
                    Test {
                        name: "ab".to_string(),
                        value: r#"get "/foo""#.to_string(),
                        asserts: vec!["status 200".to_string(), r#"body.foo "bar""#.to_string()],
                    },
                ],
            },
        ])
    );
}

#[test]
fn test_lexer() {
    let input = r#"
        group auth
            test abc
                get "/foo"
                assert status 200
            end
        end
        "#;

    let lexer = Lexer::new(input).tokens();
    assert_eq!(
        lexer,
        vec![
            Token::Group,
            Token::Ident("auth".to_string()),
            Token::Test,
            Token::Ident("abc".to_string()),
            Token::Ident("get".to_string()),
            Token::Ident("\"/foo\"".to_string()),
            Token::Assert,
            Token::Ident("status".to_string()),
            Token::Ident("200".to_string()),
            Token::End,
            Token::End,
        ],
    );
}

#[test]
fn outline_from_string_keywords() {
    assert_eq!(Token::from_string("end".to_string()), Token::End);
    assert_eq!(Token::from_string("group".to_string()), Token::Group);
    assert_eq!(Token::from_string("test".to_string()), Token::Test);
    assert_eq!(Token::from_string("assert".to_string()), Token::Assert);
    assert_eq!(Token::from_string("not".to_string()), Token::Ident("not".to_string()));
}

#[test]
fn outline_errors() {
    assert_eq!(
        wurl::outline::parse("test x").unwrap_err(),
        "expected `group`, got Some(Test)"
    );
    assert_eq!(
        wurl::outline::parse("group").unwrap_err(),
        "expected group name, got None"
    );
    assert_eq!(
        wurl::outline::parse("group g test t get").unwrap_err(),
        "unexpected EOF in test value"
    );
    assert_eq!(
        wurl::outline::parse("group g test t get group").unwrap_err(),
        "unexpected token in test value: Group"
    );
    assert_eq!(
        wurl::outline::parse("group g test t get assert status test").unwrap_err(),
        "unexpected token in assert: Test"
    );
    assert_eq!(
        wurl::outline::parse("group g test t get assert status").unwrap_err(),
        "unexpected EOF in assert"
    );
    assert_eq!(
        wurl::outline::parse("group g assert").unwrap_err(),
        "unexpected token in group: Assert"
    );
    assert_eq!(wurl::outline::parse("group g").unwrap_err(), "unexpected EOF in group");
    assert_eq!(
        wurl::outline::parse("group g test end").unwrap_err(),
        "expected test name, got Some(End)"
    );
    assert_eq!(wurl::outline::parse("  \n ").unwrap(), Suite(vec![]));
}
