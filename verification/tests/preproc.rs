use wurl::preproc::{include_pieces, parse_include, preproc, Piece};

fn no_env() -> Vec<(String, String)> {
    Vec::new()
}

#[test]
fn replaces_literal_values() {
    let input = r#"
replace FOO bar

hello FOO world
"#;

    let out = preproc(input, &no_env());

    assert!(out.contains("hello bar world"));
    assert!(!out.contains("FOO"));
}

#[test]
fn replaces_multiple_occurrences() {
    let input = r#"
replace FOO x

FOO FOO FOO
"#;

    let out = preproc(input, &no_env());

    assert!(out.contains("x x x"));
}

#[test]
fn uses_env_fallback_when_no_value_given() {
    let env = vec![("FOO".to_string(), "env_value".to_string())];
    let input = r#"
replace FOO

hello FOO
"#;

    let out = preproc(input, &env);

    assert!(out.contains("hello env_value"));
}

#[test]
fn explicit_value_overrides_env() {
    let env = vec![("FOO".to_string(), "env_value".to_string())];
    let input = r#"
replace FOO override

FOO
"#;

    let out = preproc(input, &env);

    assert!(out.contains("override"));
    assert!(!out.contains("env_value"));
}

#[test]
fn ignores_unknown_tokens() {
    let input = r#"
replace FOO bar

this should stay unchanged
"#;

    let out = preproc(input, &no_env());

    assert!(out.contains("this should stay unchanged"));
}

#[test]
fn does_not_crash_on_no_replacements() {
    let input = r#"
hello world
"#;

    let out = preproc(input, &no_env());

    assert_eq!(out.trim(), "hello world");
}

#[test]
fn preproc_exact_output() {
    let input = "  replace B 2\r\nreplace A 1\n  A and B  \n\nreplace C\nC.\n";
    assert_eq!(preproc(input, &no_env()), "1 and 2\n\n.\n");
}

#[test]
fn later_directive_wins_and_names_in_order() {
    // `AB` is replaced before `B` because names are applied in increasing order.
    let input = "replace B x\nreplace AB y\nreplace B z\nAB B\n";
    assert_eq!(preproc(input, &no_env()), "y z\n");
}

#[test]
fn include_lines() {
    assert_eq!(parse_include("  include \"a/b.wurl\" "), Some("a/b.wurl".to_string()));
    assert_eq!(parse_include("include a.wurl"), None);
    assert_eq!(parse_include("group x"), None);
}

#[test]
fn replace_comment_reads_environment() {
    let env = vec![("SECRET_KEY".to_string(), "s3".to_string())];
    let input = "replace SECRET_KEY   # read from $SECRET_KEY env var\nkey=SECRET_KEY\n";
    assert_eq!(preproc(input, &env), "key=s3\n");
    let input2 = "replace URL http://x/#a   # the page\nURL\n";
    assert_eq!(preproc(input2, &env), "http://x/#a\n");
    let input3 = "replace K #only\nK.\n";
    assert_eq!(preproc(input3, &vec![("K".to_string(), "v".to_string())]), "v.\n");
}

#[test]
fn pieces_for_includes() {
    let pieces = include_pieces("  group g\r\ninclude \"a/b.wurl\"\n\n  end  ");
    let shown: Vec<String> = pieces
        .iter()
        .map(|p| match p {
            Piece::Text(t) => format!("T:{t}"),
            Piece::Include(p) => format!("I:{p}"),
        })
        .collect();
    assert_eq!(shown, vec!["T:group g", "I:a/b.wurl", "T:", "T:end"]);
}
