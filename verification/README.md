# wurl

A declarative HTTP client and test runner. The library in `src/` holds its
logic, verified with Verus; `app/main.rs` is the `wurl` command around it
(argument parsing with clap, HTTP with reqwest, files, the environment, the
terminal).

Layout of `src/`:

- `suite/` — the `.wurl` suite language: lexer, parser, syntax tree.
- `outline.rs` — the outline reading of a suite (assertions kept as text).
- `preproc.rs` — `replace` directives and the lines of the include step.
- `request.rs` — request lines (`shell_split`), methods, URLs, query,
  header, cookie and body values of a request.
- `json_body.rs` — JSON bodies from `--json key=value` fields, written by
  `serde_json`.
- `response.rs` — `Set-Cookie` parsing and the response data assertions read.
- `json.rs` — the JSON values assertions read, and path navigation.
- `check.rs` — evaluation of assertions.
- `report.rs` — test results, the printed report and the counts.
- `hurler.rs`, `error.rs`, `outside.rs` — the request object of the simple
  client, errors, and the outside types they carry.
- `laws.rs`, `roundtrip.rs` — properties that relate several parts.
- `text.rs`, `numbers.rs` — character and number helpers.
