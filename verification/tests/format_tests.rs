use otco::config::{default_config_path_with_format, infer_format, resolve_api_url, resolve_output_format};
use otco::parse::parse_structured;
use otco::records::normalize;
use otco::render::{block_to_string, delimited_to_string, render_records, structured_to_string, table_to_string};
use otco::requests::{key_service, org_repos_request, push_paging, repo_issues_request, split_repo, u64_to_string, User};
use otco::value::RawItem;
use otco::OutputFormat;

fn obj(fields: Vec<(&str, RawItem)>) -> RawItem {
    RawItem::Object(fields.into_iter().map(|(k, v)| (k.to_string(), v)).collect())
}

fn num(s: &str) -> RawItem {
    RawItem::Number(s.to_string())
}

fn text(s: &str) -> RawItem {
    RawItem::Text(s.to_string())
}

#[test]
fn split_repo_ok_and_err() {
    assert_eq!(split_repo("o/r").unwrap(), ("o".into(), "r".into()));
    assert!(split_repo("oops").is_err());
}

#[test]
fn split_repo_edge_cases() {
    assert!(split_repo("/r").is_err());
    assert!(split_repo("o/").is_err());
    assert!(split_repo("").is_err());
    assert_eq!(split_repo("a/b/c").unwrap(), ("a".into(), "b/c".into()));
}

#[test]
fn default_config_paths_and_infer() {
    let (p, fmt) = default_config_path_with_format(Some("toml".into()));
    assert!(p.ends_with("gh-otco.toml"));
    assert_eq!(fmt, "toml");
    assert_eq!(infer_format("/tmp/x.json"), "json");
    assert_eq!(infer_format("/tmp/x.txt"), "yaml");
}

#[test]
fn infer_format_edge_cases() {
    assert_eq!(infer_format("x.toml"), "toml");
    assert_eq!(infer_format("noext"), "yaml");
    assert_eq!(infer_format("/tmp/.json"), "yaml");
    assert_eq!(infer_format("a.b/c"), "yaml");
}

#[test]
fn delimited_quotes_only_when_needed() {
    let arr = vec![obj(vec![("a", text("x|y")), ("b", text("plain"))])];
    let rs = normalize(&arr);
    let psv = delimited_to_string(&rs, '|');
    assert_eq!(psv, "a|b\n\"x|y\"|plain\n");
    let csv = delimited_to_string(&rs, ',');
    assert_eq!(csv, "a,b\nx|y,plain\n");
}

#[test]
fn delimited_escapes_quotes_and_newlines() {
    let arr = vec![obj(vec![("a", text("he said \"hi\"")), ("b", text("two\nlines"))])];
    let rs = normalize(&arr);
    let csv = delimited_to_string(&rs, ',');
    assert_eq!(csv, "a,b\n\"he said \"\"hi\"\"\",\"two\nlines\"\n");
}

#[test]
fn delimited_of_empty_record_set_is_empty() {
    let rs = normalize(&Vec::new());
    assert_eq!(delimited_to_string(&rs, ','), "");
}

#[test]
fn table_draws_fixed_width_box() {
    let arr = vec![obj(vec![("a", num("1")), ("b", text("x"))])];
    let rs = normalize(&arr);
    let t = table_to_string(&rs);
    assert_eq!(t, "+---+---+\n| a | b |\n+===+===+\n| 1 | x |\n+---+---+\n");
}

#[test]
fn table_pads_to_widest_cell() {
    let arr = vec![
        obj(vec![("k", text("long-value"))]),
        obj(vec![("k", text("s"))]),
    ];
    let rs = normalize(&arr);
    let t = table_to_string(&rs);
    assert_eq!(
        t,
        "+------------+\n| k          |\n+============+\n| long-value |\n| s          |\n+------------+\n"
    );
}

#[test]
fn structured_document_format() {
    let arr = vec![
        obj(vec![("a", num("1")), ("b", text("x"))]),
        obj(vec![("b", text("y")), ("c", RawItem::Bool(true))]),
    ];
    let rs = normalize(&arr);
    let s = structured_to_string(&rs);
    assert_eq!(
        s,
        "[\n  {\n    \"a\": \"1\",\n    \"b\": \"x\",\n    \"c\": \"\"\n  },\n  {\n    \"a\": \"\",\n    \"b\": \"y\",\n    \"c\": \"true\"\n  }\n]"
    );
    let empty = normalize(&Vec::new());
    assert_eq!(structured_to_string(&empty), "[]");
}

#[test]
fn block_document_format() {
    let arr = vec![obj(vec![("a", num("1")), ("b", text("x"))])];
    let rs = normalize(&arr);
    assert_eq!(block_to_string(&rs), "- a: \"1\"\n  b: \"x\"\n");
    let empty = normalize(&Vec::new());
    assert_eq!(block_to_string(&empty), "");
}

#[test]
fn structured_round_trip_rebuilds_records() {
    let arr = vec![
        obj(vec![("a", num("1")), ("b", text("x"))]),
        obj(vec![("b", text("y")), ("c", RawItem::Bool(true))]),
    ];
    let rs = normalize(&arr);
    let rendered = structured_to_string(&rs);
    let back = parse_structured(&rendered).expect("round trip must parse");
    assert_eq!(back.header, rs.header);
    assert_eq!(back.rows, rs.rows);
}

#[test]
fn structured_round_trip_with_special_characters() {
    let arr = vec![obj(vec![
        ("qu\"ote", text("a\"b")),
        ("nl", text("two\nlines")),
        ("tab", text("a\tb\r\\end")),
    ])];
    let rs = normalize(&arr);
    let rendered = structured_to_string(&rs);
    let back = parse_structured(&rendered).expect("round trip must parse");
    assert_eq!(back.header, rs.header);
    assert_eq!(back.rows, rs.rows);
}

#[test]
fn parse_structured_rejects_other_text() {
    assert!(parse_structured("").is_none());
    assert!(parse_structured("[1,2]").is_none());
    assert!(parse_structured("[\n  {\n    \"a\": \"1\"\n  }\n").is_none());
}

#[test]
fn structured_output_is_valid_json() {
    let arr = vec![obj(vec![("a", text("he said \"hi\"\n")), ("b", num("2"))])];
    let rs = normalize(&arr);
    let rendered = structured_to_string(&rs);
    let v: serde_json::Value = serde_json::from_str(&rendered).expect("must be well-formed");
    assert_eq!(v[0]["a"], serde_json::Value::String("he said \"hi\"\n".to_string()));
    assert_eq!(v[0]["b"], serde_json::Value::String("2".to_string()));
}

#[test]
fn render_records_dispatches_by_format() {
    let arr = vec![obj(vec![("a", num("1"))])];
    let rs = normalize(&arr);
    assert_eq!(render_records(&rs, OutputFormat::Csv), "a\n1\n");
    assert_eq!(render_records(&rs, OutputFormat::Psv), "a\n1\n");
    assert_eq!(render_records(&rs, OutputFormat::Yaml), "- a: \"1\"\n");
    assert!(render_records(&rs, OutputFormat::Json).starts_with("[\n"));
    assert!(render_records(&rs, OutputFormat::Table).starts_with("+---+\n"));
}

#[test]
fn decimal_rendering() {
    assert_eq!(u64_to_string(0), "0");
    assert_eq!(u64_to_string(42), "42");
    assert_eq!(u64_to_string(18446744073709551615), "18446744073709551615");
}

#[test]
fn request_builders_assemble_paths_and_params() {
    let (path, params) = org_repos_request("myorg", Some("public"));
    assert_eq!(path, "/orgs/myorg/repos");
    assert_eq!(params, vec![("type".to_string(), "public".to_string())]);

    let (path, mut params) = repo_issues_request("o", "r", Some("open"), None, Some("me"), None, None);
    assert_eq!(path, "/repos/o/r/issues");
    assert_eq!(
        params,
        vec![
            ("state".to_string(), "open".to_string()),
            ("assignee".to_string(), "me".to_string()),
        ]
    );
    push_paging(&mut params, 100, 2);
    assert_eq!(params[2], ("per_page".to_string(), "100".to_string()));
    assert_eq!(params[3], ("page".to_string(), "2".to_string()));
}

#[test]
fn key_service_names_the_host() {
    assert_eq!(key_service("api.github.com"), "gh-otco::api.github.com");
}

#[test]
fn user_holds_login_and_id() {
    let u = User { login: "octo".to_string(), id: 7 };
    assert_eq!(u.login, "octo");
    assert_eq!(u.id, 7);
}

#[test]
fn resolve_config_precedence() {
    // file value alone
    assert_eq!(resolve_api_url(None, None, "https://api.example"), "https://api.example");
    assert!(matches!(resolve_output_format(None, None, "yaml"), OutputFormat::Yaml));
    // the environment overrides the file
    assert_eq!(
        resolve_api_url(None, Some("https://env.example"), "https://api.example"),
        "https://env.example"
    );
    assert!(matches!(resolve_output_format(None, Some("json"), "yaml"), OutputFormat::Json));
    // the command line overrides both
    assert_eq!(
        resolve_api_url(Some("https://cli.example"), Some("https://env.example"), "https://api.example"),
        "https://cli.example"
    );
    assert!(matches!(
        resolve_output_format(Some(OutputFormat::Yaml), Some("json"), "yaml"),
        OutputFormat::Yaml
    ));
}

#[test]
fn output_format_names_fold_case_from_file() {
    assert!(matches!(resolve_output_format(None, None, "CSV"), OutputFormat::Csv));
    assert!(matches!(resolve_output_format(None, None, "nonsense"), OutputFormat::Table));
}
