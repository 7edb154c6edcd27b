use otco::docs::command_reference_markdown;
use otco::paginate::{classify_page, FetchError, PageGuard, Paginator};
use otco::pipeline::{output_array_with_projection, output_any, parse_fields, parse_sort};
use otco::records::{limit, normalize, project};
use otco::sort::sort_by;
use otco::value::{render_value, RawItem};
use otco::OutputFormat;

fn obj(fields: Vec<(&str, RawItem)>) -> RawItem {
    RawItem::Object(fields.into_iter().map(|(k, v)| (k.to_string(), v)).collect())
}

fn num(s: &str) -> RawItem {
    RawItem::Number(s.to_string())
}

fn text(s: &str) -> RawItem {
    RawItem::Text(s.to_string())
}

fn sample_items() -> Vec<RawItem> {
    vec![
        obj(vec![("a", num("1")), ("b", text("x"))]),
        obj(vec![("b", text("y")), ("c", RawItem::Bool(true))]),
    ]
}

#[test]
fn normalize_records_flattens_headers() {
    let arr = sample_items();
    let rows = normalize(&arr);
    let headers = rows.header.clone();
    assert!(headers.contains(&"a".to_string()));
    assert!(headers.contains(&"b".to_string()));
    assert!(headers.contains(&"c".to_string()));
}

#[test]
fn normalization_scenario() {
    let rs = normalize(&sample_items());
    assert_eq!(rs.header, vec!["a".to_string(), "b".to_string(), "c".to_string()]);
    assert_eq!(rs.rows.len(), 2);
    assert_eq!(rs.rows[0], vec!["1".to_string(), "x".to_string(), "".to_string()]);
    assert_eq!(rs.rows[1], vec!["".to_string(), "y".to_string(), "true".to_string()]);
}

#[test]
fn normalize_non_objects_give_empty_rows() {
    let arr = vec![RawItem::Null, obj(vec![("k", num("7"))]), num("3")];
    let rs = normalize(&arr);
    assert_eq!(rs.header, vec!["k".to_string()]);
    assert_eq!(rs.rows.len(), 3);
    assert_eq!(rs.rows[0], vec!["".to_string()]);
    assert_eq!(rs.rows[1], vec!["7".to_string()]);
    assert_eq!(rs.rows[2], vec!["".to_string()]);
}

#[test]
fn normalize_empty_input() {
    let rs = normalize(&Vec::new());
    assert!(rs.header.is_empty());
    assert!(rs.rows.is_empty());
}

#[test]
fn cell_rendering_rule() {
    assert_eq!(render_value(&RawItem::Null), "");
    assert_eq!(render_value(&RawItem::Bool(true)), "true");
    assert_eq!(render_value(&RawItem::Bool(false)), "false");
    assert_eq!(render_value(&num("3.1400")), "3.1400");
    assert_eq!(render_value(&text("hi")), "hi");
    assert_eq!(
        render_value(&RawItem::Array(vec![num("1"), text("a\"b")])),
        "[1,\"a\\\"b\"]"
    );
    assert_eq!(
        render_value(&obj(vec![("k", RawItem::Null)])),
        "{\"k\":null}"
    );
}

#[test]
fn projection_keeps_header_order_and_drops_unknown() {
    let rs = normalize(&sample_items());
    let fields = vec!["c".to_string(), "a".to_string(), "zzz".to_string()];
    let p = project(&rs, &fields);
    assert_eq!(p.header, vec!["a".to_string(), "c".to_string()]);
    assert_eq!(p.rows[0], vec!["1".to_string(), "".to_string()]);
    assert_eq!(p.rows[1], vec!["".to_string(), "true".to_string()]);
}

#[test]
fn projection_idempotent() {
    let rs = normalize(&sample_items());
    let fields = vec!["b".to_string(), "c".to_string()];
    let once = project(&rs, &fields);
    let twice = project(&once, &fields);
    assert_eq!(once.header, twice.header);
    assert_eq!(once.rows, twice.rows);
}

#[test]
fn limit_is_prefix_of_min_length() {
    let rs = normalize(&sample_items());
    let full = rs.rows.clone();
    let l1 = limit(rs, 1);
    assert_eq!(l1.rows.len(), 1);
    assert_eq!(l1.rows[0], full[0]);
    let rs2 = normalize(&sample_items());
    let l9 = limit(rs2, 9);
    assert_eq!(l9.rows, full);
    let rs3 = normalize(&sample_items());
    let l0 = limit(rs3, 0);
    assert_eq!(l0.rows.len(), 0);
}

#[test]
fn sort_is_stable_ascending() {
    let arr = vec![
        obj(vec![("k", text("b")), ("tag", text("first"))]),
        obj(vec![("k", text("a")), ("tag", text("second"))]),
        obj(vec![("k", text("b")), ("tag", text("third"))]),
    ];
    let rs = normalize(&arr);
    let sorted = sort_by(rs, "k", false);
    // header is [k, tag]
    assert_eq!(sorted.rows[0], vec!["a".to_string(), "second".to_string()]);
    assert_eq!(sorted.rows[1], vec!["b".to_string(), "first".to_string()]);
    assert_eq!(sorted.rows[2], vec!["b".to_string(), "third".to_string()]);
}

#[test]
fn sort_descending_reverses_ties() {
    let arr = vec![
        obj(vec![("k", text("b")), ("tag", text("first"))]),
        obj(vec![("k", text("a")), ("tag", text("second"))]),
        obj(vec![("k", text("b")), ("tag", text("third"))]),
    ];
    let rs = normalize(&arr);
    let sorted = sort_by(rs, "k", true);
    // the ascending order is reversed whole, so equal keys come out reversed
    assert_eq!(sorted.rows[0], vec!["b".to_string(), "third".to_string()]);
    assert_eq!(sorted.rows[1], vec!["b".to_string(), "first".to_string()]);
    assert_eq!(sorted.rows[2], vec!["a".to_string(), "second".to_string()]);
}

#[test]
fn sort_by_missing_key_keeps_order() {
    let rs = normalize(&sample_items());
    let original = rs.rows.clone();
    let sorted = sort_by(rs, "nosuch", false);
    assert_eq!(sorted.rows, original);
}

#[test]
fn pagination_unbounded_stops_on_empty_page() {
    let pages = vec![
        vec![num("1"), num("2")],
        vec![num("3")],
        Vec::new(),
    ];
    let mut p = Paginator::new(PageGuard::Unbounded);
    let mut calls = 0;
    let mut supplied = pages.into_iter();
    while let Some(page_no) = p.next_request() {
        assert_eq!(page_no, calls + 1);
        calls += 1;
        assert!(calls <= 3, "a fourth fetch must never happen");
        p.accept_page(supplied.next().expect("stub exhausted"));
    }
    assert_eq!(calls, 3);
    assert_eq!(p.into_items().len(), 3);
}

#[test]
fn pagination_bounded_guard_stops_after_first_page() {
    let mut p = Paginator::new(PageGuard::Bounded(1));
    assert_eq!(p.next_request(), Some(1));
    let page1: Vec<RawItem> = (0..100).map(|i| num(&i.to_string())).collect();
    p.accept_page(page1);
    // page 2 would hold 250 more items, but it is never requested
    assert_eq!(p.next_request(), None);
    assert_eq!(p.into_items().len(), 100);
}

#[test]
fn parse_fields_splits_trims_and_drops_empties() {
    let f = parse_fields(" a, ,b ,,c");
    assert_eq!(f, vec!["a".to_string(), "b".to_string(), "c".to_string()]);
    assert_eq!(parse_fields(""), Vec::<String>::new());
}

#[test]
fn parse_sort_strips_one_leading_dash() {
    assert_eq!(parse_sort("name"), ("name".to_string(), false));
    assert_eq!(parse_sort("-name"), ("name".to_string(), true));
}

#[test]
fn pipeline_end_to_end_csv() {
    let arr = vec![
        obj(vec![("name", text("beta")), ("n", num("2"))]),
        obj(vec![("name", text("alpha")), ("n", num("1"))]),
    ];
    let out = output_array_with_projection(
        &arr,
        OutputFormat::Csv,
        Some("name,n"),
        Some("name"),
        Some(1),
    );
    assert_eq!(out, "n,name\n1,alpha\n");
}

#[test]
fn output_any_falls_back_for_single_values() {
    let single = obj(vec![("k", num("1"))]);
    assert_eq!(output_any(&single, OutputFormat::Table), "{\n  \"k\": 1\n}");
    assert_eq!(output_any(&single, OutputFormat::Json), "{\n  \"k\": 1\n}");
    let arr = RawItem::Array(vec![obj(vec![("k", num("1"))])]);
    assert_eq!(output_any(&arr, OutputFormat::Csv), "k\n1\n");
}

#[test]
fn output_any_pretty_prints_nested_values() {
    let v = obj(vec![
        ("a", RawItem::Array(vec![num("1"), text("x")])),
        ("b", obj(vec![("c", RawItem::Null)])),
        ("e", RawItem::Array(Vec::new())),
    ]);
    assert_eq!(
        output_any(&v, OutputFormat::Json),
        "{\n  \"a\": [\n    1,\n    \"x\"\n  ],\n  \"b\": {\n    \"c\": null\n  },\n  \"e\": []\n}"
    );
}

#[test]
fn output_any_block_style_for_yaml() {
    let v = obj(vec![
        ("a", num("1")),
        ("b", RawItem::Array(vec![text("x"), obj(vec![("c", RawItem::Bool(true))])])),
    ]);
    assert_eq!(
        output_any(&v, OutputFormat::Yaml),
        "a: 1\nb:\n  - \"x\"\n  -\n    c: true\n"
    );
    assert_eq!(output_any(&text("hi"), OutputFormat::Yaml), "\"hi\"\n");
}

#[test]
fn command_reference_rows_and_escaping() {
    let entries = vec![
        ("otco render".to_string(), "Render a document".to_string()),
        ("otco config".to_string(), "a|b".to_string()),
    ];
    let md = command_reference_markdown(&entries);
    assert!(md.starts_with("# Command Reference\n\n| Command | Description |\n|---|---|\n"));
    assert!(md.contains("| `otco render` | Render a document |\n"));
    assert!(md.contains("| `otco config` | a\\|b |\n"));
}

#[test]
fn pagination_guard_of_zero_issues_no_fetch() {
    let p = Paginator::new(PageGuard::Bounded(0));
    assert_eq!(p.next_request(), None);
    assert!(p.into_items().is_empty());
}

#[test]
fn page_payloads_are_classified() {
    let page = RawItem::Array(vec![num("1"), num("2")]);
    assert_eq!(classify_page(page).unwrap().len(), 2);
    let bad = obj(vec![("message", text("not found"))]);
    assert!(matches!(classify_page(bad), Err(FetchError::MalformedPage)));
}
