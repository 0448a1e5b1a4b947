use lumencite::cli::{
    build_add_request, build_update_request, entry_id_of, hit_line, interpret_tool_reply,
    is_cli_invocation, parse_fields, search_line, AddArgs, ArgValue, ToolReply, UpdateArgs,
};

fn sv(items: &[&str]) -> Vec<String> {
    items.iter().map(|s| s.to_string()).collect()
}

#[test]
fn is_cli_invocation_recognizes_subcommands() {
    assert!(is_cli_invocation(&sv(&["lumencite", "search", "neural"])));
    assert!(is_cli_invocation(&sv(&["lumencite", "bib", "a", "b"])));
    assert!(is_cli_invocation(&sv(&["lumencite", "help"])));
    assert!(is_cli_invocation(&sv(&["lumencite", "--help"])));
    assert!(is_cli_invocation(&sv(&["lumencite", "--version"])));
}

#[test]
fn is_cli_invocation_ignores_gui_and_shim() {
    assert!(!is_cli_invocation(&sv(&["lumencite"])));
    assert!(!is_cli_invocation(&sv(&["lumencite", "--mcp-stdio"])));
}

#[test]
fn parse_fields_builds_map_and_rejects_bad() {
    let m = parse_fields(&vec!["journal=Nature".to_string(), "volume=12".to_string()]).unwrap();
    assert_eq!(m[0], ("journal".to_string(), "Nature".to_string()));
    assert_eq!(m[1], ("volume".to_string(), "12".to_string()));
    assert!(parse_fields(&vec!["nokey".to_string()]).is_err());
    assert!(parse_fields(&vec!["=v".to_string()]).is_err());
}

#[test]
fn parse_fields_reports_the_first_bad_field() {
    let e = parse_fields(&sv(&["a=1", "nokey", "=v"])).unwrap_err();
    assert_eq!(e, "invalid --field 'nokey' (expected key=value)");
    let e = parse_fields(&sv(&["=v"])).unwrap_err();
    assert_eq!(e, "invalid --field '=v' (empty key)");
    let m = parse_fields(&sv(&["url=a=b"])).unwrap();
    assert_eq!(m[0], ("url".to_string(), "a=b".to_string()));
}

fn text_arg<'a>(args: &'a [(String, ArgValue)], key: &str) -> Option<&'a ArgValue> {
    args.iter().find(|(k, _)| k == key).map(|(_, v)| v)
}

#[test]
fn build_add_request_maps_flags_to_create_entry() {
    let a = AddArgs {
        title: "My Paper".into(),
        entry_type: Some("article".into()),
        year: Some(2020),
        doi: Some("10.1/x".into()),
        isbn: None,
        arxiv: Some("2303.1".into()),
        url: None,
        citation_key: Some("me2020a".into()),
        notes: None,
        abstract_: None,
        authors: vec!["Jane Doe".into(), "John Roe".into()],
        fields: vec!["journal=Nature".into()],
    };
    let req = build_add_request(&a).unwrap();
    assert_eq!(req.tool, "create_entry");
    let args = &req.arguments;
    assert!(matches!(text_arg(args, "title"), Some(ArgValue::Text(t)) if t == "My Paper"));
    assert!(matches!(text_arg(args, "arxiv_id"), Some(ArgValue::Text(t)) if t == "2303.1"));
    assert!(matches!(text_arg(args, "citation_key"), Some(ArgValue::Text(t)) if t == "me2020a"));
    assert!(matches!(text_arg(args, "author_names"), Some(ArgValue::Texts(v)) if v[1] == "John Roe"));
    assert!(matches!(text_arg(args, "extra_fields"), Some(ArgValue::Fields(f)) if f[0] == ("journal".to_string(), "Nature".to_string())));
    assert!(text_arg(args, "isbn").is_none());
}

#[test]
fn build_update_request_includes_entry_id_and_empty_citation_key() {
    let a = UpdateArgs {
        id_or_key: "ignored".into(),
        title: None,
        entry_type: None,
        year: Some(2021),
        doi: None,
        isbn: None,
        arxiv: None,
        url: None,
        citation_key: Some(String::new()),
        notes: None,
        abstract_: None,
        authors: vec![],
        fields: vec![],
    };
    let req = build_update_request(7, &a).unwrap();
    assert_eq!(req.tool, "update_entry");
    assert!(matches!(text_arg(&req.arguments, "entry_id"), Some(ArgValue::Int(7))));
    assert!(matches!(text_arg(&req.arguments, "year"), Some(ArgValue::Int(2021))));
    assert!(matches!(text_arg(&req.arguments, "citation_key"), Some(ArgValue::Text(t)) if t.is_empty()));
}

fn reply(rpc_error: Option<&str>, has_result: bool, is_error: bool, text: &str) -> ToolReply {
    ToolReply {
        rpc_error: rpc_error.map(|s| s.to_string()),
        has_result,
        is_error,
        text: text.to_string(),
    }
}

#[test]
fn interpret_ok_result_extracts_text() {
    let out = interpret_tool_reply(&reply(None, true, false, "Created entry 42."), false).unwrap();
    assert_eq!(out, "Created entry 42.");
}

#[test]
fn interpret_error_result_is_err() {
    assert!(interpret_tool_reply(&reply(None, true, true, "boom"), false).is_err());
}

#[test]
fn interpret_write_disabled_via_server_gives_guidance() {
    let err = interpret_tool_reply(
        &reply(None, true, true, "write tools are disabled on this MCP server: add_tag"),
        true,
    )
    .unwrap_err();
    assert!(err.contains("--force"));
    assert!(err.contains("disabled"));
}

#[test]
fn interpret_jsonrpc_error_is_err() {
    let err = interpret_tool_reply(&reply(Some("nope"), false, false, ""), false).unwrap_err();
    assert!(err.contains("nope"));
    let err = interpret_tool_reply(&reply(None, false, false, ""), false).unwrap_err();
    assert_eq!(err, "missing `result` in MCP response");
}

#[test]
fn numeric_text_is_an_id_and_anything_else_a_key() {
    assert_eq!(entry_id_of("42"), Some(42));
    assert_eq!(entry_id_of("-7"), Some(-7));
    assert_eq!(entry_id_of("smith2020a"), None);
    assert_eq!(entry_id_of("99999999999999999999"), None);
}

#[test]
fn human_lines_right_align_the_id() {
    assert_eq!(search_line(42, Some(2020), "Attention"), "    42  2020  Attention");
    assert_eq!(search_line(7, None, "Draft"), "     7  ----  Draft");
    assert_eq!(hit_line(1234567, 3, "…match…"), "1234567  p.3  …match…");
}
