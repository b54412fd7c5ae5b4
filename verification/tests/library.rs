use mobile_inspector_cli::attrmap::AttrMap;
use mobile_inspector_cli::cli::{AttrFilters, DumpArgs, OutputFormat, Platform};
use mobile_inspector_cli::config::{default_appium_url, Config};
use mobile_inspector_cli::error::InspectorError;
use mobile_inspector_cli::filter::{apply_filters, FilterResult};
use mobile_inspector_cli::model::UiNode;
use mobile_inspector_cli::output::{table, xml};
use mobile_inspector_cli::platform::ios::AppiumPlatform;
use mobile_inspector_cli::repl::{parse_line, Cache, ReplCommand};

fn pairs(v: &[(&str, &str)]) -> Vec<(String, String)> {
    v.iter().map(|(a, b)| (a.to_string(), b.to_string())).collect()
}

#[test]
fn attr_map_keeps_names_sorted_and_last_write_wins() {
    let m = AttrMap::from_pairs(&pairs(&[("text", "a"), ("bounds", "b"), ("class", "c"), ("text", "d")]));
    let names: Vec<&str> = m.entries().iter().map(|(k, _)| k.as_str()).collect();
    assert_eq!(names, vec!["bounds", "class", "text"]);
    assert_eq!(m.get("text").map(String::as_str), Some("d"));
    assert_eq!(m.get("missing"), None);
    assert_eq!(m.len(), 3);
}

#[test]
fn attr_map_orders_by_code_point() {
    let mut m = AttrMap::new();
    m.insert("b".to_string(), "1".to_string());
    m.insert("B".to_string(), "2".to_string());
    m.insert("ab".to_string(), "3".to_string());
    m.insert("a".to_string(), "4".to_string());
    let names: Vec<&str> = m.entries().iter().map(|(k, _)| k.as_str()).collect();
    assert_eq!(names, vec!["B", "a", "ab", "b"]);
}

#[test]
fn xml_render_of_tree_indents_and_escapes() {
    let tree = UiNode::parse_tree("<a z=\"1\" b=\"x&amp;&lt;&quot;\"><c/><d><e/></d></a>").unwrap();
    let out = xml::render(&FilterResult::Tree(tree)).unwrap();
    assert_eq!(
        out,
        "<a b=\"x&amp;&lt;&quot;\" z=\"1\">\n  <c/>\n  <d>\n    <e/>\n  </d>\n</a>\n"
    );
}

#[test]
fn xml_render_of_list_wraps_in_results() {
    let tree = UiNode::parse_tree("<a><b k=\"v>\"/></a>").unwrap();
    let nodes = vec![tree.children[0].flatten_attrs()];
    let out = xml::render(&FilterResult::Nodes(nodes)).unwrap();
    assert_eq!(out, "<results>\n  <b k=\"v&gt;\"/>\n</results>\n");
    let empty = xml::render(&FilterResult::Nodes(Vec::new())).unwrap();
    assert_eq!(empty, "<results>\n</results>\n");
}

#[test]
fn table_rows_are_fixed_width() {
    let tree = UiNode::parse_tree(
        "<hierarchy><node resource-id=\"\" name=\"fallback\" class=\"android.widget.Button\" text=\"OK\" bounds=\"[0,0][1,1]\"/></hierarchy>",
    )
    .unwrap();
    let out = table::render(&FilterResult::Tree(tree)).unwrap();
    let lines: Vec<&str> = out.lines().collect();
    assert_eq!(lines.len(), 4);
    assert_eq!(lines[1], "-".repeat(140));
    assert_eq!(lines[0].chars().count(), 138);
    assert_eq!(lines[3].chars().count(), 138);
    assert!(lines[3].starts_with("fallback "));
    assert_eq!(&lines[3][46..67], "android.widget.Button");
    let long = "x".repeat(60);
    let t2 = UiNode::parse_tree(&format!("<n text=\"{}\"/>", long)).unwrap();
    let out2 = table::render(&FilterResult::Nodes(vec![t2])).unwrap();
    let row = out2.lines().nth(2).unwrap();
    assert_eq!(row.chars().count(), 138);
    assert!(row.contains(&"x".repeat(35)));
    assert!(!row.contains(&"x".repeat(36)));
}

#[test]
fn apply_filters_prefers_xpath_then_attributes_then_tree() {
    let xml = "<hierarchy><node resource-id=\"btn_ok\" clickable=\"true\"/><node resource-id=\"x\"/></hierarchy>";
    let mut args = DumpArgs {
        platform: Platform::Android,
        filters: AttrFilters { id: Some("^x$".into()), ..Default::default() },
        xpath: Some("//node[@clickable='true']".into()),
        format: OutputFormat::Xml,
        serial: None,
        session: None,
    };
    match apply_filters(xml, &args).unwrap() {
        FilterResult::Nodes(n) => assert_eq!(n[0].attrs.get("resource-id").map(String::as_str), Some("btn_ok")),
        _ => panic!("expected nodes"),
    }
    args.xpath = None;
    match apply_filters(xml, &args).unwrap() {
        FilterResult::Nodes(n) => assert_eq!(n[0].attrs.get("resource-id").map(String::as_str), Some("x")),
        _ => panic!("expected nodes"),
    }
    args.filters = AttrFilters::default();
    assert!(!args.filters.any());
    match apply_filters(xml, &args).unwrap() {
        FilterResult::Tree(t) => assert_eq!(t.children.len(), 2),
        _ => panic!("expected tree"),
    }
}

#[test]
fn config_get_and_set() {
    let mut cfg = Config::default();
    assert_eq!(cfg.appium.url, default_appium_url());
    assert_eq!(cfg.get_key("appium.url").unwrap(), "http://localhost:4723");
    cfg.set_key("appium.url", "http://10.0.0.5:4723".to_string()).unwrap();
    assert_eq!(cfg.get_key("appium.url").unwrap(), "http://10.0.0.5:4723");
    assert_eq!(cfg.get_key("otra").unwrap_err(), "clave desconocida: otra");
    assert_eq!(cfg.set_key("otra", "v".to_string()).unwrap_err(), "clave desconocida: otra");
    assert_eq!(cfg.appium.url, "http://10.0.0.5:4723");
}

#[test]
fn error_messages_carry_their_kind() {
    assert_eq!(InspectorError::Adb("x".into()).message(), "adb error: x");
    assert_eq!(InspectorError::XPath("y".into()).message(), "xpath error: y");
    assert_eq!(InspectorError::Filter("z".into()).message(), "filter error: z");
}

#[test]
fn repl_lines_are_parsed() {
    assert!(matches!(parse_line("   "), ReplCommand::Empty));
    assert!(matches!(parse_line("  exit "), ReplCommand::Exit));
    assert!(matches!(parse_line("quit"), ReplCommand::Exit));
    assert!(matches!(parse_line("?"), ReplCommand::Help));
    assert!(matches!(parse_line("refresh"), ReplCommand::Refresh));
    assert!(matches!(parse_line("dump extra"), ReplCommand::Dump));
    match parse_line("find  --id \t btn_.*") {
        ReplCommand::Find(a) => assert_eq!(a, vec!["--id", "btn_.*"]),
        other => panic!("unexpected {:?}", other),
    }
    match parse_line("find --id \"btn_.*\" --text 'Continuar' \"") {
        ReplCommand::Find(a) => assert_eq!(a, vec!["--id", "btn_.*", "--text", "Continuar", "\""]),
        other => panic!("unexpected {:?}", other),
    }
    match parse_line("xpath //node[@a='1' and   @b='2']") {
        ReplCommand::XPath(e) => assert_eq!(e, "//node[@a='1' and @b='2']"),
        other => panic!("unexpected {:?}", other),
    }
    assert!(matches!(parse_line("xpath"), ReplCommand::XPathUsage));
    match parse_line("exit now") {
        ReplCommand::Unknown(c) => assert_eq!(c, "exit"),
        other => panic!("unexpected {:?}", other),
    }
}

#[test]
fn cache_holds_the_parse_of_the_stored_dump() {
    let mut c = Cache::new();
    assert!(c.needs_refresh());
    assert!(c.refresh("<a>".to_string()).is_err());
    assert!(c.needs_refresh());
    c.refresh("<a><b/></a>".to_string()).unwrap();
    assert!(!c.needs_refresh());
    assert_eq!(c.tree().children.len(), 1);
    assert_eq!(c.xml(), "<a><b/></a>");
    assert!(c.refresh("<x".to_string()).is_err());
    assert_eq!(c.xml(), "<a><b/></a>");
}

#[test]
fn appium_session_resolution() {
    let p = AppiumPlatform::new("http://localhost:4723//".into(), None);
    assert_eq!(p.base(), "http://localhost:4723");
    assert_eq!(p.url("/sessions"), "http://localhost:4723/sessions");
    assert!(p.needs_session_list());
    assert_eq!(p.resolve_session(Some(vec![Some("abc".into())])).unwrap(), "abc");
    match p.resolve_session(Some(vec![Some("a".into()), None, Some("c".into())])) {
        Err(InspectorError::Appium(m)) => assert_eq!(m, "3 sesiones activas; pasa --session <id>"),
        other => panic!("unexpected {:?}", other),
    }
    match p.resolve_session(Some(Vec::new())) {
        Err(InspectorError::Appium(m)) => assert_eq!(m, "no hay sesiones appium activas"),
        other => panic!("unexpected {:?}", other),
    }
    match p.resolve_session(None) {
        Err(InspectorError::Appium(m)) => assert_eq!(m, "respuesta /sessions malformada"),
        other => panic!("unexpected {:?}", other),
    }
    match p.resolve_session(Some(vec![None])) {
        Err(InspectorError::Appium(m)) => assert_eq!(m, "sesion sin id"),
        other => panic!("unexpected {:?}", other),
    }
    let q = AppiumPlatform::new("http://h".into(), Some("given".into()));
    assert!(!q.needs_session_list());
    assert_eq!(q.resolve_session(None).unwrap(), "given");
    assert_eq!(AppiumPlatform::source_path("s1"), "/session/s1/source");
    assert!(AppiumPlatform::source_from_reply(None).is_err());
    assert_eq!(AppiumPlatform::source_from_reply(Some("<x/>".into())).unwrap(), "<x/>");
}

#[test]
fn flatten_keeps_tag_and_attributes_only() {
    let tree = UiNode::parse_tree("<a k=\"1\"><b/><c/></a>").unwrap();
    let f = tree.flatten_attrs();
    assert_eq!(f.tag, "a");
    assert_eq!(f.attrs.get("k").map(String::as_str), Some("1"));
    assert!(f.children.is_empty());
    let g = f.flatten_attrs();
    assert_eq!(g.tag, f.tag);
    assert_eq!(g.attrs.len(), f.attrs.len());
    let copy = tree.clone();
    assert_eq!(copy.children.len(), 2);
    assert_eq!(copy.children[1].tag, "c");
}

#[test]
fn repl_find_with_quoted_pattern_uses_cached_tree() {
    let mut c = Cache::new();
    c.refresh("<hierarchy><node resource-id='app:id/btn_ok'/><node resource-id='other'/></hierarchy>".to_string())
        .unwrap();
    let args = match parse_line(r#"find --id "btn_.*""#) {
        ReplCommand::Find(a) => a,
        other => panic!("unexpected {:?}", other),
    };
    assert_eq!(args, vec!["--id", "btn_.*"]);
    let f = AttrFilters { id: Some(args[1].clone()), ..Default::default() };
    let nodes = mobile_inspector_cli::filter::attrs::filter_tree(c.tree(), &f).unwrap();
    assert_eq!(nodes.len(), 1);
    let out = table::render(&FilterResult::Nodes(nodes)).unwrap();
    assert!(out.lines().nth(2).unwrap().starts_with("app:id/btn_ok "));
}

#[test]
fn write_escaped_appends_entities() {
    let mut buf: Vec<char> = "x=".chars().collect();
    mobile_inspector_cli::output::xml::write_escaped("a&b<c>\"d", &mut buf);
    let s: String = buf.iter().collect();
    assert_eq!(s, "x=a&amp;b&lt;c&gt;&quot;d");
}

#[test]
fn xpath_selects_in_document_order_without_children() {
    let nodes = mobile_inspector_cli::filter::xpath::filter("<a><b x='1'/><c/><b x='2'><b/></b></a>", "//b").unwrap();
    assert_eq!(nodes.len(), 3);
    assert_eq!(nodes[0].attrs.get("x").map(String::as_str), Some("1"));
    assert_eq!(nodes[1].attrs.get("x").map(String::as_str), Some("2"));
    assert!(nodes[1].children.is_empty());
    assert_eq!(nodes[2].attrs.len(), 0);
}

#[test]
fn apply_filters_with_xpath_ignores_bad_attribute_pattern() {
    let args = DumpArgs {
        platform: Platform::Android,
        filters: AttrFilters { id: Some("(.*".into()), ..Default::default() },
        xpath: Some("//node".into()),
        format: OutputFormat::Xml,
        serial: None,
        session: None,
    };
    match apply_filters("<hierarchy><node text='a'/></hierarchy>", &args).unwrap() {
        FilterResult::Nodes(n) => {
            assert_eq!(n.len(), 1);
            assert_eq!(n[0].attrs.get("text").map(String::as_str), Some("a"));
        }
        _ => panic!("expected nodes"),
    }
}
