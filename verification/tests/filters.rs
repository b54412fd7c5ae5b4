use mobile_inspector_cli::cli::AttrFilters;
use mobile_inspector_cli::filter::attrs::filter;
use mobile_inspector_cli::filter::xpath::filter as xpath_filter;
use mobile_inspector_cli::filter::FilterResult;
use mobile_inspector_cli::model::UiNode;
use mobile_inspector_cli::output::table::render as render_table;

fn android_fixture() -> String {
    [
        "<?xml version='1.0' encoding='UTF-8' standalone='yes' ?>",
        "<hierarchy rotation=\"0\">",
        "<node index=\"0\" text=\"\" resource-id=\"\" class=\"android.widget.FrameLayout\" package=\"cl.mach.app\" content-desc=\"\" clickable=\"false\" bounds=\"[0,0][1080,2400]\">",
        "<node index=\"0\" text=\"Bienvenido\" resource-id=\"cl.mach.app:id/title\" class=\"android.widget.TextView\" package=\"cl.mach.app\" content-desc=\"\" clickable=\"false\" bounds=\"[40,200][1040,300]\" />",
        "<node index=\"1\" text=\"Continuar\" resource-id=\"cl.mach.app:id/btn_continue\" class=\"android.widget.Button\" package=\"cl.mach.app\" content-desc=\"siguiente\" clickable=\"true\" bounds=\"[40,2100][1040,2280]\" />",
        "<node index=\"2\" text=\"Volver\" resource-id=\"cl.mach.app:id/btn_cancel\" class=\"android.widget.Button\" package=\"cl.mach.app\" content-desc=\"\" clickable=\"true\" bounds=\"[40,1900][1040,2080]\" />",
        "</node>",
        "</hierarchy>",
    ]
    .concat()
}

fn ios_fixture() -> String {
    [
        "<?xml version=\"1.0\" encoding=\"UTF-8\"?>",
        "<AppiumAUT>",
        "<XCUIElementTypeApplication type=\"XCUIElementTypeApplication\" name=\"MACH\" label=\"MACH\" enabled=\"true\" visible=\"true\" x=\"0\" y=\"0\" width=\"390\" height=\"844\">",
        "<XCUIElementTypeStaticText type=\"XCUIElementTypeStaticText\" name=\"title\" label=\"Bienvenido\" value=\"Bienvenido\" enabled=\"true\" visible=\"true\"/>",
        "<XCUIElementTypeButton type=\"XCUIElementTypeButton\" name=\"btn_continue\" label=\"Continuar\" enabled=\"true\" visible=\"true\"/>",
        "<XCUIElementTypeButton type=\"XCUIElementTypeButton\" name=\"btn_cancel\" label=\"Cancelar\" enabled=\"true\" visible=\"true\"/>",
        "</XCUIElementTypeApplication>",
        "</AppiumAUT>",
    ]
    .concat()
}

#[test]
fn android_filtro_por_resource_id_regex() {
    let xml = android_fixture();
    let f = AttrFilters {
        id: Some("btn_.*".into()),
        ..Default::default()
    };
    let nodes = filter(&xml, &f).unwrap();
    assert_eq!(nodes.len(), 2, "deberia matchear btn_continue y btn_cancel");
}

#[test]
fn android_filtro_por_text_exacto() {
    let xml = android_fixture();
    let f = AttrFilters {
        text: Some("^Continuar$".into()),
        ..Default::default()
    };
    let nodes = filter(&xml, &f).unwrap();
    assert_eq!(nodes.len(), 1);
    assert_eq!(
        nodes[0].attrs.get("text").map(String::as_str),
        Some("Continuar")
    );
}

#[test]
fn android_filtros_combinados_son_and() {
    let xml = android_fixture();
    let f = AttrFilters {
        id: Some("btn_.*".into()),
        text: Some("Continuar".into()),
        ..Default::default()
    };
    let nodes = filter(&xml, &f).unwrap();
    assert_eq!(nodes.len(), 1);
}

#[test]
fn android_filtro_sin_match_devuelve_vacio() {
    let xml = android_fixture();
    let f = AttrFilters {
        id: Some("no_existe".into()),
        ..Default::default()
    };
    let nodes = filter(&xml, &f).unwrap();
    assert!(nodes.is_empty());
}

#[test]
fn ios_filtro_id_machea_contra_name() {
    let xml = ios_fixture();
    let f = AttrFilters {
        id: Some("btn_.*".into()),
        ..Default::default()
    };
    let nodes = filter(&xml, &f).unwrap();
    assert_eq!(nodes.len(), 2);
}

#[test]
fn ios_filtro_text_machea_contra_label() {
    let xml = ios_fixture();
    let f = AttrFilters {
        text: Some("Cancelar".into()),
        ..Default::default()
    };
    let nodes = filter(&xml, &f).unwrap();
    assert_eq!(nodes.len(), 1);
}

#[test]
fn regex_invalida_devuelve_error() {
    let xml = android_fixture();
    let f = AttrFilters {
        id: Some("(.*".into()),
        ..Default::default()
    };
    assert!(filter(&xml, &f).is_err());
}

#[test]
fn android_xpath_clickable() {
    let xml = android_fixture();
    let nodes = xpath_filter(&xml, "//node[@clickable='true']").unwrap();
    assert_eq!(nodes.len(), 2);
}

#[test]
fn android_xpath_por_resource_id_exacto() {
    let xml = android_fixture();
    let nodes = xpath_filter(&xml, "//node[@resource-id='cl.mach.app:id/btn_continue']").unwrap();
    assert_eq!(nodes.len(), 1);
}

#[test]
fn ios_xpath_por_name() {
    let xml = ios_fixture();
    let nodes = xpath_filter(&xml, "//*[@name='btn_continue']").unwrap();
    assert_eq!(nodes.len(), 1);
}

#[test]
fn xpath_invalido_devuelve_error() {
    let xml = android_fixture();
    assert!(xpath_filter(&xml, "//node[").is_err());
}

#[test]
fn table_incluye_headers() {
    let xml = android_fixture();
    let nodes = xpath_filter(&xml, "//node[@clickable='true']").unwrap();
    let out = render_table(&FilterResult::Nodes(nodes)).unwrap();
    assert!(out.contains("id/name"));
    assert!(out.contains("bounds"));
}

#[test]
fn parse_tree_keeps_element_structure() {
    let tree = UiNode::parse_tree(&android_fixture()).unwrap();
    assert_eq!(tree.tag, "hierarchy");
    assert_eq!(tree.children.len(), 1);
    assert_eq!(tree.children[0].children.len(), 3);
    assert_eq!(
        tree.children[0].children[1].attrs.get("resource-id").map(String::as_str),
        Some("cl.mach.app:id/btn_continue")
    );
    let all = tree.iter_descendants();
    assert_eq!(all.len(), 5);
    assert_eq!(all[0].tag, "hierarchy");
    assert_eq!(all[2].attrs.get("text").map(String::as_str), Some("Bienvenido"));
}

#[test]
fn parse_tree_rejects_bad_xml() {
    let err = UiNode::parse_tree("<a><b></a>").unwrap_err();
    assert!(matches!(err, mobile_inspector_cli::error::InspectorError::XmlParse(_)));
}

#[test]
fn parse_tree_skips_text_and_comments() {
    let tree = UiNode::parse_tree("<a x=\"1\">hola<!-- c --><b/>chau<c y=\"2\"/></a>").unwrap();
    assert_eq!(tree.children.len(), 2);
    assert_eq!(tree.children[0].tag, "b");
    assert_eq!(tree.children[1].tag, "c");
}

#[test]
fn filter_results_are_flat_and_in_document_order() {
    let xml = android_fixture();
    let f = AttrFilters {
        class: Some("android".into()),
        ..Default::default()
    };
    let nodes = filter(&xml, &f).unwrap();
    assert_eq!(nodes.len(), 4);
    assert_eq!(nodes[0].attrs.get("class").map(String::as_str), Some("android.widget.FrameLayout"));
    assert!(nodes.iter().all(|n| n.children.is_empty()));
    assert_eq!(nodes[2].attrs.get("text").map(String::as_str), Some("Continuar"));
}

#[test]
fn content_desc_filter_maps_to_value_on_ios() {
    let xml = ios_fixture();
    let f = AttrFilters {
        content_desc: Some("^Bienvenido$".into()),
        ..Default::default()
    };
    let nodes = filter(&xml, &f).unwrap();
    assert_eq!(nodes.len(), 1);
    assert_eq!(nodes[0].attrs.get("name").map(String::as_str), Some("title"));
}

#[test]
fn invalid_pattern_error_names_the_pattern() {
    let xml = android_fixture();
    let f = AttrFilters {
        text: Some("[".into()),
        ..Default::default()
    };
    match filter(&xml, &f) {
        Err(mobile_inspector_cli::error::InspectorError::Filter(m)) => {
            assert!(m.starts_with("regex invalida '['"));
        }
        other => panic!("unexpected {:?}", other),
    }
}

#[test]
fn xpath_non_nodeset_selects_nothing() {
    let xml = android_fixture();
    let nodes = xpath_filter(&xml, "count(//node)").unwrap();
    assert!(nodes.is_empty());
}

#[test]
fn xpath_attributes_are_copied_and_children_dropped() {
    let xml = android_fixture();
    let nodes = xpath_filter(&xml, "/hierarchy/node").unwrap();
    assert_eq!(nodes.len(), 1);
    assert_eq!(nodes[0].tag, "node");
    assert!(nodes[0].children.is_empty());
    assert_eq!(nodes[0].attrs.get("bounds").map(String::as_str), Some("[0,0][1080,2400]"));
}

#[test]
fn xpath_on_bad_xml_is_a_parse_error() {
    let err = xpath_filter("<a>", "//a").unwrap_err();
    assert!(matches!(err, mobile_inspector_cli::error::InspectorError::XmlParse(_)));
}

#[test]
fn xpath_empty_expression_is_an_error() {
    let xml = android_fixture();
    match xpath_filter(&xml, "") {
        Err(mobile_inspector_cli::error::InspectorError::XPath(_)) => {}
        other => panic!("unexpected {:?}", other),
    }
}
