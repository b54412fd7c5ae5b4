use mobile_inspector_cli::error::InspectorError;
use mobile_inspector_cli::platform::android::{dump_from_output, extract_xml, AdbPlatform};

#[test]
fn extracts_xml_with_trailing_message() {
    let raw = "<?xml version=\"1.0\"?><hierarchy rotation=\"0\"><node/></hierarchy>\r\nUI hierchary dumped to: /sdcard/window_dump.xml\r\n";
    let xml = extract_xml(raw).unwrap();
    assert!(xml.starts_with("<?xml"));
    assert!(xml.ends_with("</hierarchy>"));
}

#[test]
fn fails_when_no_xml() {
    let err = extract_xml("nothing here").unwrap_err();
    assert!(matches!(err, InspectorError::Adb(_)));
}

#[test]
fn extract_starts_at_hierarchy_without_declaration() {
    let xml = extract_xml("noise <hierarchy a=\"1\"></hierarchy> tail").unwrap();
    assert_eq!(xml, "<hierarchy a=\"1\"></hierarchy>");
}

#[test]
fn extract_ends_at_last_closing_tag() {
    let xml = extract_xml("<?xml?><hierarchy></hierarchy>x</hierarchy>y").unwrap();
    assert_eq!(xml, "<?xml?><hierarchy></hierarchy>x</hierarchy>");
}

#[test]
fn extract_without_closing_tag_fails() {
    match extract_xml("<?xml version=\"1.0\"?><hierarchy>") {
        Err(InspectorError::Adb(m)) => assert_eq!(m, "falta el cierre </hierarchy>"),
        other => panic!("unexpected {:?}", other),
    }
}

#[test]
fn extract_counts_chars_not_bytes() {
    let xml = extract_xml("ñandú <hierarchy>é</hierarchy>").unwrap();
    assert_eq!(xml, "<hierarchy>é</hierarchy>");
}

#[test]
fn failed_adb_reports_stderr() {
    match dump_from_output(false, "", "device offline") {
        Err(InspectorError::Adb(m)) => assert_eq!(m, "device offline"),
        other => panic!("unexpected {:?}", other),
    }
}

#[test]
fn adb_args_with_and_without_serial() {
    let p = AdbPlatform::new(Some("RFCT40".to_string()));
    assert_eq!(
        p.adb_args(),
        vec!["-s", "RFCT40", "exec-out", "uiautomator", "dump", "/dev/tty"]
    );
    let q = AdbPlatform::new(None);
    assert_eq!(q.adb_args(), vec!["exec-out", "uiautomator", "dump", "/dev/tty"]);
    assert_eq!(q.name(), "android");
}
