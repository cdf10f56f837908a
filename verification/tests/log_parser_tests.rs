use logterminator::log_parser::HtmlLogParser;

#[test]
fn test_extract_file_index() {
    assert_eq!(
        HtmlLogParser::extract_file_index("TestEnableTcpdump_ID_1---0.html"),
        0
    );
    assert_eq!(
        HtmlLogParser::extract_file_index("TestEnableTcpdump_ID_1---10.html"),
        10
    );
    assert_eq!(HtmlLogParser::extract_file_index("test---5.html"), 5);
    assert_eq!(HtmlLogParser::extract_file_index("no_index.html"), 0);
}

#[test]
fn test_is_test_log_file_valid() {
    assert_eq!(
        HtmlLogParser::is_test_log_file("TestEnableTcpdump_ID_1---0.html"),
        Some("TestEnableTcpdump_ID_1".to_string())
    );
    assert_eq!(
        HtmlLogParser::is_test_log_file("TestABC_ID_1---0.html"),
        Some("TestABC_ID_1".to_string())
    );
    assert_eq!(
        HtmlLogParser::is_test_log_file("TestABC_ID_1---10.html"),
        Some("TestABC_ID_1".to_string())
    );
}

#[test]
fn test_is_test_log_file_invalid() {
    assert_eq!(HtmlLogParser::is_test_log_file("MainRollup.html"), None);
    assert_eq!(HtmlLogParser::is_test_log_file("summary.html"), None);
    assert_eq!(
        HtmlLogParser::is_test_log_file("TestEnableTcpdump_ID_1.html"),
        None
    );
    assert_eq!(
        HtmlLogParser::is_test_log_file("TestEnableTcpdump_ID_1---abc.html"),
        None
    );
    assert_eq!(HtmlLogParser::is_test_log_file("_ID_1---0.html"), None);
}

#[test]
fn test_extract_test_name() {
    assert_eq!(
        HtmlLogParser::extract_test_name("/path/to/TestEnableTcpdump_ID_1---0.html"),
        Some("TestEnableTcpdump_ID_1".to_string())
    );
    assert_eq!(
        HtmlLogParser::extract_test_name("/path/to/MainRollup.html"),
        None
    );
}

#[test]
fn test_group_html_files() {
    let paths = vec![
        "/logs/TestEnableTcpdump_ID_1---1.html".to_string(),
        "/logs/TestEnableTcpdump_ID_1---0.html".to_string(),
        "/logs/TestABC_ID_1---2.html".to_string(),
        "/logs/TestABC_ID_1---0.html".to_string(),
        "/logs/TestABC_ID_1---1.html".to_string(),
        "/logs/MainRollup.html".to_string(),
    ];
    let groups = HtmlLogParser::group_html_files(&paths);
    assert_eq!(groups.len(), 2);

    let tcpdump = groups
        .iter()
        .find(|g| g.0 == "TestEnableTcpdump_ID_1")
        .expect("missing tcpdump group");
    assert_eq!(tcpdump.1.len(), 2);
    assert!(tcpdump.1[0].ends_with("TestEnableTcpdump_ID_1---0.html"));
    assert!(tcpdump.1[1].ends_with("TestEnableTcpdump_ID_1---1.html"));

    let abc = groups
        .iter()
        .find(|g| g.0 == "TestABC_ID_1")
        .expect("missing abc group");
    assert_eq!(abc.1.len(), 3);
    assert!(abc.1[0].ends_with("TestABC_ID_1---0.html"));
    assert!(abc.1[1].ends_with("TestABC_ID_1---1.html"));
    assert!(abc.1[2].ends_with("TestABC_ID_1---2.html"));

    for g in &groups {
        for f in &g.1 {
            assert!(!f.contains("MainRollup"));
        }
    }
}

#[test]
fn test_parse_simple_html() {
    let html = r#"
    <!DOCTYPE html>
    <html>
    <body>
    <table>
    <tr class="HEADER">
        <th>Timestamp</th>
        <th>Level</th>
        <th>Stack</th>
        <th>Message</th>
    </tr>
    <tr class="INFO">
        <td class="date">2026/01/14 07:17:37,370 UTC</td>
        <td class="level">[INFO]</td>
        <td class="hierarchy">Thread: &lt;MainThread&gt;</td>
        <td class="message"><pre class="INFO">Test message</pre></td>
    </tr>
    </table>
    </body>
    </html>
    "#;

    let entries = HtmlLogParser::parse_html_string(html, "test_temp.html", "test_session", 0);
    assert_eq!(entries.len(), 1);
    assert_eq!(entries[0].level, "INFO");
    assert_eq!(entries[0].timestamp, "2026/01/14 07:17:37,370 UTC");
    assert!(entries[0].message.contains("Test message"));
}

#[test]
fn test_parse_real_html_file() {
    let html_content = r#"<!DOCTYPE html>
<html>
<head>
    <title>Test Log File</title>
</head>
<body>
<div id="content">
<table id="log">
    <tr class="HEADER">
        <th class="header-timestamp">Timestamp</th>
        <th class="header-level">Level</th>
        <th class="header-stack">Stack</th>
        <th class="header-message">Message</th>
    </tr>

<tr class="INFO"><td class="date">2026/01/14 07:17:37,370 UTC</td><td class="level">[INFO]</td><td class="hierarchy">Thread: &lt;MainThread&gt;
pytest_test_engine.pytest_test_engine -- 871</td><td class="message"><pre class="INFO">Package version info:
atlas-framework: 7.0.378
atlas-unity: 1.0.52</pre></td></tr>

<tr class="DEBUG"><td class="date">2026/01/14 07:17:37,374 UTC</td><td class="level">[DEBUG]</td><td class="hierarchy">Thread: &lt;MainThread&gt;
pytest_test_engine.pytest_test_engine -- 1197</td><td class="message"><pre class="DEBUG">Create data collection folder</pre></td></tr>

<tr class="WARNING"><td class="date">2026/01/14 07:17:37,375 UTC</td><td class="level">[WARNING]</td><td class="hierarchy">Thread: &lt;MainThread&gt;
atlas_framework.ctd_testbed.base_services -- 347</td><td class="message"><pre class="WARNING">The PYTEST_DATA_COLLECTION environment variable warning</pre></td></tr>

<tr class="ERROR"><td class="date">2026/01/14 07:17:37,400 UTC</td><td class="level">[ERROR]</td><td class="hierarchy">Thread: &lt;MainThread&gt;
test_module.test_function -- 123</td><td class="message"><pre class="ERROR">Connection failed: timeout</pre></td></tr>

</table>
</div>
</body>
</html>"#;

    let entries =
        HtmlLogParser::parse_html_string(html_content, "real_test_log.html", "test_session", 0);
    assert_eq!(entries.len(), 4);

    assert_eq!(entries[0].level, "INFO");
    assert_eq!(entries[0].timestamp, "2026/01/14 07:17:37,370 UTC");
    assert!(entries[0].message.contains("Package version info"));

    assert_eq!(entries[1].level, "DEBUG");
    assert_eq!(entries[1].timestamp, "2026/01/14 07:17:37,374 UTC");

    assert_eq!(entries[2].level, "WARNING");
    assert!(entries[2].message.contains("PYTEST_DATA_COLLECTION"));

    assert_eq!(entries[3].level, "ERROR");
    assert!(entries[3].message.contains("Connection failed"));
}

#[test]
fn test_parse_skip_rules() {
    // an empty timestamp and the literal header text both advance the
    // line count without producing a record
    let html = r#"<html><body><table>
<tr><td class="date">   </td><td class="level">INFO</td><td class="message">dropped</td></tr>
<tr><td class="date">Timestamp</td><td class="level">INFO</td><td class="message">dropped too</td></tr>
<tr><td class="date">t1</td><td class="level">INFO</td><td class="message">kept</td></tr>
</table></body></html>"#;
    let entries = HtmlLogParser::parse_html_string(html, "f.html", "s", 0);
    assert_eq!(entries.len(), 1);
    assert_eq!(entries[0].message, "kept");
    assert_eq!(entries[0].line_number, 2);
}

#[test]
fn test_parse_empty_document() {
    let entries = HtmlLogParser::parse_html_string("<html><body></body></html>", "f", "s", 0);
    assert!(entries.is_empty());
}

#[test]
fn test_parse_line_numbers_and_stack() {
    let html = r#"<html><body><table>
<tr><th>Timestamp</th></tr>
<tr><td class="date">2026/01/01 00:00:01</td><td class="level">INFO</td><td class="message">first</td></tr>
<tr><td class="date">2026/01/01 00:00:02</td><td class="level">WARN</td><td class="stack" hidden>  trace text  </td><td class="message">second</td></tr>
</table></body></html>"#;
    let entries = HtmlLogParser::parse_html_string(html, "f.html", "s", 3);
    assert_eq!(entries.len(), 2);
    assert_eq!(entries[0].line_number, 1);
    assert_eq!(entries[1].line_number, 2);
    assert_eq!(entries[0].stack, "");
    assert_eq!(entries[1].stack, "trace text");
    assert_eq!(entries[0].file_index, 3);
    assert_eq!(entries[0].test_session_id, "s");
    assert_eq!(entries[0].file_path, "f.html");
}
