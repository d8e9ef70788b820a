use openworkers_conformance::suite::{collect, walked_entry, Entry};

fn entry(area: &str, display: &str, path: &str) -> Entry {
    Entry { area: area.to_string(), display: display.to_string(), path: path.to_string() }
}

fn walked() -> Vec<Entry> {
    vec![
        entry("url", "url/url.js", "/t/url/url.js"),
        entry("crypto", "crypto/crypto.js", "/t/crypto/crypto.js"),
        entry("url", "url/search-params.js", "/t/url/search-params.js"),
        entry("dup", "a.js", "/first/a.js"),
        entry("dup", "a.js", "/second/a.js"),
    ]
}

#[test]
fn collect_sorts_by_display_name_stably() {
    let out = collect(walked(), None);
    let names: Vec<&str> = out.iter().map(|e| e.display.as_str()).collect();
    assert_eq!(names, vec!["a.js", "a.js", "crypto/crypto.js", "url/search-params.js", "url/url.js"]);
    assert_eq!(out[0].path, "/first/a.js");
    assert_eq!(out[1].path, "/second/a.js");
}

#[test]
fn collect_filters_by_display_name() {
    let out = collect(walked(), Some("url"));
    let names: Vec<&str> = out.iter().map(|e| e.display.as_str()).collect();
    assert_eq!(names, vec!["url/search-params.js", "url/url.js"]);
    assert!(collect(walked(), Some("nothing")).is_empty());
    assert_eq!(collect(walked(), Some("")).len(), 5);
}

#[test]
fn collect_without_filter_keeps_everything() {
    assert_eq!(collect(walked(), None).len(), walked().len());
    assert!(collect(Vec::new(), None).is_empty());
}

#[test]
fn collect_orders_by_bytes() {
    let out = collect(vec![entry("b", "b", "1"), entry("B", "B", "2"), entry("ä", "ä", "3"), entry("a", "a", "4")], None);
    let names: Vec<&str> = out.iter().map(|e| e.display.as_str()).collect();
    assert_eq!(names, vec!["B", "a", "b", "ä"]);
}

#[test]
fn only_js_files_count_filed_under_their_directory() {
    let e = walked_entry("/t/js/encoding/base64.js".to_string(), "js/encoding/base64.js".to_string(), Some("js"), Some("encoding"))
        .unwrap();
    assert_eq!((e.area.as_str(), e.display.as_str(), e.path.as_str()), ("encoding", "js/encoding/base64.js", "/t/js/encoding/base64.js"));
    let top = walked_entry("/t/a.js".to_string(), "a.js".to_string(), Some("js"), None).unwrap();
    assert_eq!(top.area, "root");
    assert!(walked_entry("/t/README.md".to_string(), "README.md".to_string(), Some("md"), Some("t")).is_none());
    assert!(walked_entry("/t/Makefile".to_string(), "Makefile".to_string(), None, Some("t")).is_none());
    assert!(walked_entry("/t/x.JS".to_string(), "x.JS".to_string(), Some("JS"), Some("t")).is_none());
}
