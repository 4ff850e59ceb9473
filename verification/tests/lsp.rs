//! URIs, notifications and reports.

use typedown::diagnostic::Diagnostic;
use typedown::json_value::Json;
use typedown::lsp::{describe, handle_notification, lsp_line, stale_files};
use typedown::path::FilePath;
use typedown::uri::{percent_decode, path_to_uri, uri_to_path};

fn path(text: &str) -> FilePath {
    FilePath::parse(text)
}

#[test]
fn test_uri_to_path_unix() {
    let path = uri_to_path("file:///Users/test/doc.md");
    assert_eq!(path.as_deref(), Some("/Users/test/doc.md"));
}

#[test]
fn test_uri_to_path_percent_encoded() {
    let path = uri_to_path("file:///Users/test/my%20doc.md");
    assert_eq!(path.as_deref(), Some("/Users/test/my doc.md"));
}

#[test]
fn test_uri_to_path_invalid() {
    assert_eq!(uri_to_path("not-a-uri"), None);
    assert_eq!(uri_to_path("https://example.com"), None);
}

#[test]
fn test_path_to_uri_roundtrip() {
    let original = "/Users/test/doc.md";
    let uri = path_to_uri(original).unwrap();
    let recovered = uri_to_path(uri.as_str()).unwrap();
    assert_eq!(original, recovered);
}

#[test]
fn paths_without_a_uri_are_refused() {
    assert_eq!(
        path_to_uri("relative.md").unwrap_err(),
        "path must be absolute: relative.md"
    );
    let err = path_to_uri("/a b.md").unwrap_err();
    assert!(err.starts_with("invalid URI for /a b.md: "), "{err}");
}

#[test]
fn percent_signs_are_decoded_where_digits_follow() {
    assert_eq!(percent_decode("a%20b"), "a b");
    assert_eq!(percent_decode("%C3%BC"), "ü");
    assert_eq!(percent_decode("%c3%bc"), "ü");
    assert_eq!(percent_decode("100%"), "100%");
    assert_eq!(percent_decode("%2"), "%2");
    assert_eq!(percent_decode("%zz"), "%zz");
    assert_eq!(percent_decode("plain/ü"), "plain/ü");
    assert_eq!(percent_decode("%FF"), "\u{FFFD}");
}

fn params(uri: &str) -> Json {
    Json::Object(vec![(
        "textDocument".to_string(),
        Json::Object(vec![("uri".to_string(), Json::Text(uri.to_string()))]),
    )])
}

#[test]
fn edits_of_markdown_files_are_checked() {
    let p = params("file:///r/my%20doc.md");
    assert_eq!(
        handle_notification("textDocument/didOpen", &p),
        Some(path("/r/my doc.md"))
    );
    assert_eq!(
        handle_notification("textDocument/didChange", &p),
        Some(path("/r/my doc.md"))
    );
    assert_eq!(handle_notification("textDocument/didSave", &p), None);
    assert_eq!(
        handle_notification("textDocument/didOpen", &params("file:///r/a.txt")),
        None
    );
    assert_eq!(handle_notification("textDocument/didOpen", &Json::Null), None);
}

#[test]
fn lines_are_shown_from_zero() {
    let at = |line| Diagnostic::UnknownType { line, message: "m".to_string() };
    assert_eq!(lsp_line(&at(0)), 0);
    assert_eq!(lsp_line(&at(1)), 0);
    assert_eq!(lsp_line(&at(7)), 6);
    assert_eq!(lsp_line(&Diagnostic::MissingFrontmatter), 0);
}

#[test]
fn files_without_diagnostics_are_cleared() {
    let stale = stale_files(
        &vec![path("/a.md"), path("/b.md"), path("/c.md")],
        &vec![path("/b.md"), path("/d.md")],
    );
    assert_eq!(stale, [path("/a.md"), path("/c.md")]);
}

#[test]
fn diagnostics_are_described() {
    let d = Diagnostic::MalformedLink { line: 5, url: "a b.md".to_string() };
    assert_eq!(describe(&path("x/y.md"), &d), "x/y.md:5:  malformed link 'a b.md'");
    let d = Diagnostic::MissingSection { section: "Goals".to_string() };
    assert_eq!(describe(&path("/y.md"), &d), "/y.md:  missing section 'Goals'");
}
