use asset_server::content_type::resolve;
use asset_server::order::path_le_exec;
use asset_server::paths::{asset_key, key_for_url, strip_leading_separator};
use asset_server::request::{map_request, RequestView, ResponseView, Status};
use asset_server::store::{load_dir, read_paths, sort_by_path, AssetStore, FileRead, LoadReport, TypedAsset};

fn ok(path: &str, bytes: &[u8]) -> FileRead {
    FileRead { path: path.to_string(), contents: Ok(bytes.to_vec()) }
}

fn failed(path: &str, error: &str) -> FileRead {
    FileRead { path: path.to_string(), contents: Err(error.to_string()) }
}

fn get(url: &str, root: &str, report: &LoadReport) -> ResponseView {
    let request = RequestView { method: "GET".to_string(), url: url.to_string() };
    map_request(&request, root, &report.store)
}

#[test]
fn resolve_html_is_text_html() {
    assert_eq!(resolve("a.html"), "text/html");
}

#[test]
fn resolve_unknown_extension_is_octet_stream() {
    assert_eq!(resolve("a.unknownext"), "application/octet-stream");
}

#[test]
fn resolve_no_extension_is_octet_stream() {
    assert_eq!(resolve("a"), "application/octet-stream");
}

#[test]
fn resolve_extension_is_case_insensitive() {
    assert_eq!(resolve("A.HTML"), "text/html");
    assert_eq!(resolve("site.css"), "text/css");
}

#[test]
fn strip_removes_one_separator_only() {
    assert_eq!(strip_leading_separator("/foo/bar"), "foo/bar");
    assert_eq!(strip_leading_separator("foo/bar"), "foo/bar");
    assert_eq!(strip_leading_separator("//foo"), "/foo");
    assert_eq!(strip_leading_separator(""), "");
}

#[test]
fn keys_join_onto_root() {
    assert_eq!(asset_key("root", "index.html"), "root/index.html");
    assert_eq!(asset_key("root/", "css/site.css"), "root/css/site.css");
    assert_eq!(key_for_url("root", "/css/site.css"), "root/css/site.css");
    assert_eq!(key_for_url("root", "index.html"), "root/index.html");
}

#[test]
fn path_order_is_bytewise() {
    assert!(path_le_exec("a", "b"));
    assert!(path_le_exec("a", "ab"));
    assert!(!path_le_exec("ab", "a"));
    assert!(path_le_exec("same", "same"));
    assert!(path_le_exec("Z", "a"));
}

#[test]
fn sort_orders_by_path_and_keeps_all() {
    let sorted = sort_by_path(vec![ok("b.txt", b"b"), ok("a/z.txt", b"z"), failed("a.txt", "denied")]);
    let paths: Vec<&str> = sorted.iter().map(|f| f.path.as_str()).collect();
    assert_eq!(paths, vec!["a.txt", "a/z.txt", "b.txt"]);
}

#[test]
fn end_to_end_example() {
    let report = load_dir("root", vec![ok("index.html", b"<h1>hi</h1>"), ok("css/site.css", b"body{}")]);
    let index = get("/index.html", "root", &report);
    assert_eq!(index.status, Status::Found);
    assert_eq!(index.body, Some(b"<h1>hi</h1>".to_vec()));
    assert_eq!(index.content_type, Some("text/html".to_string()));
    let css = get("/css/site.css", "root", &report);
    assert_eq!(css.status, Status::Found);
    assert_eq!(css.body, Some(b"body{}".to_vec()));
    assert_eq!(css.content_type, Some("text/css".to_string()));
    let missing = get("/missing.js", "root", &report);
    assert_eq!(missing.status, Status::NotFound);
    assert_eq!(missing.body, None);
    assert_eq!(missing.content_type, None);
}

#[test]
fn unreadable_file_is_left_out() {
    let report = load_dir(
        "root",
        vec![ok("a.txt", b"a"), failed("secret.txt", "permission denied"), ok("b.txt", b"b")],
    );
    assert_eq!(report.store.len(), 2);
    assert_eq!(report.skipped.len(), 1);
    assert_eq!(report.skipped[0].path, "root/secret.txt");
    assert_eq!(report.skipped[0].error, "permission denied");
    assert_eq!(get("/secret.txt", "root", &report).status, Status::NotFound);
    assert_eq!(get("/a.txt", "root", &report).body, Some(b"a".to_vec()));
    assert_eq!(get("/b.txt", "root", &report).body, Some(b"b".to_vec()));
}

#[test]
fn skipped_files_are_reported_in_path_order() {
    let report = load_dir("r", vec![failed("z", "e1"), ok("m", b"m"), failed("a", "e2")]);
    let skipped: Vec<(&str, &str)> =
        report.skipped.iter().map(|s| (s.path.as_str(), s.error.as_str())).collect();
    assert_eq!(skipped, vec![("r/a", "e2"), ("r/z", "e1")]);
}

#[test]
fn build_is_independent_of_walk_order() {
    let first = load_dir("root", vec![ok("x.js", b"x"), ok("y/z.png", b"z"), failed("w", "gone")]);
    let second = load_dir("root", vec![failed("w", "gone"), ok("y/z.png", b"z"), ok("x.js", b"x")]);
    assert_eq!(first.store.len(), second.store.len());
    for url in ["/x.js", "/y/z.png", "/w", "/nope"] {
        let a = get(url, "root", &first);
        let b = get(url, "root", &second);
        assert_eq!(a.status, b.status);
        assert_eq!(a.body, b.body);
        assert_eq!(a.content_type, b.content_type);
    }
}

#[test]
fn later_read_replaces_earlier_under_same_key() {
    let report = read_paths("root", vec![ok("a.txt", b"old"), ok("a.txt", b"new")]);
    assert_eq!(report.store.len(), 1);
    assert_eq!(get("/a.txt", "root", &report).body, Some(b"new".to_vec()));
}

#[test]
fn empty_directory_gives_empty_store() {
    let report = load_dir("root", Vec::new());
    assert_eq!(report.store.len(), 0);
    assert!(report.skipped.is_empty());
    assert_eq!(get("/", "root", &report).status, Status::NotFound);
}

#[test]
fn url_without_leading_separator_finds_the_same_asset() {
    let report = load_dir("root", vec![ok("docs/a.txt", b"text")]);
    let with = get("/docs/a.txt", "root", &report);
    let without = get("docs/a.txt", "root", &report);
    assert_eq!(with.body, Some(b"text".to_vec()));
    assert_eq!(without.body, with.body);
    assert_eq!(with.content_type, Some("text/plain".to_string()));
}

#[test]
fn repeated_lookups_agree() {
    let report = load_dir("root", vec![ok("index.html", b"<p>")]);
    for _ in 0..100 {
        let r = get("/index.html", "root", &report);
        assert_eq!(r.status, Status::Found);
        assert_eq!(r.body, Some(b"<p>".to_vec()));
    }
}

#[test]
fn insert_enters_asset_under_its_key() {
    let mut store = AssetStore::new();
    store.insert(TypedAsset {
        key: "root/x.bin".to_string(),
        bytes: vec![1, 2, 3],
        content_type: "application/octet-stream".to_string(),
    });
    store.insert(TypedAsset {
        key: "root/x.bin".to_string(),
        bytes: vec![4],
        content_type: "application/octet-stream".to_string(),
    });
    assert_eq!(store.len(), 1);
    let asset = store.lookup(&"root/x.bin".to_string()).unwrap();
    assert_eq!(asset.bytes, vec![4]);
    assert!(store.lookup(&"root/y.bin".to_string()).is_none());
}
