use wget_mirror::paths::{clean_path_segments, extract_parent_directory};
use wget_mirror::rewrite::{replace_exact_link, replace_all};
use wget_mirror::stylesheet::extract_css_refs;
use wget_mirror::download::{parse_rate_limit, next_chunk_size, chunk_delay_ms};
use wget_mirror::urls::{resolve_reference, split_url, basename_of, extension_of};
use wget_mirror::classify::{classify_reference, RefClass};
use wget_mirror::visited::VisitedSet;

fn strings(v: &[&str]) -> Vec<String> {
    v.iter().map(|s| s.to_string()).collect()
}

#[test]
fn normalize_collapses_repeated_segment() {
    assert_eq!(clean_path_segments("a/a/b"), "a/b");
}

#[test]
fn normalize_drops_empty_segments() {
    assert_eq!(clean_path_segments("/a//b/"), "a/b");
}

#[test]
fn normalize_collapses_period_two_repeats() {
    assert_eq!(clean_path_segments("a/b/a/c"), "b/a/c");
}

#[test]
fn normalize_is_idempotent_on_samples() {
    for p in [
        "a/a/b",
        "/a//b/",
        "a/b/b/a",
        "a/b/a",
        "",
        "/",
        "x",
        "./site/dir/dir/file.png",
        "a/a/a/a",
    ] {
        let once = clean_path_segments(p);
        let twice = clean_path_segments(&once);
        assert_eq!(once, twice);
    }
}

#[test]
fn normalize_reaches_a_fixed_point_through_new_repeats() {
    // one collapse pass over a/b/b/a leaves a/b/a, which collapses again
    let r = clean_path_segments("a/b/b/a");
    assert_eq!(r, "b/a");
    assert_eq!(clean_path_segments(&r), "b/a");
}

#[test]
fn parent_directory_of_nested_path() {
    assert_eq!(extract_parent_directory("/a/b.png"), Some("a".to_string()));
}

#[test]
fn parent_directory_of_root_file_is_empty() {
    assert_eq!(extract_parent_directory("/logo.png"), Some(String::new()));
}

#[test]
fn parent_directory_of_bare_name_is_absent() {
    assert_eq!(extract_parent_directory("logo.png"), None);
}

#[test]
fn rewrite_replaces_attribute_occurrence_only() {
    let html = "<a href=\"/x\">/x</a>";
    let out = replace_exact_link(html, "/x", "./x/index.html");
    assert_eq!(out, "<a href=\"./x/index.html\">/x</a>");
}

#[test]
fn rewrite_leaves_similar_text_alone() {
    // no delimited occurrence of the reference: nothing changes
    let html = "<p>see /logo.png and also /logo.png2</p>";
    let out = replace_exact_link(html, "/logo.png", "./logo.png");
    assert_eq!(out, html);
}

#[test]
fn rewrite_normalizes_the_replacement() {
    let out = replace_exact_link("url('/l')", "/l", ".//l");
    assert_eq!(out, "url('./l')");
}

#[test]
fn rewrite_handles_every_delimiter_pair() {
    let out = replace_exact_link("x='/a' y=\"/a\" z=(/a)", "/a", "./a");
    assert_eq!(out, "x='./a' y=\"./a\" z=(./a)");
}

#[test]
fn replace_all_replaces_every_occurrence() {
    assert_eq!(replace_all("aXbXc", "X", "-"), "a-b-c");
    assert_eq!(replace_all("aaa", "aa", "b"), "ba");
    assert_eq!(replace_all("abc", "", "z"), "abc");
}

#[test]
fn css_refs_are_found_quoted_and_bare() {
    let css = "body{background:url('img/a.png');} .x{background: url( two.png );}";
    let refs = extract_css_refs(css);
    assert_eq!(refs, strings(&["img/a.png", "two.png"]));
}

#[test]
fn css_refs_double_quoted() {
    let refs = extract_css_refs("url(\"b.gif\")");
    assert_eq!(refs, strings(&["b.gif"]));
}

#[test]
fn css_refs_skip_malformed_forms() {
    assert_eq!(extract_css_refs("url() url('x template"), Vec::<String>::new());
}

#[test]
fn rate_limit_kilo() {
    assert_eq!(parse_rate_limit("400k"), Ok(409600));
    assert_eq!(parse_rate_limit("400K"), Ok(409600));
}

#[test]
fn rate_limit_mega() {
    assert_eq!(parse_rate_limit("2M"), Ok(2097152));
    assert_eq!(parse_rate_limit("5m"), Ok(5242880));
}

#[test]
fn rate_limit_empty_is_a_format_error() {
    assert_eq!(parse_rate_limit(""), Err("Invalid rate limit format".to_string()));
}

#[test]
fn rate_limit_bad_number() {
    assert_eq!(parse_rate_limit("k"), Err("Invalid number in rate limit".to_string()));
    assert_eq!(parse_rate_limit("1x2k"), Err("Invalid number in rate limit".to_string()));
    assert_eq!(
        parse_rate_limit("99999999999999999999k"),
        Err("Invalid number in rate limit".to_string())
    );
}

#[test]
fn rate_limit_bad_unit() {
    assert_eq!(
        parse_rate_limit("400g"),
        Err("Invalid unit in rate limit, use 'k' or 'M'".to_string())
    );
}

#[test]
fn chunking_is_capped() {
    assert_eq!(next_chunk_size(100), 100);
    assert_eq!(next_chunk_size(8192), 8192);
    assert_eq!(next_chunk_size(100000), 8192);
}

#[test]
fn chunk_delay_is_proportional() {
    assert_eq!(chunk_delay_ms(1024, 1024), 1500);
    assert_eq!(chunk_delay_ms(8192, 409600), 30);
}

#[test]
fn resolution_joins_relative_references() {
    assert_eq!(
        resolve_reference("http://x.test/", "/about/"),
        Some("http://x.test/about/".to_string())
    );
    assert_eq!(
        resolve_reference("http://x.test/a/", "b.png"),
        Some("http://x.test/a/b.png".to_string())
    );
}

#[test]
fn resolution_keeps_absolute_references() {
    assert_eq!(
        resolve_reference("http://x.test/", "http://other.test/"),
        Some("http://other.test/".to_string())
    );
}

#[test]
fn url_parts_are_split() {
    let (stripped, host, path) = split_url("http://x.test/a/b.png");
    assert_eq!(stripped, "x.test/a/b.png");
    assert_eq!(host, "x.test");
    assert_eq!(path, "/a/b.png");
}

#[test]
fn url_parts_without_scheme() {
    let (stripped, host, path) = split_url("x.test");
    assert_eq!(stripped, "x.test");
    assert_eq!(host, "x.test");
    assert_eq!(path, "");
}

#[test]
fn basenames_and_extensions() {
    assert_eq!(basename_of("/a/b/logo.png"), "logo.png");
    assert_eq!(basename_of("plain"), "plain");
    assert_eq!(extension_of("logo.png"), Some("png".to_string()));
    assert_eq!(extension_of("archive.tar.gz"), Some("gz".to_string()));
    assert_eq!(extension_of("noext"), None);
}

#[test]
fn classification_sorts_references() {
    let none: Vec<String> = Vec::new();
    let page = "http://x.test/";
    assert_eq!(classify_reference(page, "/about/", &none, &none).0, RefClass::Subpage);
    assert_eq!(classify_reference(page, "/logo.png", &none, &none).0, RefClass::Resource);
    assert_eq!(classify_reference(page, "http://other.test/", &none, &none).0, RefClass::Ignored);
    assert_eq!(classify_reference(page, "#top", &none, &none).0, RefClass::Ignored);
}

#[test]
fn classification_applies_reject_filter() {
    let reject = strings(&["png"]);
    let none: Vec<String> = Vec::new();
    let r = classify_reference("http://x.test/", "/logo.png", &reject, &none);
    assert_eq!(r.0, RefClass::Ignored);
}

#[test]
fn classification_applies_exclude_filter() {
    let none: Vec<String> = Vec::new();
    let exclude = strings(&["/private"]);
    let r = classify_reference("http://x.test/", "/private/doc.pdf", &none, &exclude);
    assert_eq!(r.0, RefClass::Ignored);
    // the same reference passes without the filter
    let r2 = classify_reference("http://x.test/", "/private/doc.pdf", &none, &none);
    assert_eq!(r2.0, RefClass::Resource);
}

#[test]
fn visit_grants_each_url_once() {
    let mut v = VisitedSet::new();
    assert!(v.visit("http://x.test/"));
    assert!(!v.visit("http://x.test/"));
    assert!(v.visit("http://x.test/about/"));
    assert!(!v.visit("http://x.test/"));
    assert!(v.contains_url("http://x.test/about/"));
    assert!(!v.contains_url("http://x.test/other"));
}

#[test]
fn normalize_of_empty_and_root() {
    assert_eq!(clean_path_segments(""), "");
    assert_eq!(clean_path_segments("/"), "");
    assert_eq!(clean_path_segments("///"), "");
}

#[test]
fn parent_directory_of_empty_is_absent() {
    assert_eq!(extract_parent_directory(""), None);
}

#[test]
fn rewrite_of_empty_content() {
    assert_eq!(replace_exact_link("", "/x", "./x"), "");
}

#[test]
fn rate_limit_at_the_machine_boundary() {
    // the largest kilobyte rate whose product still fits
    assert_eq!(parse_rate_limit("18014398509481983k"), Ok(18014398509481983 * 1024));
    assert_eq!(
        parse_rate_limit("18014398509481984k"),
        Err("Invalid number in rate limit".to_string())
    );
    assert_eq!(parse_rate_limit("17592186044415M"), Ok(17592186044415 * 1048576));
    assert_eq!(
        parse_rate_limit("17592186044416M"),
        Err("Invalid number in rate limit".to_string())
    );
}

#[test]
fn visit_is_case_and_byte_exact() {
    let mut v = VisitedSet::new();
    assert!(v.visit("http://x.test/A"));
    assert!(v.visit("http://x.test/a"));
    assert!(!v.visit("http://x.test/a"));
}
