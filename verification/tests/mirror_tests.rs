use wget_mirror::mirror::{plan_page, MirrorConfig, MirrorState};

fn strings(v: &[&str]) -> Vec<String> {
    v.iter().map(|s| s.to_string()).collect()
}

fn config(reject: &[&str], exclude: &[&str], convert: bool) -> MirrorConfig {
    MirrorConfig {
        output_root: "root".to_string(),
        reject_types: strings(reject),
        exclude_dirs: strings(exclude),
        convert_links: convert,
    }
}

const SEED_HTML: &str = "<html><body><a href=\"/about/\">about</a><img src=\"/logo.png\"><a href=\"http://other.test/\">elsewhere</a></body></html>";

#[test]
fn seed_page_plan_fetches_and_rewrites() {
    let cfg = config(&[], &[], true);
    let p = plan_page("http://x.test/", SEED_HTML, &cfg);

    assert_eq!(p.page_dir, "root/x.test");
    assert_eq!(p.index_path, "root/x.test/index.html");

    assert_eq!(p.resources.len(), 1);
    assert_eq!(p.resources[0].url, "http://x.test/logo.png");
    assert_eq!(p.resources[0].save_path, "root/x.test/logo.png");

    assert_eq!(p.subpages, strings(&["http://x.test/about/"]));

    assert!(p.output_html.contains("src=\"./logo.png\""));
    assert!(p.output_html.contains("href=\"./about/index.html\""));
    // the off-domain link is left unmodified
    assert!(p.output_html.contains("href=\"http://other.test/\""));
}

#[test]
fn reject_filter_removes_resource_and_rewrite() {
    let cfg = config(&["png"], &[], true);
    let p = plan_page("http://x.test/", SEED_HTML, &cfg);

    // the rejected image is neither fetched nor rewritten
    assert!(p.resources.is_empty());
    assert!(p.output_html.contains("src=\"/logo.png\""));
    assert!(!p.output_html.contains("./logo.png"));
    // the unrelated subpage is still followed
    assert_eq!(p.subpages, strings(&["http://x.test/about/"]));
}

#[test]
fn exclude_filter_removes_subpage() {
    let html = "<a href=\"/private/x\">x</a><a href=\"/public/y\">y</a>";
    let cfg = config(&[], &["/private"], false);
    let p = plan_page("http://x.test/", html, &cfg);
    assert_eq!(p.subpages, strings(&["http://x.test/public/y"]));
}

#[test]
fn plan_without_conversion_keeps_the_markup() {
    let cfg = config(&[], &[], false);
    let p = plan_page("http://x.test/", SEED_HTML, &cfg);
    assert_eq!(p.output_html, SEED_HTML);
    // resources are still downloaded
    assert_eq!(p.resources.len(), 1);
}

#[test]
fn planning_twice_is_byte_identical() {
    let cfg = config(&[], &[], true);
    let p1 = plan_page("http://x.test/", SEED_HTML, &cfg);
    let p2 = plan_page("http://x.test/", SEED_HTML, &cfg);
    assert_eq!(p1.output_html, p2.output_html);
    assert_eq!(p1.index_path, p2.index_path);
    assert_eq!(p1.resources.len(), p2.resources.len());
    for (a, b) in p1.resources.iter().zip(p2.resources.iter()) {
        assert_eq!(a.url, b.url);
        assert_eq!(a.save_path, b.save_path);
    }
    assert_eq!(p1.subpages, p2.subpages);
}

#[test]
fn inline_stylesheet_resources_are_handled() {
    let html = "<html><head><style>body{background:url('/bg.png');}</style></head></html>";
    let cfg = config(&[], &[], true);
    let p = plan_page("http://x.test/", html, &cfg);

    assert_eq!(p.resources.len(), 1);
    assert_eq!(p.resources[0].url, "http://x.test/bg.png");
    assert_eq!(p.resources[0].save_path, "root/x.test/bg.png");
    // the stylesheet now points at the local copy by bare filename
    assert!(p.output_html.contains("url('bg.png')"));
    assert!(!p.output_html.contains("/bg.png')"));
}

#[test]
fn self_link_does_not_recurse_forever() {
    let html = "<a href=\"/\">home</a>";
    let cfg = config(&[], &[], true);
    let mut state = MirrorState::new("http://x.test/", cfg);

    let first = state.next_url();
    assert_eq!(first, Some("http://x.test/".to_string()));
    let p = state.on_page("http://x.test/", html);
    assert_eq!(p.subpages, strings(&["http://x.test/"]));

    // the second encounter of the seed is skipped by the visited set
    assert_eq!(state.next_url(), None);
}

#[test]
fn crawl_drains_the_frontier_in_discovery_order() {
    let seed_html = "<a href=\"/a/\">a</a><a href=\"/b/\">b</a>";
    let cfg = config(&[], &[], false);
    let mut state = MirrorState::new("http://x.test/", cfg);
    let mut processed: Vec<String> = Vec::new();

    while let Some(url) = state.next_url() {
        let html = if url == "http://x.test/" { seed_html } else { "<p>leaf</p>" };
        state.on_page(&url, html);
        processed.push(url);
    }

    assert_eq!(
        processed,
        strings(&["http://x.test/", "http://x.test/a/", "http://x.test/b/"])
    );
}

#[test]
fn page_without_references_has_an_empty_plan() {
    let cfg = config(&[], &[], true);
    let p = plan_page("http://x.test/", "<p>nothing here</p>", &cfg);
    assert!(p.resources.is_empty());
    assert!(p.subpages.is_empty());
    assert_eq!(p.index_path, "root/x.test/index.html");
}

#[test]
fn unparseable_markup_degrades_to_no_references() {
    let cfg = config(&[], &[], true);
    let p = plan_page("http://x.test/", "<<<<not really html", &cfg);
    assert!(p.resources.is_empty());
    assert!(p.subpages.is_empty());
}
