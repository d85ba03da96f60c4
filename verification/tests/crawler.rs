use ishansearch::crawler::{
    anchor_hrefs, base_url, hash_url, manifest_entry, page_file_name, percent_safe_filename, tag_page,
    wiki_link, Crawler, MAX_PAGES,
};

#[test]
fn hash_url_is_sha1_hex() {
    assert_eq!(hash_url("abc"), "a9993e364706816aba3e25717850c26c9cd0d89d");
    assert_eq!(hash_url(""), "da39a3ee5e6b4b0d3255bfef95601890afd80709");
    assert_eq!(hash_url("https://en.wikipedia.org/wiki/Computer").len(), 40);
}

#[test]
fn percent_safe_filename_encodes_path() {
    assert_eq!(percent_safe_filename("https://en.wikipedia.org/wiki/Computer"), "%2Fwiki%2FComputer");
    assert_eq!(percent_safe_filename("https://example.org/a b"), "https%3A%2F%2Fexample%2Eorg%2Fa%20b");
    assert_eq!(percent_safe_filename("https://en.wikipedia.org/wiki/Café"), "%2Fwiki%2FCaf%C3%A9");
}

#[test]
fn wiki_link_filters_articles() {
    assert_eq!(wiki_link("/wiki/Alan_Turing"), Some("https://en.wikipedia.org/wiki/Alan_Turing".to_string()));
    assert_eq!(wiki_link("/wiki/File:Foo.png"), None);
    assert_eq!(wiki_link("https://example.org/wiki/X"), None);
    assert_eq!(wiki_link("/w/index.php"), None);
    assert_eq!(base_url(), "https://en.wikipedia.org");
}

#[test]
fn anchors_are_read_in_order() {
    let page = "<html><body><a href=\"/wiki/A\">a</a><a>none</a><a href=\"/wiki/B\">b</a></body></html>";
    assert_eq!(
        anchor_hrefs(page),
        vec![Some("/wiki/A".to_string()), None, Some("/wiki/B".to_string())]
    );
}

#[test]
fn tagged_page_and_names() {
    assert_eq!(tag_page("https://x", "<p>hi</p>"), "<!-- URL: https://x -->\n<p>hi</p>");
    assert_eq!(page_file_name("pages", "abc"), "pages/abc.html");
    let e = manifest_entry("https://en.wikipedia.org/wiki/Computer");
    assert_eq!(e.hash, hash_url("https://en.wikipedia.org/wiki/Computer"));
    assert_eq!(e.url, "https://en.wikipedia.org/wiki/Computer");
    assert_eq!(e.encoded_name, "%2Fwiki%2FComputer");
}

#[test]
fn crawl_visits_each_page_once() {
    let mut c = Crawler::new("https://en.wikipedia.org/wiki/A", 10);
    let first = c.next_url();
    assert_eq!(first.as_deref(), Some("https://en.wikipedia.org/wiki/A"));
    c.record_page(
        "https://en.wikipedia.org/wiki/A",
        &vec![Some("/wiki/B".to_string()), Some("/wiki/A".to_string()), Some("/wiki/B".to_string()), Some("/wiki/Talk:B".to_string()), None],
    );
    assert_eq!(c.pages_saved(), 1);
    assert_eq!(c.next_url().as_deref(), Some("https://en.wikipedia.org/wiki/B"));
    c.record_page("https://en.wikipedia.org/wiki/B", &vec![]);
    assert_eq!(c.pages_saved(), 2);
    assert_eq!(c.next_url(), None);
}

#[test]
fn crawl_stops_at_the_limit() {
    let mut c = Crawler::new("https://en.wikipedia.org/wiki/A", 1);
    assert!(c.next_url().is_some());
    c.record_page("https://en.wikipedia.org/wiki/A", &vec![Some("/wiki/B".to_string())]);
    assert_eq!(c.next_url(), None);
    assert_eq!(c.pages_saved(), 1);
    assert_eq!(MAX_PAGES, 100);
}

#[test]
fn crawl_failed_fetch_is_not_saved() {
    let mut c = Crawler::new("https://en.wikipedia.org/wiki/A", 5);
    assert!(c.next_url().is_some());
    assert_eq!(c.next_url(), None);
    assert_eq!(c.pages_saved(), 0);
}
