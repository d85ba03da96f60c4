use ishansearch::cleaner::{
    cleaned_file_name, entry_for_page, extract_clean_text, extract_text, extract_title, join_strings,
    url_from_tagged_html,
};
use ishansearch::crawler::{hash_url, tag_page};

const PAGE: &str = "<!-- URL: https://en.wikipedia.org/wiki/Computer -->\n<html><head><title> Computer - Wikipedia </title></head><body><h1>Computer</h1><p>A <b>computer</b> is a machine.</p><div>menu</div><h2>History</h2></body></html>";

#[test]
fn extract_text_takes_paragraphs_and_headings() {
    assert_eq!(
        extract_text(PAGE),
        "Computer\nA  computer  is a machine.\nHistory\n".to_string()
    );
    assert_eq!(
        extract_clean_text(PAGE),
        "Computer\nA  computer  is a machine.\nHistory".to_string()
    );
}

#[test]
fn extract_title_trims() {
    assert_eq!(extract_title(PAGE), Some("Computer - Wikipedia".to_string()));
    assert_eq!(extract_title("<p>no title</p>"), None);
}

#[test]
fn url_is_read_back_from_tag() {
    assert_eq!(url_from_tagged_html(PAGE), "https://en.wikipedia.org/wiki/Computer");
    let body = "<p>x</p>";
    assert_eq!(url_from_tagged_html(&tag_page("https://a.b/c", body)), "https://a.b/c");
}

#[test]
fn url_fallback_when_untagged() {
    assert_eq!(url_from_tagged_html(""), "https://ishanleung.com");
    assert_eq!(url_from_tagged_html("<html>"), "https://ishanleung.com");
    assert_eq!(url_from_tagged_html("<!-- comment -->\n"), "https://ishanleung.com");
    assert_eq!(url_from_tagged_html("<!-- URL: x -->\r\nrest"), "x");
}

#[test]
fn entry_for_page_builds_record() {
    let clean = extract_clean_text(PAGE);
    let e = entry_for_page(PAGE, clean.clone()).unwrap();
    assert_eq!(e.url, "https://en.wikipedia.org/wiki/Computer");
    assert_eq!(e.filename, format!("{}.txt", hash_url("https://en.wikipedia.org/wiki/Computer")));
    assert_eq!(e.filename, cleaned_file_name("https://en.wikipedia.org/wiki/Computer"));
    assert_eq!(e.title, Some("Computer - Wikipedia".to_string()));
    assert_eq!(e.clean_text, Some(clean));
    assert!(entry_for_page(PAGE, " \n\t".to_string()).is_none());
}

#[test]
fn join_strings_puts_separator_between() {
    assert_eq!(join_strings(&vec!["a".to_string(), "b".to_string(), "c".to_string()], ", "), "a, b, c");
    assert_eq!(join_strings(&vec![], "-"), "");
}
