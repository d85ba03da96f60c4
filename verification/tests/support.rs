use ishansearch::config::{confirms_erase, database_url, parse_search_input, sqlite_path, SearchInput};
use ishansearch::models::link_results;
use ishansearch::paths::{file_extension, file_stem, has_extension, text_file_name};
use ishansearch::text::{count_matches, split_words, trim};

#[test]
fn file_names() {
    assert_eq!(file_extension("page.txt"), Some("txt".to_string()));
    assert_eq!(file_extension("archive.tar.gz"), Some("gz".to_string()));
    assert_eq!(file_extension(".hidden"), None);
    assert_eq!(file_extension("noext"), None);
    assert_eq!(file_extension("trailing."), Some("".to_string()));
    assert_eq!(file_stem("page.html"), Some("page".to_string()));
    assert_eq!(file_stem(".hidden"), Some(".hidden".to_string()));
    assert_eq!(file_stem(".."), None);
    assert!(has_extension("a.html", "html"));
    assert!(!has_extension("a.htm", "html"));
    assert_eq!(text_file_name(Some("abc.html")), "abc.txt");
    assert_eq!(text_file_name(None), "unknown.txt");
}

#[test]
fn settings() {
    assert_eq!(database_url(None), "sqlite://data/ishansearch.db");
    assert_eq!(database_url(Some("sqlite://x.db".to_string())), "sqlite://x.db");
    assert_eq!(sqlite_path("sqlite://data/ishansearch.db"), Some("data/ishansearch.db".to_string()));
    assert_eq!(sqlite_path("postgres://x"), None);
}

#[test]
fn search_prompt_input() {
    assert_eq!(parse_search_input("  EXIT \n"), SearchInput::Exit);
    assert_eq!(parse_search_input(" \n"), SearchInput::Empty);
    assert_eq!(parse_search_input(" Turing Machine\n"), SearchInput::Query("turing machine".to_string()));
}

#[test]
fn erase_confirmation() {
    assert!(confirms_erase(" Yes\n"));
    assert!(!confirms_erase("y"));
    assert!(!confirms_erase("no"));
}

#[test]
fn results_get_links() {
    let entries = vec![
        ("a.txt".to_string(), "https://a".to_string(), Some("A".to_string())),
        ("b.txt".to_string(), "https://b".to_string(), None),
        ("a.txt".to_string(), "https://a2".to_string(), Some("A2".to_string())),
    ];
    let hits = vec!["b.txt".to_string(), "a.txt".to_string(), "c.txt".to_string()];
    assert_eq!(
        link_results(&hits, &entries),
        vec![
            ("b.txt".to_string(), "https://b".to_string(), None),
            ("a.txt".to_string(), "https://a2".to_string(), Some("A2".to_string())),
            ("c.txt".to_string(), "https://ishanleung.com".to_string(), None),
        ]
    );
}

#[test]
fn text_helpers() {
    assert_eq!(split_words("  a  b\tc\n"), vec!["a".to_string(), "b".to_string(), "c".to_string()]);
    assert_eq!(trim("\u{2003} x y \n"), "x y");
    assert_eq!(count_matches("abababa", "aba"), 2);
}
