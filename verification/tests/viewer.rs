use ishansearch::results::{scroll_step_fits, snippet_from_lowered, text_snippet, Key, KeyOutcome, ViewMode, ViewState};

#[test]
fn snippet_centers_on_first_query_word() {
    let text = format!("{}Turing{}", "a".repeat(100), "b".repeat(100));
    let s = text_snippet(&text, "turing").unwrap();
    assert_eq!(s, format!("{}Turing{}...", "a".repeat(75), "b".repeat(69)));
}

#[test]
fn snippet_without_match_starts_at_beginning() {
    assert_eq!(text_snippet("line one\nline two", "zebra"), Some("line one line two".to_string()));
}

#[test]
fn snippet_uses_first_query_word_found() {
    assert_eq!(text_snippet("alpha beta", "gamma BETA alpha"), Some("alpha beta".to_string()));
}

#[test]
fn snippet_offset_not_a_boundary() {
    assert_eq!(snippet_from_lowered("é", "xx", "x"), Some("é".to_string()));
    assert_eq!(snippet_from_lowered("éa", "xxa", "a"), Some("éa".to_string()));
    assert_eq!(snippet_from_lowered("éa", "xa", "a"), None);
    assert_eq!(snippet_from_lowered("ab", "abcd", "d"), None);
}

#[test]
fn viewer_keys_in_results() {
    let mut v = ViewState::new();
    assert_eq!(v.on_key(Key::Down, 500, 3), KeyOutcome::Redraw);
    assert_eq!(v.selected, 1);
    assert_eq!(v.on_key(Key::Down, 10, 3), KeyOutcome::TooSoon);
    assert_eq!(v.selected, 1);
    assert_eq!(v.on_key(Key::Down, 500, 3), KeyOutcome::Redraw);
    assert_eq!(v.on_key(Key::Down, 500, 3), KeyOutcome::Unchanged);
    assert_eq!(v.selected, 2);
    assert_eq!(v.on_key(Key::Up, 500, 3), KeyOutcome::Redraw);
    assert_eq!(v.on_key(Key::Other, 500, 3), KeyOutcome::Unchanged);
    assert_eq!(v.on_key(Key::Esc, 500, 3), KeyOutcome::Exit);
}

#[test]
fn viewer_keys_in_file() {
    let mut v = ViewState::new();
    assert_eq!(v.on_key(Key::Enter, 500, 2), KeyOutcome::Open(0));
    assert_eq!(v.mode, ViewMode::File);
    assert_eq!(v.on_key(Key::Up, 500, 2), KeyOutcome::Unchanged);
    assert_eq!(v.on_key(Key::PageDown, 500, 2), KeyOutcome::Redraw);
    assert_eq!(v.scroll, 10);
    assert_eq!(v.on_key(Key::Down, 500, 2), KeyOutcome::Redraw);
    assert_eq!(v.on_key(Key::PageUp, 500, 2), KeyOutcome::Redraw);
    assert_eq!(v.scroll, 1);
    assert_eq!(v.on_key(Key::PageUp, 500, 2), KeyOutcome::Redraw);
    assert_eq!(v.scroll, 0);
    assert_eq!(v.on_key(Key::Esc, 500, 2), KeyOutcome::Redraw);
    assert_eq!(v.mode, ViewMode::Results);
}

#[test]
fn viewer_down_with_no_results() {
    let mut v = ViewState::new();
    assert_eq!(v.on_key(Key::Down, 500, 0), KeyOutcome::Unchanged);
    assert_eq!(v.selected, 0);
}

#[test]
fn viewer_scroll_limits() {
    let mut view = ViewState::new();
    assert!(scroll_step_fits(&view, Key::PageDown));
    view.mode = ViewMode::File;
    view.scroll = usize::MAX;
    assert!(!scroll_step_fits(&view, Key::Down));
    assert!(!scroll_step_fits(&view, Key::PageDown));
    assert!(scroll_step_fits(&view, Key::Up));
    view.scroll = usize::MAX - 10;
    assert!(scroll_step_fits(&view, Key::PageDown));
    view.scroll = usize::MAX - 9;
    assert!(!scroll_step_fits(&view, Key::PageDown));
}
