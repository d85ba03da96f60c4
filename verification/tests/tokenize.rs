use ishansearch::indexer::{normalize_token, tokenize, wants_phrase_search, phrase_occurrences};

fn strings(v: &[&str]) -> Vec<String> {
    v.iter().map(|s| s.to_string()).collect()
}

#[test]
fn tokenize_lowercases_and_drops_stop_words() {
    assert_eq!(tokenize("The Turing machine"), strings(&["turing", "machine"]));
}

#[test]
fn tokenize_uppercase_is_lowered() {
    assert_eq!(tokenize("HELLO World"), strings(&["hello", "world"]));
}

#[test]
fn tokenize_strips_punctuation_and_plural_marks() {
    assert_eq!(tokenize("(computers), Turing's machines!"), strings(&["computer", "turing", "machine"]));
}

#[test]
fn tokenize_drops_single_byte_words() {
    assert_eq!(tokenize("x y z ab"), strings(&["ab"]));
}

#[test]
fn tokenize_keeps_single_multibyte_letter() {
    assert_eq!(tokenize("é"), strings(&["é"]));
}

#[test]
fn tokenize_strips_every_trailing_s() {
    assert_eq!(tokenize("class boss's"), strings(&["cla", "bo"]));
}

#[test]
fn tokenize_all_stop_words() {
    assert_eq!(tokenize("the of and a to in you that it he for on are"), Vec::<String>::new());
    assert_eq!(tokenize("with they i at be have from or one had by but"), Vec::<String>::new());
    assert_eq!(tokenize("is was as his this"), Vec::<String>::new());
    assert_eq!(tokenize("was this his"), Vec::<String>::new());
    assert_eq!(tokenize("\"This,\" (was) His!"), Vec::<String>::new());
    // Dropped when either form is a stop word; kept otherwise.
    assert_eq!(tokenize("thes ands"), Vec::<String>::new());
    assert_eq!(tokenize("hiss"), strings(&["hi"]));
}

#[test]
fn tokenize_empty_and_blank() {
    assert!(tokenize("").is_empty());
    assert!(tokenize(" \t\n ").is_empty());
    assert!(tokenize("--- ... !!!").is_empty());
}

#[test]
fn tokenize_unicode_whitespace_splits() {
    assert_eq!(tokenize("alpha\u{3000}beta\u{a0}gamma"), strings(&["alpha", "beta", "gamma"]));
}

#[test]
fn normalize_token_examples() {
    assert_eq!(normalize_token("\"hello,\""), Some("hello".to_string()));
    assert_eq!(normalize_token("machines'"), Some("machine".to_string()));
    assert_eq!(normalize_token("the"), None);
    assert_eq!(normalize_token("was"), None);
    assert_eq!(normalize_token("(this)"), None);
    assert_eq!(normalize_token("s"), None);
    assert_eq!(normalize_token("ss"), None);
    assert_eq!(normalize_token("a1"), Some("a1".to_string()));
}

#[test]
fn phrase_search_needs_two_words() {
    assert!(!wants_phrase_search("turing"));
    assert!(!wants_phrase_search("  turing  "));
    assert!(wants_phrase_search("turing machine"));
}

#[test]
fn phrase_occurrences_ignore_case_and_do_not_overlap() {
    assert_eq!(phrase_occurrences("Turing Machine and a turing machine", "TURING machine"), Some((2, 35)));
    assert_eq!(phrase_occurrences("aaaa", "aa"), Some((2, 4)));
    assert_eq!(phrase_occurrences("ÀÉ ab", "ab"), Some((1, 7)));
    assert_eq!(phrase_occurrences("abc", "x"), Some((0, 3)));
    assert_eq!(phrase_occurrences("abc", ""), Some((4, 3)));
}

#[test]
fn tokenize_joined_texts_concatenates_tokens() {
    let a = "The Turing machine";
    let b = "computes numbers";
    let mut expected = tokenize(a);
    expected.extend(tokenize(b));
    assert_eq!(tokenize(&format!("{} {}", a, b)), expected);
    assert_eq!(tokenize(&format!("{}\u{3000}{}", a, b)), expected);
}

#[test]
fn tokenize_ignores_ascii_case() {
    let text = "Alan TURING built Machines in 1936";
    assert_eq!(tokenize(&text.to_ascii_uppercase()), tokenize(text));
    assert_eq!(tokenize(&text.to_ascii_lowercase()), tokenize(text));
    assert_eq!(tokenize(text), vec!["alan", "turing", "built", "machine", "1936"]);
}

#[test]
fn tokenize_is_idempotent_on_ascii_words() {
    let text = "Computers process Data\tquickly and\nthe machines class 42";
    let tokens = tokenize(text);
    assert_eq!(tokenize(&tokens.join(" ")), tokens);
}

#[test]
fn tokenize_splits_on_unicode_whitespace() {
    assert_eq!(tokenize("alpha\u{85}beta\u{2009}gamma"), vec!["alpha", "beta", "gamma"]);
}
