//! Tokenizing, the inverted index of term counts, and query planning.
use vstd::prelude::*;
use vstd::utf8::encode_utf8;
use crate::cleaner::join;
use crate::search_plan::{DocHits, ScoreIndex, matched_for, reached, slots_for};
use crate::text::{
    in_class, lemma_trim_end_suffix, lemma_trim_start_prefix,
    alphanumeric, count_matches, count_occurrences, lemma_trim_end_class, lemma_trim_start_class,
    CharClass, chars_of, lemma_encode_utf8_len, lowercase, skip_leading, skip_trailing,
    all_ascii, ascii_lower, ascii_upper, is_ascii_alnum, is_ascii_char, is_ascii_whitespace,
    lemma_split_whitespace_map, lemma_split_whitespace_word, lemma_split_words_chars, map_words,
    to_ascii_lower, to_ascii_upper, is_white_space, lemma_split_whitespace_concat, split_whitespace, split_words, str_to_lowercase, string_of_range, trim_end_class,
    trim_start_class,
};

verus! {

// ---------------------------------------------------------------------------
// Tokenizing
// ---------------------------------------------------------------------------

/// Common English words that never become tokens.
pub open spec fn stop_words() -> Seq<Seq<char>> {
    seq![
        "the"@, "of"@, "and"@, "a"@, "to"@, "in"@, "is"@, "you"@, "that"@, "it"@,
        "he"@, "was"@, "for"@, "on"@, "are"@, "as"@, "with"@, "his"@, "they"@,
        "i"@, "at"@, "be"@, "this"@, "have"@, "from"@, "or"@, "one"@, "had"@, "by"@, "but"@,
    ]
}

pub open spec fn is_stop_word(t: Seq<char>) -> bool {
    stop_words().contains(t)
}

/// A lowercased word with its leading and trailing non-alphanumeric
/// characters removed.
pub open spec fn trimmed(lowered: Seq<char>) -> Seq<char> {
    trim_end_class(
        trim_start_class(lowered, CharClass::NonAlphanumeric),
        CharClass::NonAlphanumeric,
    )
}

/// A lowercased word with its leading and trailing non-alphanumeric
/// characters removed, then its trailing `s` and `'` characters.
pub open spec fn normalize(lowered: Seq<char>) -> Seq<char> {
    trim_end_class(trimmed(lowered), CharClass::PluralMark)
}

/// A normalized word is kept when it is not empty, its UTF-8 encoding is
/// longer than one byte, and it is not a stop word.
pub open spec fn kept(t: Seq<char>) -> bool {
    &&& t.len() > 0
    &&& encode_utf8(t).len() > 1
    &&& !is_stop_word(t)
}

/// A lowercased word gives a token when its normalized form is kept and the
/// word, trimmed of non-alphanumeric characters but before its trailing `s`
/// and `'` are cut, is no stop word either (so "was", "this" and "his" are
/// dropped, not turned into "wa", "thi" and "hi").
pub open spec fn keeps(lowered: Seq<char>) -> bool {
    kept(normalize(lowered)) && !is_stop_word(trimmed(lowered))
}

/// The tokens of a list of whitespace-separated words, in order.
pub open spec fn tokens_of_words(words: Seq<Seq<char>>) -> Seq<Seq<char>>
    decreases words.len(),
{
    if words.len() == 0 {
        seq![]
    } else {
        let rest = tokens_of_words(words.drop_last());
        let t = normalize(lowercase(words.last()));
        if keeps(lowercase(words.last())) {
            rest.push(t)
        } else {
            rest
        }
    }
}

/// The tokens of a text: each whitespace-separated word lowercased and
/// normalized, keeping those whose word passes `keeps`.
pub open spec fn tokens_of(text: Seq<char>) -> Seq<Seq<char>> {
    tokens_of_words(split_whitespace(text))
}

/// Whether `cs[lo..hi]` spells `w`.
fn range_equals(cs: &Vec<char>, lo: usize, hi: usize, w: &str) -> (r: bool)
    requires
        lo <= hi <= cs.len(),
    ensures
        r == (cs@.subrange(lo as int, hi as int) == w@),
{
    let n = w.unicode_len();
    if n != hi - lo {
        return false;
    }
    let mut i: usize = 0;
    while i < n
        invariant
            n == w@.len(),
            n == hi - lo,
            lo <= hi <= cs.len(),
            i <= n,
            forall|j: int| 0 <= j < i ==> cs@[lo + j] == w@[j],
        decreases n - i,
    {
        if cs[lo + i] != w.get_char(i) {
            assert(cs@.subrange(lo as int, hi as int)[i as int] != w@[i as int]);
            return false;
        }
        i += 1;
    }
    assert(cs@.subrange(lo as int, hi as int) =~= w@);
    true
}

/// Whether `cs[lo..hi]` is one of the stop words.
fn range_is_stop_word(cs: &Vec<char>, lo: usize, hi: usize) -> (r: bool)
    requires
        lo <= hi <= cs.len(),
    ensures
        r == is_stop_word(cs@.subrange(lo as int, hi as int)),
{
    let table: [&str; 30] = [
        "the", "of", "and", "a", "to", "in", "is", "you", "that", "it",
        "he", "was", "for", "on", "are", "as", "with", "his", "they",
        "i", "at", "be", "this", "have", "from", "or", "one", "had", "by", "but",
    ];
    assert(table@.map_values(|w: &str| w@) =~= stop_words());
    let ghost t = cs@.subrange(lo as int, hi as int);
    let mut i: usize = 0;
    while i < 30
        invariant
            i <= 30,
            table@.len() == 30,
            table@.map_values(|w: &str| w@) == stop_words(),
            t == cs@.subrange(lo as int, hi as int),
            lo <= hi <= cs.len(),
            forall|j: int| 0 <= j < i ==> stop_words()[j] != t,
        decreases 30 - i,
    {
        if range_equals(cs, lo, hi, table[i]) {
            assert(stop_words()[i as int] == t);
            return true;
        }
        i += 1;
    }
    false
}

/// Cleans one lowercased word: strips the non-alphanumeric characters at
/// both ends, then the trailing `s` and `'` characters, and keeps the result
/// only if it is a token and the word was no stop word before its trailing
/// `s` and `'` were cut.
pub fn normalize_token(lowered: &str) -> (r: Option<String>)
    ensures
        match r {
            Some(t) => keeps(lowered@) && t@ == normalize(lowered@),
            None => !keeps(lowered@),
        },
{
    let cs = chars_of(lowered);
    let n = cs.len();
    let lo = skip_leading(&cs, 0, n, CharClass::NonAlphanumeric);
    let hi = skip_trailing(&cs, lo, n, CharClass::NonAlphanumeric);
    let end = skip_trailing(&cs, lo, hi, CharClass::PluralMark);
    proof {
        assert(cs@.subrange(0, n as int) =~= cs@);
    }
    let ghost t = cs@.subrange(lo as int, end as int);
    assert(trimmed(lowered@) == cs@.subrange(lo as int, hi as int));
    assert(normalize(lowered@) == t);
    if range_is_stop_word(&cs, lo, hi) {
        return None;
    }
    proof {
        lemma_encode_utf8_len(t);
    }
    if end == lo {
        return None;
    }
    let long_enough = end - lo >= 2 || (cs[lo] as u32) >= 0x80;
    if !long_enough {
        assert(t.len() == 1 && t[0] == cs@[lo as int]);
        return None;
    }
    if range_is_stop_word(&cs, lo, end) {
        return None;
    }
    Some(string_of_range(&cs, lo, end))
}

/// Splits a text into search tokens: whitespace-separated words, each
/// lowercased and cleaned by `normalize_token`, dropping empty words,
/// one-byte words and common English stop words.
pub fn tokenize(text: &str) -> (tokens: Vec<String>)
    ensures
        tokens.deep_view() == tokens_of(text@),
{
    let words = split_words(text);
    let mut out: Vec<String> = Vec::new();
    let mut i: usize = 0;
    while i < words.len()
        invariant
            i <= words.len(),
            words.deep_view() == split_whitespace(text@),
            out.deep_view() == tokens_of_words(words.deep_view().take(i as int)),
        decreases words.len() - i,
    {
        let lowered = str_to_lowercase(words[i].as_str());
        assert(words.deep_view().take(i + 1).drop_last() =~= words.deep_view().take(i as int));
        assert(words.deep_view()[i as int] == words@[i as int]@);
        match normalize_token(lowered.as_str()) {
            Some(t) => {
                let ghost before = out.deep_view();
                out.push(t);
                assert(out.deep_view() =~= before.push(t@));
            },
            None => {},
        }
        i += 1;
    }
    assert(words.deep_view().take(words.len() as int) =~= words.deep_view());
    out
}

// ---------------------------------------------------------------------------
// Queries
// ---------------------------------------------------------------------------

/// The documents a query reaches, with the slots of their scores and their
/// numbers of distinct matching terms, and the number of query tokens.
pub fn plan_query(index: &ScoreIndex, query: &str) -> (r: (Vec<DocHits>, usize))
    requires
        index.wf(),
    ensures
        r.1 == tokens_of(query@).len(),
        forall|a: int|
            0 <= a < r.0@.len() ==> {
                let h = #[trigger] r.0@[a];
                &&& h.slots@ == slots_for(*index, tokens_of(query@), h.doc@)
                &&& h.matched == matched_for(*index, tokens_of(query@), h.doc@)
                &&& reached(*index, tokens_of(query@), h.doc@)
            },
        forall|d: Seq<char>|
            reached(*index, tokens_of(query@), d) ==> exists|a: int|
                0 <= a < r.0@.len() && #[trigger] r.0@[a].doc@ == d,
        forall|a: int, b: int| 0 <= a < b < r.0@.len() ==> r.0@[a].doc@ != r.0@[b].doc@,
{
    let terms = tokenize(query);
    let hits = index.plan(&terms);
    (hits, terms.len())
}

/// Whether a query is also searched as a phrase: when it has more than one
/// whitespace-separated word.
pub fn wants_phrase_search(query: &str) -> (r: bool)
    ensures
        r == (split_whitespace(query@).len() > 1),
{
    split_words(query).len() > 1
}

/// The number of non-overlapping occurrences of the lowercased phrase in the
/// lowercased content.
pub fn phrase_occurrences_lowered(content_lower: &str, phrase_lower: &str) -> (r: usize)
    requires
        content_lower@.len() < usize::MAX,
    ensures
        r == count_occurrences(content_lower@, phrase_lower@),
{
    count_matches(content_lower, phrase_lower)
}

/// How often a phrase occurs in a text, ignoring case, with the UTF-8 length
/// of the lowercased text; `None` only when the lowercased text has
/// `usize::MAX` characters or more.
pub fn phrase_occurrences(content: &str, phrase: &str) -> (r: Option<(usize, usize)>)
    ensures
        match r {
            Some((n, len)) => {
                &&& lowercase(content@).len() < usize::MAX
                &&& n == count_occurrences(lowercase(content@), lowercase(phrase@))
                &&& len == encode_utf8(lowercase(content@)).len()
            },
            None => lowercase(content@).len() >= usize::MAX,
        },
{
    let content_lower = str_to_lowercase(content);
    let phrase_lower = str_to_lowercase(phrase);
    let n = chars_of(content_lower.as_str()).len();
    if n == usize::MAX {
        return None;
    }
    let count = phrase_occurrences_lowered(content_lower.as_str(), phrase_lower.as_str());
    let len = content_lower.as_str().as_bytes().len();
    Some((count, len))
}

// ---------------------------------------------------------------------------
// Laws of the tokenizer
// ---------------------------------------------------------------------------

/// A normalized word that is not empty starts with an alphanumeric
/// character and ends in neither `s` nor `'`.
pub proof fn lemma_normalized_shape(lowered: Seq<char>)
    ensures
        normalize(lowered).len() > 0 ==> {
            &&& alphanumeric(normalize(lowered)[0])
            &&& normalize(lowered).last() != 's'
            &&& normalize(lowered).last() != '\''
        },
{
    let a = trim_start_class(lowered, CharClass::NonAlphanumeric);
    let b = trim_end_class(a, CharClass::NonAlphanumeric);
    let c = trim_end_class(b, CharClass::PluralMark);
    lemma_trim_start_class(lowered, CharClass::NonAlphanumeric);
    lemma_trim_end_class(a, CharClass::NonAlphanumeric);
    lemma_trim_end_class(b, CharClass::PluralMark);
    if c.len() > 0 {
        let j2 = choose|j: int| 0 <= j <= b.len() && c == #[trigger] b.take(j);
        let j1 = choose|j: int| 0 <= j <= a.len() && b == #[trigger] a.take(j);
        assert(c[0] == b[0]);
        assert(b[0] == a[0]);
    }
}

/// Every token of a text is kept (non-empty, longer than one byte, no stop
/// word), starts with an alphanumeric character and ends in neither `s` nor
/// `'`; a text has no more tokens than whitespace-separated words.
pub proof fn lemma_token_shape(text: Seq<char>)
    ensures
        tokens_of(text).len() <= split_whitespace(text).len(),
        forall|i: int|
            0 <= i < tokens_of(text).len() ==> {
                let t = #[trigger] tokens_of(text)[i];
                &&& kept(t)
                &&& alphanumeric(t[0])
                &&& t.last() != 's'
                &&& t.last() != '\''
            },
{
    lemma_tokens_of_words_shape(split_whitespace(text));
}

/// A text whose every word, lowercased and trimmed of non-alphanumeric
/// characters, is a stop word has no tokens.
pub proof fn lemma_stop_words_dropped(text: Seq<char>)
    requires
        forall|k: int|
            0 <= k < split_whitespace(text).len() ==> is_stop_word(
                trimmed(lowercase(#[trigger] split_whitespace(text)[k])),
            ),
    ensures
        tokens_of(text) == Seq::<Seq<char>>::empty(),
{
    lemma_stop_words_dropped_words(split_whitespace(text));
}

proof fn lemma_stop_words_dropped_words(ws: Seq<Seq<char>>)
    requires
        forall|k: int| 0 <= k < ws.len() ==> is_stop_word(trimmed(lowercase(#[trigger] ws[k]))),
    ensures
        tokens_of_words(ws) == Seq::<Seq<char>>::empty(),
    decreases ws.len(),
{
    if ws.len() > 0 {
        let w2 = ws.drop_last();
        assert forall|k: int| 0 <= k < w2.len() implies is_stop_word(trimmed(lowercase(#[trigger] w2[k]))) by {
            assert(w2[k] == ws[k]);
        }
        lemma_stop_words_dropped_words(w2);
        assert(is_stop_word(trimmed(lowercase(ws[ws.len() - 1]))));
    }
}

proof fn lemma_tokens_of_words_shape(words: Seq<Seq<char>>)
    ensures
        tokens_of_words(words).len() <= words.len(),
        forall|i: int|
            0 <= i < tokens_of_words(words).len() ==> {
                let t = #[trigger] tokens_of_words(words)[i];
                &&& kept(t)
                &&& alphanumeric(t[0])
                &&& t.last() != 's'
                &&& t.last() != '\''
            },
    decreases words.len(),
{
    if words.len() > 0 {
        lemma_tokens_of_words_shape(words.drop_last());
        lemma_normalized_shape(lowercase(words.last()));
    }
}


/// The tokens of two lists of words are the tokens of the first list, then
/// those of the second.
proof fn lemma_tokens_of_words_concat(w1: Seq<Seq<char>>, w2: Seq<Seq<char>>)
    ensures
        tokens_of_words(w1 + w2) == tokens_of_words(w1) + tokens_of_words(w2),
    decreases w2.len(),
{
    if w2.len() == 0 {
        assert(w1 + w2 =~= w1);
        assert(tokens_of_words(w1) + tokens_of_words(w2) =~= tokens_of_words(w1));
    } else {
        assert((w1 + w2).drop_last() =~= w1 + w2.drop_last());
        assert((w1 + w2).last() == w2.last());
        lemma_tokens_of_words_concat(w1, w2.drop_last());
        let t = normalize(lowercase(w2.last()));
        if keeps(lowercase(w2.last())) {
            assert((tokens_of_words(w1) + tokens_of_words(w2.drop_last())).push(t)
                =~= tokens_of_words(w1) + tokens_of_words(w2.drop_last()).push(t));
        }
    }
}

/// Tokenizing two texts joined by a whitespace character gives the tokens
/// of the first text, then those of the second.
pub proof fn lemma_tokens_concat(a: Seq<char>, c: char, b: Seq<char>)
    requires
        is_white_space(c),
    ensures
        tokens_of(a.push(c) + b) == tokens_of(a) + tokens_of(b),
{
    lemma_split_whitespace_concat(a, c, b);
    lemma_tokens_of_words_concat(split_whitespace(a), split_whitespace(b));
}


/// An ASCII lowercase letter or digit.
pub open spec fn is_token_char(c: char) -> bool {
    let u = c as u32;
    (0x30 <= u <= 0x39) || (0x61 <= u <= 0x7a)
}

/// A non-empty word of ASCII lowercase letters and digits that does not end
/// in `s`.
pub open spec fn plain_token(t: Seq<char>) -> bool {
    &&& t.len() > 0
    &&& forall|j: int| 0 <= j < t.len() ==> is_token_char(#[trigger] t[j])
    &&& t.last() != 's'
}

proof fn lemma_normalize_ascii_word(w: Seq<char>)
    requires
        forall|j: int| 0 <= j < w.len() ==> is_ascii_alnum(#[trigger] w[j]),
    ensures
        normalize(lowercase(w)).len() > 0 ==> plain_token(normalize(lowercase(w))),
{
    assert forall|i: int| 0 <= i < w.len() implies is_ascii_char(#[trigger] w[i]) by {
        assert(is_ascii_alnum(w[i]));
    }
    let l = lowercase(w);
    assert forall|j: int| 0 <= j < l.len() implies is_token_char(#[trigger] l[j]) by {
        assert(is_ascii_alnum(w[j]));
    }
    if l.len() > 0 {
        assert(is_token_char(l[0]));
        assert(is_token_char(l[l.len() - 1]));
    }
    assert(trim_start_class(l, CharClass::NonAlphanumeric) == l);
    assert(trim_end_class(l, CharClass::NonAlphanumeric) == l);
    lemma_trim_end_class(l, CharClass::PluralMark);
    let t = trim_end_class(l, CharClass::PluralMark);
    let j = choose|j: int| 0 <= j <= l.len() && t == #[trigger] l.take(j);
    assert forall|k: int| 0 <= k < t.len() implies is_token_char(#[trigger] t[k]) by {
        assert(t[k] == l[k]);
    }
}

proof fn lemma_tokens_of_ascii_words(ws: Seq<Seq<char>>)
    requires
        forall|k: int, j: int| 0 <= k < ws.len() && 0 <= j < ws[k].len() ==> is_ascii_alnum(#[trigger] ws[k][j]),
    ensures
        forall|k: int|
            0 <= k < tokens_of_words(ws).len() ==> plain_token(#[trigger] tokens_of_words(ws)[k])
                && kept(tokens_of_words(ws)[k]),
    decreases ws.len(),
{
    if ws.len() > 0 {
        let w2 = ws.drop_last();
        assert forall|k: int, j: int| 0 <= k < w2.len() && 0 <= j < w2[k].len() implies is_ascii_alnum(
            #[trigger] w2[k][j],
        ) by {
            assert(w2[k] == ws[k]);
        }
        lemma_tokens_of_ascii_words(w2);
        let w = ws.last();
        assert forall|j: int| 0 <= j < w.len() implies is_ascii_alnum(#[trigger] w[j]) by {
            assert(ws[ws.len() - 1][j] == w[j]);
        }
        lemma_normalize_ascii_word(w);
        let rest = tokens_of_words(w2);
        let t = normalize(lowercase(w));
        if keeps(lowercase(w)) {
            let r = rest.push(t);
            assert forall|k: int| 0 <= k < r.len() implies plain_token(#[trigger] r[k]) && kept(r[k]) by {
                if k < rest.len() {
                    assert(r[k] == rest[k]);
                }
            }
        }
    }
}

proof fn lemma_split_joined_tokens(ts: Seq<Seq<char>>)
    requires
        forall|k: int| 0 <= k < ts.len() ==> plain_token(#[trigger] ts[k]),
    ensures
        split_whitespace(join(ts, seq![' '])) == ts,
    decreases ts.len(),
{
    if ts.len() == 0 {
        assert(split_whitespace(join(ts, seq![' '])) =~= ts);
    } else {
        let t = ts.last();
        assert(plain_token(ts[ts.len() - 1]));
        assert forall|j: int| 0 <= j < t.len() implies !is_white_space(#[trigger] t[j]) by {
            assert(is_token_char(t[j]));
        }
        lemma_split_whitespace_word(t);
        if ts.len() == 1 {
            assert(seq![t] =~= ts);
        } else {
            let ts2 = ts.drop_last();
            assert forall|k: int| 0 <= k < ts2.len() implies plain_token(#[trigger] ts2[k]) by {
                assert(ts2[k] == ts[k]);
            }
            lemma_split_joined_tokens(ts2);
            let a = join(ts2, seq![' ']);
            assert(join(ts, seq![' ']) =~= a.push(' ') + t);
            lemma_split_whitespace_concat(a, ' ', t);
            assert(ts2 + seq![t] =~= ts);
        }
    }
}

proof fn lemma_tokens_of_plain(ts: Seq<Seq<char>>)
    requires
        forall|k: int| 0 <= k < ts.len() ==> plain_token(#[trigger] ts[k]) && kept(ts[k]),
    ensures
        tokens_of_words(ts) == ts,
    decreases ts.len(),
{
    if ts.len() > 0 {
        let ts2 = ts.drop_last();
        assert forall|k: int| 0 <= k < ts2.len() implies plain_token(#[trigger] ts2[k]) && kept(ts2[k]) by {
            assert(ts2[k] == ts[k]);
        }
        lemma_tokens_of_plain(ts2);
        let t = ts.last();
        assert(plain_token(ts[ts.len() - 1]) && kept(ts[ts.len() - 1]));
        assert forall|i: int| 0 <= i < t.len() implies is_ascii_char(#[trigger] t[i]) by {
            assert(is_token_char(t[i]));
        }
        assert forall|i: int| 0 <= i < t.len() implies lowercase(t)[i] == t[i] by {
            assert(is_token_char(t[i]));
        }
        assert(lowercase(t) =~= t);
        assert(is_token_char(t[0]));
        assert(is_token_char(t[t.len() - 1]));
        assert(trim_start_class(t, CharClass::NonAlphanumeric) == t);
        assert(trim_end_class(t, CharClass::NonAlphanumeric) == t);
        assert(trim_end_class(t, CharClass::PluralMark) == t);
        assert(ts2.push(t) =~= ts);
    } else {
        assert(ts =~= Seq::<Seq<char>>::empty());
    }
}

/// Tokenizing the tokens of a text of ASCII letters, digits and whitespace,
/// joined by spaces, gives the same tokens again.
pub proof fn lemma_tokens_idempotent(text: Seq<char>)
    requires
        forall|i: int| 0 <= i < text.len() ==> is_ascii_alnum(#[trigger] text[i]) || is_ascii_whitespace(text[i]),
    ensures
        tokens_of(join(tokens_of(text), seq![' '])) == tokens_of(text),
{
    let p = |c: char| is_ascii_alnum(c);
    assert forall|i: int| 0 <= i < text.len() implies p(#[trigger] text[i]) || is_white_space(text[i]) by {
        assert(is_ascii_alnum(text[i]) || is_ascii_whitespace(text[i]));
    }
    lemma_split_words_chars(text, p);
    let ws = split_whitespace(text);
    assert forall|k: int, j: int| 0 <= k < ws.len() && 0 <= j < ws[k].len() implies is_ascii_alnum(
        #[trigger] ws[k][j],
    ) by {
        assert(p(ws[k][j]));
    }
    lemma_tokens_of_ascii_words(ws);
    let ts = tokens_of(text);
    lemma_split_joined_tokens(ts);
    lemma_tokens_of_plain(ts);
}

proof fn lemma_tokens_of_words_map(ws: Seq<Seq<char>>, f: spec_fn(char) -> char)
    requires
        forall|k: int| 0 <= k < ws.len() ==> lowercase((#[trigger] ws[k]).map_values(f)) == lowercase(ws[k]),
    ensures
        tokens_of_words(map_words(ws, f)) == tokens_of_words(ws),
    decreases ws.len(),
{
    if ws.len() > 0 {
        let w2 = ws.drop_last();
        assert(map_words(ws, f).drop_last() =~= map_words(w2, f));
        assert(map_words(ws, f).last() == ws.last().map_values(f));
        assert forall|k: int| 0 <= k < w2.len() implies lowercase((#[trigger] w2[k]).map_values(f)) == lowercase(w2[k]) by {
            assert(w2[k] == ws[k]);
        }
        lemma_tokens_of_words_map(w2, f);
        assert(lowercase(ws[ws.len() - 1].map_values(f)) == lowercase(ws[ws.len() - 1]));
    }
}

proof fn lemma_tokens_char_map(text: Seq<char>, f: spec_fn(char) -> char)
    requires
        all_ascii(text),
        forall|c: char| #[trigger] is_white_space(f(c)) == is_white_space(c),
        forall|c: char| is_ascii_char(c) ==> is_ascii_char(#[trigger] f(c)) && ascii_lower(f(c)) == ascii_lower(c),
    ensures
        tokens_of(text.map_values(f)) == tokens_of(text),
{
    lemma_split_whitespace_map(text, f);
    let p = |c: char| is_ascii_char(c);
    assert forall|i: int| 0 <= i < text.len() implies p(#[trigger] text[i]) || is_white_space(text[i]) by {
        assert(is_ascii_char(text[i]));
    }
    lemma_split_words_chars(text, p);
    let ws = split_whitespace(text);
    assert forall|k: int| 0 <= k < ws.len() implies lowercase((#[trigger] ws[k]).map_values(f)) == lowercase(ws[k]) by {
        let w = ws[k];
        let m = w.map_values(f);
        assert forall|i: int| 0 <= i < w.len() implies is_ascii_char(#[trigger] w[i]) by {
            assert(p(ws[k][i]));
        }
        assert forall|i: int| 0 <= i < m.len() implies is_ascii_char(#[trigger] m[i]) by {
            assert(is_ascii_char(w[i]));
            assert(is_ascii_char(f(w[i])));
        }
        assert forall|i: int| 0 <= i < w.len() implies lowercase(m)[i] == lowercase(w)[i] by {
            assert(is_ascii_char(w[i]));
            assert(ascii_lower(f(w[i])) == ascii_lower(w[i]));
        }
        assert(lowercase(m) =~= lowercase(w));
    }
    lemma_tokens_of_words_map(ws, f);
}

/// On ASCII text, the tokens do not depend on letter case: uppercasing or
/// lowercasing the ASCII letters first gives the same tokens.
pub proof fn lemma_tokens_ascii_case(text: Seq<char>)
    requires
        all_ascii(text),
    ensures
        tokens_of(to_ascii_upper(text)) == tokens_of(text),
        tokens_of(to_ascii_lower(text)) == tokens_of(text),
{
    let up = |c: char| ascii_upper(c);
    let lo = |c: char| ascii_lower(c);
    assert forall|c: char| #[trigger] is_white_space(up(c)) == is_white_space(c) by {}
    assert forall|c: char| is_ascii_char(c) implies is_ascii_char(#[trigger] up(c)) && ascii_lower(up(c)) == ascii_lower(c) by {}
    assert forall|c: char| #[trigger] is_white_space(lo(c)) == is_white_space(c) by {}
    assert forall|c: char| is_ascii_char(c) implies is_ascii_char(#[trigger] lo(c)) && ascii_lower(lo(c)) == ascii_lower(c) by {}
    lemma_tokens_char_map(text, up);
    lemma_tokens_char_map(text, lo);
    assert(to_ascii_upper(text) =~= text.map_values(up));
    assert(to_ascii_lower(text) =~= text.map_values(lo));
}


/// Completeness of the tokenizer: a word of two or more ASCII lowercase
/// letters and digits that does not end in `s` and is no stop word is,
/// whatever its length, exactly one token: itself.
pub proof fn lemma_plain_word_is_its_token(w: Seq<char>)
    requires
        w.len() >= 2,
        forall|i: int|
            0 <= i < w.len() ==> (0x61 <= (#[trigger] w[i] as u32) <= 0x7a || 0x30 <= (w[i] as u32)
                <= 0x39),
        w.last() != 's',
        !stop_words().contains(w),
    ensures
        tokens_of(w) == seq![w],
{
    assert forall|j: int| 0 <= j < w.len() implies !is_white_space(#[trigger] w[j]) by {
        assert(0x61 <= (w[j] as u32) <= 0x7a || 0x30 <= (w[j] as u32) <= 0x39);
    }
    lemma_split_whitespace_word(w);
    assert forall|j: int| 0 <= j < w.len() implies is_token_char(#[trigger] w[j]) by {
        assert(0x61 <= (w[j] as u32) <= 0x7a || 0x30 <= (w[j] as u32) <= 0x39);
    }
    lemma_encode_utf8_len(w);
    let ts = seq![w];
    assert(ts[0] == w);
    assert forall|k: int| 0 <= k < ts.len() implies plain_token(#[trigger] ts[k]) && kept(ts[k]) by {
        assert(ts[k] == w);
    }
    lemma_tokens_of_plain(ts);
}

/// ASCII punctuation: a printable ASCII character that is neither a letter,
/// a digit nor a space.
pub open spec fn is_ascii_punct(c: char) -> bool {
    let u = c as u32;
    (0x21 <= u <= 0x2f) || (0x3a <= u <= 0x40) || (0x5b <= u <= 0x60) || (0x7b <= u <= 0x7e)
}

/// A word made of punctuation, a plain word `w`, trailing `s` characters and
/// more punctuation gives exactly the token `w`, whatever its length, when
/// neither `w` nor `w` with its trailing `s` is a stop word.
pub proof fn lemma_word_token(pre: Seq<char>, w: Seq<char>, plural: Seq<char>, post: Seq<char>)
    requires
        w.len() >= 2,
        forall|i: int|
            0 <= i < w.len() ==> (0x61 <= (#[trigger] w[i] as u32) <= 0x7a || 0x30 <= (w[i] as u32)
                <= 0x39),
        w.last() != 's',
        forall|i: int| 0 <= i < pre.len() ==> is_ascii_punct(#[trigger] pre[i]),
        forall|i: int| 0 <= i < post.len() ==> is_ascii_punct(#[trigger] post[i]),
        forall|i: int| 0 <= i < plural.len() ==> #[trigger] plural[i] == 's',
        !stop_words().contains(w),
        !stop_words().contains(w + plural),
    ensures
        tokens_of(pre + w + plural + post) == seq![w],
{
    let x = pre + w + plural + post;
    let core = w + plural;
    assert(x =~= pre + (core + post));
    assert forall|j: int| 0 <= j < x.len() implies !is_white_space(#[trigger] x[j]) && is_ascii_char(x[j])
        && ascii_lower(x[j]) == x[j] by {
        if j < pre.len() {
            assert(x[j] == pre[j]);
            assert(is_ascii_punct(pre[j]));
        } else if j < pre.len() + w.len() {
            assert(x[j] == w[j - pre.len()]);
            assert(0x61 <= (w[j - pre.len()] as u32) <= 0x7a || 0x30 <= (w[j - pre.len()] as u32) <= 0x39);
        } else if j < pre.len() + w.len() + plural.len() {
            assert(x[j] == plural[j - pre.len() - w.len()]);
        } else {
            assert(x[j] == post[j - pre.len() - w.len() - plural.len()]);
            assert(is_ascii_punct(post[j - pre.len() - w.len() - plural.len()]));
        }
    }
    assert(x.len() >= 2);
    lemma_split_whitespace_word(x);
    assert(lowercase(x) =~= x);
    // the non-alphanumeric trims
    assert forall|i: int| 0 <= i < pre.len() implies in_class(#[trigger] pre[i], CharClass::NonAlphanumeric) by {
        assert(is_ascii_punct(pre[i]));
    }
    assert forall|i: int| 0 <= i < post.len() implies in_class(#[trigger] post[i], CharClass::NonAlphanumeric) by {
        assert(is_ascii_punct(post[i]));
    }
    lemma_trim_start_prefix(pre, core + post, CharClass::NonAlphanumeric);
    assert(core[0] == w[0]);
    assert(0x61 <= (w[0] as u32) <= 0x7a || 0x30 <= (w[0] as u32) <= 0x39);
    assert((core + post)[0] == core[0]);
    assert(trim_start_class(core + post, CharClass::NonAlphanumeric) == core + post);
    lemma_trim_end_suffix(core, post, CharClass::NonAlphanumeric);
    if plural.len() > 0 {
        assert(core.last() == plural.last());
        assert(plural[plural.len() - 1] == 's');
    } else {
        assert(core.last() == w.last());
        assert(0x61 <= (w[w.len() - 1] as u32) <= 0x7a || 0x30 <= (w[w.len() - 1] as u32) <= 0x39);
    }
    assert(trim_end_class(core, CharClass::NonAlphanumeric) == core);
    assert(trimmed(x) == core);
    // the plural trim
    assert forall|i: int| 0 <= i < plural.len() implies in_class(#[trigger] plural[i], CharClass::PluralMark) by {
        assert(plural[i] == 's');
    }
    lemma_trim_end_suffix(w, plural, CharClass::PluralMark);
    assert(0x61 <= (w[w.len() - 1] as u32) <= 0x7a || 0x30 <= (w[w.len() - 1] as u32) <= 0x39);
    assert(trim_end_class(w, CharClass::PluralMark) == w);
    assert(normalize(x) == w);
    lemma_encode_utf8_len(w);
    assert(keeps(lowercase(x)));
    assert(seq![x].drop_last() =~= Seq::<Seq<char>>::empty());
    assert(seq![x].last() == x);
    assert(normalize(lowercase(x)) == w);
    assert(tokens_of_words(Seq::<Seq<char>>::empty()) =~= Seq::<Seq<char>>::empty());
    assert(tokens_of_words(seq![x]) == Seq::<Seq<char>>::empty().push(w));
    assert(Seq::<Seq<char>>::empty().push(w) =~= seq![w]);
}

} // verus!
