//! Readable text out of saved HTML pages: the text of the paragraphs and
//! headings, the page title, and the URL recorded in the page's first line.
use vstd::prelude::*;
use vstd::string::StringExecFns;
use crate::text::{
    CharClass, is_white_space, lemma_first_occurrence_is, lemma_occurrence_found, occurs_at,
    trim_end_class, trim_start_class,
    chars_end_with, chars_of, chars_start_with, contains_str, find_from, first_occurrence,
    has_prefix, has_suffix, push_all, push_char, starts_with, string_of_range, trim,
    trim_whitespace,
};
use crate::crawler::{hash_url, tagged_page, url_hash};
use crate::models::NewUrlEntry;

verus! {

// ---------------------------------------------------------------------------
// HTML selection (scraper)
// ---------------------------------------------------------------------------

/// What `scraper` yields for a document and a CSS selector list: `None` when
/// the selector does not parse, else, for each matching element in the order
/// `Html::select` yields them, the text nodes beneath it in order.
pub uninterp spec fn selected_texts(html: Seq<char>, selector: Seq<char>) -> Option<
    Seq<Seq<Seq<char>>>,
>;

/// `scraper::Selector::parse`, `scraper::Html::parse_document`, `Html::select`
/// and `ElementRef::text`. HTML5 parsing and selector matching are not
/// restated: the result is the named function `selected_texts` of the page
/// and the selector. The selector lists of type selectors that the library
/// uses, `p, h1, h2, h3` and `title`, parse.
#[verifier::external_body]
pub(crate) fn select_texts(html: &str, selector: &str) -> (r: Option<Vec<Vec<String>>>)
    ensures
        selector@ == "p, h1, h2, h3"@ || selector@ == "title"@ ==> r is Some,
        match r {
            Some(v) => selected_texts(html@, selector@) == Some(v.deep_view()),
            None => selected_texts(html@, selector@) is None,
        },
{
    let sel = scraper::Selector::parse(selector).ok()?;
    let doc = scraper::Html::parse_document(html);
    Some(doc.select(&sel).map(|e| e.text().map(String::from).collect()).collect())
}

/// What `scraper` yields for a document, a CSS selector list and an
/// attribute name: `None` when the selector does not parse, else, for each
/// matching element in the order `Html::select` yields them, the attribute's
/// value if present.
pub uninterp spec fn selected_attributes(html: Seq<char>, selector: Seq<char>, attr: Seq<char>) -> Option<
    Seq<Option<Seq<char>>>,
>;

/// `scraper::Selector::parse`, `scraper::Html::parse_document`, `Html::select`
/// and `Element::attr`. The result is the named function
/// `selected_attributes` of the page, the selector and the attribute name.
/// The type selector `a` that the library uses parses.
#[verifier::external_body]
pub(crate) fn select_attributes(html: &str, selector: &str, attr: &str) -> (r: Option<
    Vec<Option<String>>,
>)
    ensures
        selector@ == "a"@ ==> r is Some,
        match r {
            Some(v) => selected_attributes(html@, selector@, attr@) == Some(v.deep_view()),
            None => selected_attributes(html@, selector@, attr@) is None,
        },
{
    let sel = scraper::Selector::parse(selector).ok()?;
    let doc = scraper::Html::parse_document(html);
    Some(doc.select(&sel).map(|e| e.value().attr(attr).map(String::from)).collect())
}

// ---------------------------------------------------------------------------
// Page text
// ---------------------------------------------------------------------------

/// The pieces joined with `sep` between consecutive ones.
pub open spec fn join(pieces: Seq<Seq<char>>, sep: Seq<char>) -> Seq<char>
    decreases pieces.len(),
{
    if pieces.len() == 0 {
        seq![]
    } else if pieces.len() == 1 {
        pieces[0]
    } else {
        join(pieces.drop_last(), sep) + sep + pieces.last()
    }
}

/// One line per element: its text nodes joined by spaces, then a newline.
pub open spec fn lines_of(elements: Seq<Seq<Seq<char>>>) -> Seq<char>
    decreases elements.len(),
{
    if elements.len() == 0 {
        seq![]
    } else {
        lines_of(elements.drop_last()) + join(elements.last(), seq![' ']) + seq!['\n']
    }
}

// ---------------------------------------------------------------------------
// Laws of joining and of the text lines
// ---------------------------------------------------------------------------

/// The number of characters of all the pieces together.
pub open spec fn pieces_len(pieces: Seq<Seq<char>>) -> nat
    decreases pieces.len(),
{
    if pieces.len() == 0 {
        0
    } else {
        pieces_len(pieces.drop_last()) + pieces.last().len()
    }
}

/// Where piece `i` starts once the pieces before it and a separator after
/// each of them are laid out.
pub open spec fn join_offset(pieces: Seq<Seq<char>>, sep: Seq<char>, i: int) -> int {
    pieces_len(pieces.take(i)) + i * sep.len()
}

proof fn lemma_pieces_len_step(p: Seq<Seq<char>>, i: int)
    requires
        0 <= i < p.len(),
    ensures
        pieces_len(p.take(i + 1)) == pieces_len(p.take(i)) + p[i].len(),
{
    assert(p.take(i + 1).drop_last() =~= p.take(i));
}

proof fn lemma_join_len(p: Seq<Seq<char>>, sep: Seq<char>)
    requires
        p.len() > 0,
    ensures
        join(p, sep).len() == pieces_len(p) + (p.len() - 1) * sep.len(),
    decreases p.len(),
{
    let n = p.len() as int;
    let l = sep.len() as int;
    if p.len() > 1 {
        let q = p.drop_last();
        lemma_join_len(q, sep);
        let m = q.len() as int;
        assert((m - 1) * l + l == (n - 1) * l) by (nonlinear_arith)
            requires
                m == n - 1,
        ;
        assert(join(p, sep) == join(q, sep) + sep + p.last());
        assert(pieces_len(p) == pieces_len(q) + p.last().len());
        assert(join(q, sep).len() == pieces_len(q) + (m - 1) * l);
        assert(join(p, sep).len() == pieces_len(p) + (n - 1) * l);
    } else {
        assert(p.drop_last().len() == 0);
        assert(pieces_len(p.drop_last()) == 0);
        assert(pieces_len(p) == p[0].len());
        assert(join(p, sep).len() == pieces_len(p) + (n - 1) * l);
        assert((n - 1) * l == 0) by (nonlinear_arith)
            requires
                n == 1,
        ;
    }
}

proof fn lemma_join_prefix(p: Seq<Seq<char>>, sep: Seq<char>, k: int)
    requires
        1 <= k <= p.len(),
    ensures
        join(p.take(k), sep).len() <= join(p, sep).len(),
        join(p, sep).take(join(p.take(k), sep).len() as int) == join(p.take(k), sep),
    decreases p.len(),
{
    if k == p.len() {
        assert(p.take(k) =~= p);
        assert(join(p, sep).take(join(p, sep).len() as int) =~= join(p, sep));
    } else {
        let q = p.drop_last();
        assert(q.take(k) =~= p.take(k));
        lemma_join_prefix(q, sep, k);
        let l = join(p.take(k), sep).len() as int;
        assert(join(p, sep).take(l) =~= join(q, sep).take(l));
    }
}

proof fn lemma_join_piece(p: Seq<Seq<char>>, sep: Seq<char>, i: int)
    requires
        0 <= i < p.len(),
    ensures
        join(p, sep).subrange(join_offset(p, sep, i), join_offset(p, sep, i) + p[i].len()) == p[i],
{
    let l = sep.len() as int;
    lemma_join_prefix(p, sep, i + 1);
    let t = p.take(i + 1);
    let o = join_offset(p, sep, i);
    if i == 0 {
        assert(p.take(0) =~= Seq::<Seq<char>>::empty());
        assert(0 * l == 0) by (nonlinear_arith);
        assert(o == 0);
        assert(t.len() == 1);
        assert(join(t, sep) == t[0]);
        assert(join(p, sep).subrange(o, o + p[i].len()) =~= join(t, sep).subrange(o, o + p[i].len()));
        assert(join(t, sep).subrange(0, p[0].len() as int) =~= p[0]);
    } else {
        assert(t.drop_last() =~= p.take(i));
        assert(t.last() == p[i]);
        lemma_join_len(p.take(i), sep);
        assert((i - 1) * l + l == i * l) by (nonlinear_arith);
        let x = join(p.take(i), sep);
        assert(join(t, sep) == x + sep + p[i]);
        assert(x.len() + l == o);
        assert(join(p, sep).subrange(o, o + p[i].len()) =~= join(t, sep).subrange(o, o + p[i].len()));
        assert((x + sep + p[i]).subrange(o, o + p[i].len()) =~= p[i]);
    }
}

proof fn lemma_join_sep(p: Seq<Seq<char>>, sep: Seq<char>, i: int)
    requires
        0 <= i < p.len() - 1,
    ensures
        join(p, sep).subrange(join_offset(p, sep, i) + p[i].len(), join_offset(p, sep, i + 1)) == sep,
{
    let l = sep.len() as int;
    lemma_join_prefix(p, sep, i + 2);
    let t = p.take(i + 2);
    let o = join_offset(p, sep, i) + p[i].len();
    assert(t.drop_last() =~= p.take(i + 1));
    assert(t.last() == p[i + 1]);
    lemma_join_len(p.take(i + 1), sep);
    lemma_pieces_len_step(p, i);
    assert(i * l + l == (i + 1) * l) by (nonlinear_arith);
    let x = join(p.take(i + 1), sep);
    assert(x.len() == o);
    assert(join_offset(p, sep, i + 1) == o + l);
    assert(join(t, sep) == x + sep + p[i + 1]);
    assert(join(p, sep).subrange(o, o + l) =~= join(t, sep).subrange(o, o + l));
    assert((x + sep + p[i + 1]).subrange(o, o + l) =~= sep);
}

/// Joining keeps every piece whole: the result has all the pieces'
/// characters and one separator between consecutive pieces; piece `i`
/// stands at `join_offset(pieces, sep, i)`, followed by the separator unless
/// it is the last.
pub proof fn lemma_join_layout(p: Seq<Seq<char>>, sep: Seq<char>)
    requires
        p.len() > 0,
    ensures
        join(p, sep).len() == pieces_len(p) + (p.len() - 1) * sep.len(),
        forall|i: int|
            0 <= i < p.len() ==> join(p, sep).subrange(
                join_offset(p, sep, i),
                join_offset(p, sep, i) + p[i].len(),
            ) == #[trigger] p[i],
        forall|i: int|
            0 <= i < p.len() - 1 ==> join(p, sep).subrange(
                #[trigger] join_offset(p, sep, i) + p[i].len(),
                join_offset(p, sep, i + 1),
            ) == sep,
{
    lemma_join_len(p, sep);
    assert forall|i: int| 0 <= i < p.len() implies join(p, sep).subrange(
        join_offset(p, sep, i),
        join_offset(p, sep, i) + p[i].len(),
    ) == #[trigger] p[i] by {
        lemma_join_piece(p, sep, i);
    }
    assert forall|i: int| 0 <= i < p.len() - 1 implies join(p, sep).subrange(
        #[trigger] join_offset(p, sep, i) + p[i].len(),
        join_offset(p, sep, i + 1),
    ) == sep by {
        lemma_join_sep(p, sep, i);
    }
}

/// The width of an element's line: its text nodes and a space between
/// consecutive ones.
pub open spec fn line_width(element: Seq<Seq<char>>) -> nat {
    if element.len() == 0 {
        0
    } else {
        (pieces_len(element) + element.len() - 1) as nat
    }
}

/// The number of characters of the lines of a list of elements: each line
/// and its newline.
pub open spec fn lines_len(elements: Seq<Seq<Seq<char>>>) -> nat
    decreases elements.len(),
{
    if elements.len() == 0 {
        0
    } else {
        lines_len(elements.drop_last()) + line_width(elements.last()) + 1
    }
}

proof fn lemma_join_space_len(e: Seq<Seq<char>>)
    ensures
        join(e, seq![' ']).len() == line_width(e),
{
    if e.len() > 0 {
        lemma_join_len(e, seq![' ']);
        let n = e.len() as int;
        assert((n - 1) * 1 == n - 1) by (nonlinear_arith);
    }
}

proof fn lemma_lines_len(els: Seq<Seq<Seq<char>>>)
    ensures
        lines_of(els).len() == lines_len(els),
    decreases els.len(),
{
    if els.len() > 0 {
        lemma_lines_len(els.drop_last());
        lemma_join_space_len(els.last());
    }
}

proof fn lemma_lines_prefix(els: Seq<Seq<Seq<char>>>, k: int)
    requires
        0 <= k <= els.len(),
    ensures
        lines_of(els.take(k)).len() <= lines_of(els).len(),
        lines_of(els).take(lines_of(els.take(k)).len() as int) == lines_of(els.take(k)),
    decreases els.len(),
{
    if k == els.len() {
        assert(els.take(k) =~= els);
        assert(lines_of(els).take(lines_of(els).len() as int) =~= lines_of(els));
    } else {
        let q = els.drop_last();
        assert(q.take(k) =~= els.take(k));
        lemma_lines_prefix(q, k);
        let l = lines_of(els.take(k)).len() as int;
        assert(lines_of(els).take(l) =~= lines_of(q).take(l));
    }
}

/// Each selected element contributes its whole text: the extracted lines
/// have, element by element, all its text nodes joined by spaces and then a
/// newline, so no text node is cut and the length is the sum of the lines'
/// widths plus one newline each.
pub proof fn lemma_lines_layout(els: Seq<Seq<Seq<char>>>)
    ensures
        lines_of(els).len() == lines_len(els),
        forall|k: int|
            0 <= k < els.len() ==> lines_of(els).subrange(
                lines_len(els.take(k)) as int,
                lines_len(els.take(k)) as int + line_width(els[k]),
            ) == join(#[trigger] els[k], seq![' ']),
        forall|k: int|
            0 <= k < els.len() ==> lines_of(els)[lines_len(els.take(k)) as int + line_width(#[trigger] els[k])]
                == '\n',
{
    lemma_lines_len(els);
    assert forall|k: int| 0 <= k < els.len() implies lines_of(els).subrange(
        lines_len(els.take(k)) as int,
        lines_len(els.take(k)) as int + line_width(els[k]),
    ) == join(#[trigger] els[k], seq![' ']) && lines_of(els)[lines_len(els.take(k)) as int + line_width(els[k])]
        == '\n' by {
        lemma_lines_prefix(els, k + 1);
        let t = els.take(k + 1);
        assert(t.drop_last() =~= els.take(k));
        assert(t.last() == els[k]);
        lemma_lines_len(els.take(k));
        lemma_lines_len(t);
        lemma_join_space_len(els[k]);
        let x = lines_of(els.take(k));
        let j = join(els[k], seq![' ']);
        let o = x.len() as int;
        assert(lines_of(t) == x + j + seq!['\n']);
        assert(lines_of(els).subrange(o, o + j.len()) =~= lines_of(t).subrange(o, o + j.len()));
        assert((x + j + seq!['\n']).subrange(o, o + j.len()) =~= j);
        assert(lines_of(els)[o + j.len()] == lines_of(t)[o + j.len()]);
    }
}

/// The CSS selector of the elements whose text makes up a page's content.
pub open spec fn content_selector() -> Seq<char> {
    "p, h1, h2, h3"@
}

/// `pieces` joined with `sep`.
pub fn join_strings(pieces: &Vec<String>, sep: &str) -> (r: String)
    ensures
        r@ == join(pieces.deep_view(), sep@),
{
    let mut out = String::new();
    let mut i: usize = 0;
    while i < pieces.len()
        invariant
            i <= pieces.len(),
            out@ == join(pieces.deep_view().take(i as int), sep@),
        decreases pieces.len() - i,
    {
        let ghost before = out@;
        if i > 0 {
            push_all(&mut out, sep);
        }
        push_all(&mut out, pieces[i].as_str());
        proof {
            let p = pieces.deep_view();
            assert(p.take(i + 1).drop_last() =~= p.take(i as int));
            assert(p.take(i + 1).last() == pieces@[i as int]@);
            if i == 0 {
                assert(p.take(1).len() == 1);
            }
        }
        i += 1;
    }
    assert(pieces.deep_view().take(pieces.len() as int) =~= pieces.deep_view());
    out
}

/// The text lines of a list of elements.
pub fn lines_from_elements(elements: &Vec<Vec<String>>) -> (r: String)
    ensures
        r@ == lines_of(elements.deep_view()),
{
    let mut out = String::new();
    let mut i: usize = 0;
    while i < elements.len()
        invariant
            i <= elements.len(),
            out@ == lines_of(elements.deep_view().take(i as int)),
        decreases elements.len() - i,
    {
        let line = join_strings(&elements[i], " ");
        push_all(&mut out, line.as_str());
        push_char(&mut out, '\n');
        proof {
            reveal_strlit(" ");
            let e = elements.deep_view();
            assert(e.take(i + 1).drop_last() =~= e.take(i as int));
            assert(e.take(i + 1).last() == elements@[i as int].deep_view());
            assert(" "@ =~= seq![' ']);
        }
        i += 1;
    }
    assert(elements.deep_view().take(elements.len() as int) =~= elements.deep_view());
    out
}

/// The text of a page's paragraphs and headings (`p`, `h1`, `h2`, `h3`),
/// one line each.
pub fn extract_text(html: &str) -> (r: String)
    ensures
        match selected_texts(html@, content_selector()) {
            Some(els) => r@ == lines_of(els),
            None => false,
        },
{
    let elements = select_texts(html, "p, h1, h2, h3").unwrap();
    let t = lines_from_elements(&elements);
    assert(selected_texts(html@, content_selector()) == Some(elements.deep_view()));
    t
}

/// The page text with surrounding whitespace trimmed.
pub fn extract_clean_text(html: &str) -> (r: String)
    ensures
        match selected_texts(html@, content_selector()) {
            Some(els) => r@ == trim_whitespace(lines_of(els)),
            None => false,
        },
{
    let t = extract_text(html);
    trim(t.as_str())
}

/// The page title: the text of the first `title` element, its pieces joined
/// by spaces and trimmed; `None` when there is none.
pub fn extract_title(html: &str) -> (r: Option<String>)
    ensures
        selected_texts(html@, "title"@) is Some,
        match selected_texts(html@, "title"@) {
            Some(els) => if els.len() > 0 {
                r is Some && r->0@ == trim_whitespace(join(els[0], seq![' ']))
            } else {
                r is None
            },
            None => r is None,
        },
{
    match select_texts(html, "title") {
        Some(elements) => {
            if elements.len() > 0 {
                let joined = join_strings(&elements[0], " ");
                proof {
                    reveal_strlit(" ");
                    assert(" "@ =~= seq![' ']);
                    assert(elements.deep_view()[0] == elements@[0].deep_view());
                }
                Some(trim(joined.as_str()))
            } else {
                None
            }
        },
        None => None,
    }
}

// ---------------------------------------------------------------------------
// The URL recorded in a saved page
// ---------------------------------------------------------------------------

/// The first line of a text (`str::lines().next()`): up to the first `\n`,
/// without a `\r` just before it; the whole text when it has no `\n`; none
/// for the empty text.
pub open spec fn first_line(s: Seq<char>) -> Option<Seq<char>> {
    if s.len() == 0 {
        None
    } else {
        match first_occurrence(s, seq!['\n']) {
            Some(k) => {
                let line = s.take(k);
                if line.len() > 0 && line.last() == '\r' {
                    Some(line.drop_last())
                } else {
                    Some(line)
                }
            },
            None => Some(s),
        }
    }
}

/// `s` with every leading copy of `p` removed (`str::trim_start_matches`).
pub open spec fn strip_leading_copies(s: Seq<char>, p: Seq<char>) -> Seq<char>
    decreases s.len(),
{
    if p.len() > 0 && has_prefix(s, p) {
        strip_leading_copies(s.skip(p.len() as int), p)
    } else {
        s
    }
}

/// `s` with every trailing copy of `p` removed (`str::trim_end_matches`).
pub open spec fn strip_trailing_copies(s: Seq<char>, p: Seq<char>) -> Seq<char>
    decreases s.len(),
{
    if p.len() > 0 && has_suffix(s, p) {
        strip_trailing_copies(s.take(s.len() - p.len()), p)
    } else {
        s
    }
}

/// The URL used when a page records none.
pub open spec fn fallback_url() -> Seq<char> {
    "https://ishanleung.com"@
}

/// The URL a saved page records in its first line
/// (`<!-- URL: ... -->`), or the fallback URL.
pub open spec fn recorded_url(html: Seq<char>) -> Seq<char> {
    match first_line(html) {
        Some(line) => if has_prefix(line, "<!--"@) && first_occurrence(line, "URL:"@) is Some {
            trim_whitespace(strip_trailing_copies(strip_leading_copies(line, "<!-- URL:"@), "-->"@))
        } else {
            fallback_url()
        },
        None => fallback_url(),
    }
}

/// The first line of `cs`, if any.
fn first_line_of(cs: &Vec<char>) -> (r: Option<String>)
    ensures
        match r {
            Some(l) => first_line(cs@) == Some(l@),
            None => first_line(cs@) is None,
        },
{
    if cs.len() == 0 {
        return None;
    }
    let mut nl: Vec<char> = Vec::new();
    nl.push('\n');
    assert(nl@ =~= seq!['\n']);
    match find_from(cs, &nl, 0) {
        Some(k) => {
            if k > 0 && cs[k - 1] == '\r' {
                let r = string_of_range(cs, 0, k - 1);
                assert(r@ =~= cs@.take(k as int).drop_last());
                Some(r)
            } else {
                let r = string_of_range(cs, 0, k);
                assert(r@ =~= cs@.take(k as int));
                Some(r)
            }
        },
        None => {
            let r = string_of_range(cs, 0, cs.len());
            assert(r@ =~= cs@);
            Some(r)
        },
    }
}

/// `str::trim_start_matches` with a string pattern.
pub fn trim_start_copies(s: &str, p: &str) -> (r: String)
    ensures
        r@ == strip_leading_copies(s@, p@),
{
    let cs = chars_of(s);
    let ps = chars_of(p);
    if ps.len() == 0 {
        return string_of_range(&cs, 0, cs.len());
    }
    let mut lo: usize = 0;
    assert(cs@.skip(0) =~= cs@);
    while lo <= cs.len() && chars_start_with(&cs, lo, &ps)
        invariant
            lo <= cs.len(),
            ps@ == p@,
            cs@ == s@,
            ps.len() > 0,
            strip_leading_copies(s@, p@) == strip_leading_copies(cs@.skip(lo as int), p@),
        decreases cs.len() - lo,
    {
        assert(cs@.skip(lo as int).skip(ps@.len() as int) =~= cs@.skip(lo + ps@.len()));
        lo = lo + ps.len();
    }
    let r = string_of_range(&cs, lo, cs.len());
    assert(r@ =~= cs@.skip(lo as int));
    r
}

/// `str::trim_end_matches` with a string pattern.
pub fn trim_end_copies(s: &str, p: &str) -> (r: String)
    ensures
        r@ == strip_trailing_copies(s@, p@),
{
    let cs = chars_of(s);
    let ps = chars_of(p);
    if ps.len() == 0 {
        return string_of_range(&cs, 0, cs.len());
    }
    let mut hi: usize = cs.len();
    assert(cs@.take(hi as int) =~= cs@);
    while chars_end_with(&cs, hi, &ps)
        invariant
            hi <= cs.len(),
            ps@ == p@,
            cs@ == s@,
            ps.len() > 0,
            strip_trailing_copies(s@, p@) == strip_trailing_copies(cs@.take(hi as int), p@),
        decreases hi,
    {
        assert(cs@.take(hi as int).take(hi - ps@.len()) =~= cs@.take(hi - ps@.len()));
        hi = hi - ps.len();
    }
    let r = string_of_range(&cs, 0, hi);
    assert(r@ =~= cs@.take(hi as int));
    r
}

/// The URL a saved page records in its first line, or the fallback URL.
pub fn url_from_tagged_html(html: &str) -> (r: String)
    ensures
        r@ == recorded_url(html@),
{
    let cs = chars_of(html);
    match first_line_of(&cs) {
        Some(line) => {
            if starts_with(line.as_str(), "<!--") && contains_str(line.as_str(), "URL:") {
                let a = trim_start_copies(line.as_str(), "<!-- URL:");
                let b = trim_end_copies(a.as_str(), "-->");
                trim(b.as_str())
            } else {
                String::from_str("https://ishanleung.com")
            }
        },
        None => String::from_str("https://ishanleung.com"),
    }
}

/// The name of a page's cleaned-text file: the SHA-1 hash of its URL, `.txt`.
pub fn cleaned_file_name(url: &str) -> (r: String)
    ensures
        r@ == url_hash(url@) + ".txt"@,
{
    let mut name = hash_url(url);
    push_all(&mut name, ".txt");
    name
}

/// The record for a saved page whose cleaned text is `clean_text`, or `None`
/// when that text is blank.
pub fn entry_for_page(html: &str, clean_text: String) -> (r: Option<NewUrlEntry>)
    ensures
        match r {
            Some(e) => {
                &&& trim_whitespace(clean_text@).len() > 0
                &&& e.url@ == recorded_url(html@)
                &&& e.filename@ == url_hash(recorded_url(html@)) + ".txt"@
                &&& e.clean_text == Some(clean_text)
                &&& match selected_texts(html@, "title"@) {
                    Some(els) => if els.len() > 0 {
                        e.title is Some && e.title->0@ == trim_whitespace(join(els[0], seq![' ']))
                    } else {
                        e.title is None
                    },
                    None => e.title is None,
                }
            },
            None => trim_whitespace(clean_text@).len() == 0,
        },
{
    let trimmed = trim(clean_text.as_str());
    if trimmed.as_str().is_empty() {
        return None;
    }
    let title = extract_title(html);
    let url = url_from_tagged_html(html);
    let filename = cleaned_file_name(url.as_str());
    Some(NewUrlEntry { filename, url, title, clean_text: Some(clean_text) })
}

/// A saved page gives back the URL it was saved from: the crawler writes
/// `<!-- URL: {url} -->` as the first line, and this first line yields the
/// URL again, whenever the URL has no line break and no whitespace at its
/// ends.
pub proof fn lemma_recorded_url_roundtrip(url: Seq<char>, body: Seq<char>)
    requires
        !url.contains('\n'),
        url.len() > 0 ==> !is_white_space(url[0]) && !is_white_space(url.last()),
    ensures
        recorded_url(tagged_page(url, body)) == url,
{
    reveal_strlit("<!-- URL: ");
    reveal_strlit(" -->\n");
    reveal_strlit("<!-- URL:");
    reveal_strlit("-->");
    reveal_strlit("URL:");
    reveal_strlit("<!--");
    reveal_strlit(" -->");
    let head = "<!-- URL: "@;
    let line = head + url + " -->"@;
    let page = tagged_page(url, body);
    assert(" -->\n"@ =~= " -->"@ + seq!['\n']);
    assert(page =~= line + seq!['\n'] + body);
    let k = line.len() as int;
    // The first line ends at the newline after the comment.
    assert(occurs_at(page, seq!['\n'], k)) by {
        assert(page.subrange(k, k + 1) =~= seq!['\n']);
    }
    assert forall|j: int| 0 <= j < k implies !occurs_at(page, seq!['\n'], j) by {
        if occurs_at(page, seq!['\n'], j) {
            assert(page.subrange(j, j + 1)[0] == '\n');
            assert(page[j] == '\n');
            if j < head.len() {
                assert(page[j] == head[j]);
            } else if j < head.len() + url.len() {
                assert(page[j] == url[j - head.len()]);
            } else {
                assert(page[j] == " -->"@[j - head.len() - url.len()]);
            }
        }
    }
    lemma_first_occurrence_is(page, seq!['\n'], 0, k);
    assert(page.take(k) =~= line);
    assert(first_line(page) == Some(line));
    // It is a comment that mentions the URL.
    assert(has_prefix(line, "<!--"@)) by {
        assert(line.take(4) =~= "<!--"@);
    }
    assert(occurs_at(line, "URL:"@, 5)) by {
        assert(line.subrange(5, 9) =~= "URL:"@);
    }
    lemma_occurrence_found(line, "URL:"@, 0, 5);
    // The comment markers come off.
    let inner = seq![' '] + url + seq![' '];
    let after_head = seq![' '] + url + " -->"@;
    assert(line.take(9) =~= "<!-- URL:"@);
    assert(line.skip(9) =~= after_head);
    assert(!has_prefix(after_head, "<!-- URL:"@)) by {
        if has_prefix(after_head, "<!-- URL:"@) {
            assert(after_head.take(9)[0] == after_head[0]);
            assert(after_head[0] == ' ');
        }
    }
    assert(strip_leading_copies(after_head, "<!-- URL:"@) == after_head);
    assert(has_prefix(line, "<!-- URL:"@));
    assert(strip_leading_copies(line, "<!-- URL:"@) == after_head);
    assert(after_head.skip(after_head.len() - 3) =~= "-->"@);
    assert(after_head.take(after_head.len() - 3) =~= inner);
    assert(!has_suffix(inner, "-->"@)) by {
        if has_suffix(inner, "-->"@) {
            assert(inner.skip(inner.len() - 3)[2] == inner[inner.len() - 1]);
            assert(inner[inner.len() - 1] == ' ');
        }
    }
    assert(strip_trailing_copies(inner, "-->"@) == inner);
    assert(has_suffix(after_head, "-->"@));
    assert(strip_trailing_copies(after_head, "-->"@) == inner);
    // And the spaces around the URL.
    assert(inner.drop_first() =~= url + seq![' ']);
    assert(trim_start_class(inner, CharClass::Whitespace) == trim_start_class(url + seq![' '], CharClass::Whitespace));
    if url.len() > 0 {
        assert((url + seq![' '])[0] == url[0]);
        assert(trim_start_class(url + seq![' '], CharClass::Whitespace) == url + seq![' ']);
    } else {
        assert(url + seq![' '] =~= seq![' ']);
        assert(seq![' '].drop_first() =~= Seq::<char>::empty());
        assert(is_white_space(' '));
        assert(trim_start_class(Seq::<char>::empty(), CharClass::Whitespace) == Seq::<char>::empty());
        assert(trim_start_class(seq![' '], CharClass::Whitespace) == trim_start_class(Seq::<char>::empty(), CharClass::Whitespace));
        assert(trim_start_class(url + seq![' '], CharClass::Whitespace) =~= Seq::<char>::empty());
    }
    assert((url + seq![' ']).drop_last() =~= url);
    if url.len() > 0 {
        assert(trim_end_class(url, CharClass::Whitespace) == url);
    }
    assert(trim_whitespace(inner) == url);
}

} // verus!
