//! Character-level text primitives shared by the tokenizer, the crawler and
//! the result viewer: whitespace splitting, trimming, prefix tests, substring
//! search and counting, all stated over `Seq<char>`.
use vstd::prelude::*;
use vstd::utf8::encode_utf8;
use vstd::utf8::encode_scalar;
use vstd::utf8::char_is_scalar;

verus! {

// ---------------------------------------------------------------------------
// Character properties
// ---------------------------------------------------------------------------

/// The Unicode `White_Space` property, listed code point by code point.
pub open spec fn is_white_space(c: char) -> bool {
    let u = c as u32;
    ||| 0x09 <= u <= 0x0d
    ||| u == 0x20
    ||| u == 0x85
    ||| u == 0xa0
    ||| u == 0x1680
    ||| 0x2000 <= u <= 0x200a
    ||| u == 0x2028
    ||| u == 0x2029
    ||| u == 0x202f
    ||| u == 0x205f
    ||| u == 0x3000
}

/// `char::is_whitespace`: the Unicode `White_Space` property.
pub fn char_is_whitespace(c: char) -> (r: bool)
    ensures
        r == is_white_space(c),
{
    let u = c as u32;
    (0x09 <= u && u <= 0x0d) || u == 0x20 || u == 0x85 || u == 0xa0 || u == 0x1680 || (0x2000 <= u
        && u <= 0x200a) || u == 0x2028 || u == 0x2029 || u == 0x202f || u == 0x205f || u == 0x3000
}

/// An ASCII character.
pub open spec fn is_ascii_char(c: char) -> bool {
    (c as u32) < 0x80
}

/// All characters of `s` are ASCII.
pub open spec fn all_ascii(s: Seq<char>) -> bool {
    forall|i: int| 0 <= i < s.len() ==> is_ascii_char(#[trigger] s[i])
}

/// An ASCII letter or digit.
pub open spec fn is_ascii_alnum(c: char) -> bool {
    let u = c as u32;
    ||| 0x30 <= u <= 0x39
    ||| 0x41 <= u <= 0x5a
    ||| 0x61 <= u <= 0x7a
}

/// `char::to_ascii_lowercase`: `A`–`Z` become `a`–`z`, the rest stays.
pub open spec fn ascii_lower(c: char) -> char {
    if 0x41 <= (c as u32) <= 0x5a {
        ((c as u32) + 0x20) as char
    } else {
        c
    }
}

/// `char::to_ascii_uppercase`: `a`–`z` become `A`–`Z`, the rest stays.
pub open spec fn ascii_upper(c: char) -> char {
    if 0x61 <= (c as u32) <= 0x7a {
        ((c as u32) - 0x20) as char
    } else {
        c
    }
}

/// What `char::is_alphanumeric` gives for a character outside ASCII (the
/// Unicode `Alphabetic` property or a numeric general category).
pub uninterp spec fn unicode_alphanumeric(c: char) -> bool;

/// Whether `char::is_alphanumeric` holds of a character: on ASCII, exactly
/// the letters and digits; elsewhere the named Unicode property.
pub open spec fn alphanumeric(c: char) -> bool {
    if is_ascii_char(c) {
        is_ascii_alnum(c)
    } else {
        unicode_alphanumeric(c)
    }
}

/// `char::is_alphanumeric`, the Unicode `Alphabetic` property or a numeric
/// general category. Among ASCII characters these are the letters and the
/// digits; beyond ASCII the Unicode tables are not restated, and the result
/// is the named predicate `unicode_alphanumeric` of the character.
#[verifier::external_body]
pub(crate) fn char_is_alphanumeric(c: char) -> (r: bool)
    ensures
        is_ascii_char(c) ==> r == is_ascii_alnum(c),
        !is_ascii_char(c) ==> r == unicode_alphanumeric(c),
{
    c.is_alphanumeric()
}

/// What `str::to_lowercase` gives for a string that is not all ASCII
/// (Unicode lowercase mapping, including its context-dependent final-sigma
/// rule).
pub uninterp spec fn unicode_lowercase(s: Seq<char>) -> Seq<char>;

/// What `str::to_lowercase` gives: on an ASCII string, each of `A`–`Z`
/// mapped to `a`–`z`; otherwise the named Unicode mapping.
pub open spec fn lowercase(s: Seq<char>) -> Seq<char> {
    if all_ascii(s) {
        s.map_values(|c: char| ascii_lower(c))
    } else {
        unicode_lowercase(s)
    }
}

/// `str::to_lowercase`, the Unicode lowercase mapping. On an ASCII string it
/// changes only `A`–`Z`, each to its `a`–`z`, character by character. For
/// other strings the Unicode tables are not restated: the result is the
/// named function `unicode_lowercase` of the characters.
#[verifier::external_body]
pub(crate) fn str_to_lowercase(s: &str) -> (r: String)
    ensures
        all_ascii(s@) ==> r@ == s@.map_values(|c: char| ascii_lower(c)),
        !all_ascii(s@) ==> r@ == unicode_lowercase(s@),
{
    s.to_lowercase()
}

/// `String::push`: appends one character.
#[verifier::external_body]
pub(crate) fn push_char(s: &mut String, c: char)
    ensures
        final(s)@ == old(s)@.push(c),
{
    s.push(c);
}

/// The classes of characters that the library trims from the ends of words.
#[derive(Clone, Copy, PartialEq, Eq, Debug)]
pub enum CharClass {
    /// Characters for which `char::is_alphanumeric` is false.
    NonAlphanumeric,
    /// Characters with the Unicode `White_Space` property.
    Whitespace,
    /// The plural and possessive marks `s` and `'`.
    PluralMark,
}

/// Whether `c` is of class `k`.
pub open spec fn in_class(c: char, k: CharClass) -> bool {
    match k {
        CharClass::NonAlphanumeric => !alphanumeric(c),
        CharClass::Whitespace => is_white_space(c),
        CharClass::PluralMark => c == 's' || c == '\'',
    }
}

/// Whether `c` is of class `k`.
pub fn char_in_class(c: char, k: CharClass) -> (r: bool)
    ensures
        r == in_class(c, k),
{
    match k {
        CharClass::NonAlphanumeric => !char_is_alphanumeric(c),
        CharClass::Whitespace => char_is_whitespace(c),
        CharClass::PluralMark => c == 's' || c == '\'',
    }
}

// ---------------------------------------------------------------------------
// Trimming
// ---------------------------------------------------------------------------

/// `s` without its longest prefix of characters of class `k`.
pub open spec fn trim_start_class(s: Seq<char>, k: CharClass) -> Seq<char>
    decreases s.len(),
{
    if s.len() > 0 && in_class(s[0], k) {
        trim_start_class(s.drop_first(), k)
    } else {
        s
    }
}

/// `s` without its longest suffix of characters of class `k`.
pub open spec fn trim_end_class(s: Seq<char>, k: CharClass) -> Seq<char>
    decreases s.len(),
{
    if s.len() > 0 && in_class(s.last(), k) {
        trim_end_class(s.drop_last(), k)
    } else {
        s
    }
}

/// `str::trim`: both ends stripped of whitespace.
pub open spec fn trim_whitespace(s: Seq<char>) -> Seq<char> {
    trim_end_class(trim_start_class(s, CharClass::Whitespace), CharClass::Whitespace)
}

/// The index of the first character at or after `lo` that is not of class
/// `k`, or `hi` when there is none before `hi`.
pub fn skip_leading(s: &Vec<char>, lo: usize, hi: usize, k: CharClass) -> (i: usize)
    requires
        lo <= hi <= s.len(),
    ensures
        lo <= i <= hi,
        trim_start_class(s@.subrange(lo as int, hi as int), k) == s@.subrange(i as int, hi as int),
{
    let mut i = lo;
    while i < hi && char_in_class(s[i], k)
        invariant
            lo <= i <= hi <= s.len(),
            trim_start_class(s@.subrange(lo as int, hi as int), k) == trim_start_class(
                s@.subrange(i as int, hi as int),
                k,
            ),
        decreases hi - i,
    {
        assert(s@.subrange(i as int, hi as int).drop_first() =~= s@.subrange(
            i + 1,
            hi as int,
        ));
        i += 1;
    }
    i
}

/// The end of `s[lo..hi]` once its trailing characters of class `k` are cut.
pub fn skip_trailing(s: &Vec<char>, lo: usize, hi: usize, k: CharClass) -> (j: usize)
    requires
        lo <= hi <= s.len(),
    ensures
        lo <= j <= hi,
        trim_end_class(s@.subrange(lo as int, hi as int), k) == s@.subrange(lo as int, j as int),
{
    let mut j = hi;
    while j > lo && char_in_class(s[j - 1], k)
        invariant
            lo <= j <= hi <= s.len(),
            trim_end_class(s@.subrange(lo as int, hi as int), k) == trim_end_class(
                s@.subrange(lo as int, j as int),
                k,
            ),
        decreases j - lo,
    {
        assert(s@.subrange(lo as int, j as int).drop_last() =~= s@.subrange(
            lo as int,
            j - 1,
        ));
        j -= 1;
    }
    j
}

// ---------------------------------------------------------------------------
// Conversions between strings and character vectors
// ---------------------------------------------------------------------------

/// The characters of a string, in order.
pub fn chars_of(text: &str) -> (r: Vec<char>)
    ensures
        r@ == text@,
{
    let mut out: Vec<char> = Vec::new();
    for c in it: text.chars()
        invariant
            out@ == it.seq().take(it.index() as int),
            it.seq() == text@,
    {
        out.push(c);
    }
    out
}

/// The string made of `s[lo..hi]`.
pub fn string_of_range(s: &Vec<char>, lo: usize, hi: usize) -> (r: String)
    requires
        lo <= hi <= s.len(),
    ensures
        r@ == s@.subrange(lo as int, hi as int),
{
    let mut out = String::new();
    let mut i = lo;
    while i < hi
        invariant
            lo <= i <= hi <= s.len(),
            out@ == s@.subrange(lo as int, i as int),
        decreases hi - i,
    {
        push_char(&mut out, s[i]);
        assert(out@ =~= s@.subrange(lo as int, i + 1));
        i += 1;
    }
    out
}

/// `str::trim`.
pub fn trim(s: &str) -> (r: String)
    ensures
        r@ == trim_whitespace(s@),
{
    let cs = chars_of(s);
    let lo = skip_leading(&cs, 0, cs.len(), CharClass::Whitespace);
    let hi = skip_trailing(&cs, lo, cs.len(), CharClass::Whitespace);
    assert(cs@.subrange(0, cs@.len() as int) =~= cs@);
    string_of_range(&cs, lo, hi)
}

/// Appends a whole string.
pub fn push_all(out: &mut String, s: &str)
    ensures
        final(out)@ == old(out)@ + s@,
{
    for c in it: s.chars()
        invariant
            out@ == old(out)@ + it.seq().take(it.index() as int),
            it.seq() == s@,
    {
        push_char(out, c);
        assert(old(out)@ + it.seq().take(it.index() + 1) =~= old(out)@ + it.seq().take(
            it.index() as int,
        ).push(c));
    }
}

// ---------------------------------------------------------------------------
// Whitespace splitting (`str::split_whitespace`)
// ---------------------------------------------------------------------------

/// Scanning `s` from the left: the words completed so far and the word in
/// progress.
pub open spec fn split_state(s: Seq<char>) -> (Seq<Seq<char>>, Seq<char>)
    decreases s.len(),
{
    if s.len() == 0 {
        (seq![], seq![])
    } else {
        let (done, cur) = split_state(s.drop_last());
        let c = s.last();
        if is_white_space(c) {
            if cur.len() > 0 {
                (done.push(cur), seq![])
            } else {
                (done, cur)
            }
        } else {
            (done, cur.push(c))
        }
    }
}

/// The maximal runs of non-whitespace characters of `s`, in order.
pub open spec fn split_whitespace(s: Seq<char>) -> Seq<Seq<char>> {
    let (done, cur) = split_state(s);
    if cur.len() > 0 {
        done.push(cur)
    } else {
        done
    }
}

/// Scanning `s` after a prefix `p` that ended between words continues the
/// words of `p` with those of `s`.
proof fn lemma_split_state_after_break(p: Seq<char>, s: Seq<char>)
    requires
        split_state(p).1.len() == 0,
    ensures
        split_state(p + s) == (split_state(p).0 + split_state(s).0, split_state(s).1),
    decreases s.len(),
{
    if s.len() == 0 {
        assert(p + s =~= p);
        assert(split_state(p).0 + split_state(s).0 =~= split_state(p).0);
    } else {
        let s2 = s.drop_last();
        assert((p + s).drop_last() =~= p + s2);
        assert((p + s).last() == s.last());
        lemma_split_state_after_break(p, s2);
        let d0 = split_state(p).0;
        let (d2, c2) = split_state(s2);
        let c = s.last();
        if is_white_space(c) && c2.len() > 0 {
            assert((d0 + d2).push(c2) =~= d0 + d2.push(c2));
        }
    }
}

/// The words of `a`, a whitespace character, then `b` are the words of `a`
/// followed by the words of `b`.
pub proof fn lemma_split_whitespace_concat(a: Seq<char>, c: char, b: Seq<char>)
    requires
        is_white_space(c),
    ensures
        split_whitespace(a.push(c) + b) == split_whitespace(a) + split_whitespace(b),
{
    assert(a.push(c).drop_last() =~= a);
    assert(split_state(a.push(c)) == (split_whitespace(a), Seq::<char>::empty()));
    lemma_split_state_after_break(a.push(c), b);
    let (db, cb) = split_state(b);
    if cb.len() > 0 {
        assert((split_whitespace(a) + db).push(cb) =~= split_whitespace(a) + db.push(cb));
    }
}

/// An ASCII whitespace character (`char::is_ascii_whitespace`): space, tab,
/// line feed, form feed and carriage return.
pub open spec fn is_ascii_whitespace(c: char) -> bool {
    let u = c as u32;
    u == 0x20 || u == 0x09 || u == 0x0a || u == 0x0c || u == 0x0d
}

/// `str::to_ascii_uppercase`.
pub open spec fn to_ascii_upper(s: Seq<char>) -> Seq<char> {
    s.map_values(|c: char| ascii_upper(c))
}

/// `str::to_ascii_lowercase`.
pub open spec fn to_ascii_lower(s: Seq<char>) -> Seq<char> {
    s.map_values(|c: char| ascii_lower(c))
}

/// Each word mapped character by character.
pub open spec fn map_words(ws: Seq<Seq<char>>, f: spec_fn(char) -> char) -> Seq<Seq<char>> {
    Seq::new(ws.len(), |k: int| ws[k].map_values(f))
}

/// Each character of each word of `ws` satisfies `p` and is no whitespace.
pub open spec fn words_made_of(ws: Seq<Seq<char>>, p: spec_fn(char) -> bool) -> bool {
    forall|k: int, j: int|
        0 <= k < ws.len() && 0 <= j < ws[k].len() ==> p(#[trigger] ws[k][j]) && !is_white_space(
            ws[k][j],
        )
}

proof fn lemma_split_state_chars(s: Seq<char>, p: spec_fn(char) -> bool)
    requires
        forall|i: int| 0 <= i < s.len() ==> p(#[trigger] s[i]) || is_white_space(s[i]),
    ensures
        words_made_of(split_state(s).0, p),
        forall|k: int| 0 <= k < split_state(s).0.len() ==> (#[trigger] split_state(s).0[k]).len() > 0,
        forall|j: int|
            0 <= j < split_state(s).1.len() ==> p(#[trigger] split_state(s).1[j]) && !is_white_space(
                split_state(s).1[j],
            ),
    decreases s.len(),
{
    if s.len() > 0 {
        let s2 = s.drop_last();
        assert forall|i: int| 0 <= i < s2.len() implies p(#[trigger] s2[i]) || is_white_space(s2[i]) by {
            assert(s2[i] == s[i]);
        }
        lemma_split_state_chars(s2, p);
        let (d, cur) = split_state(s2);
        let c = s.last();
        assert(p(s[s.len() - 1]) || is_white_space(s[s.len() - 1]));
        if is_white_space(c) {
            if cur.len() > 0 {
                let d2 = d.push(cur);
                assert forall|k: int, j: int| 0 <= k < d2.len() && 0 <= j < d2[k].len() implies p(
                    #[trigger] d2[k][j],
                ) && !is_white_space(d2[k][j]) by {
                    if k < d.len() {
                        assert(d2[k] == d[k]);
                    } else {
                        assert(d2[k] == cur);
                    }
                }
                assert forall|k: int| 0 <= k < d2.len() implies (#[trigger] d2[k]).len() > 0 by {
                    if k < d.len() {
                        assert(d2[k] == d[k]);
                    }
                }
            }
        } else {
            let c2 = cur.push(c);
            assert forall|j: int| 0 <= j < c2.len() implies p(#[trigger] c2[j]) && !is_white_space(
                c2[j],
            ) by {
                if j < cur.len() {
                    assert(c2[j] == cur[j]);
                }
            }
        }
    }
}

/// When each character of a text satisfies `p` or is whitespace, its words
/// are non-empty and made of characters that satisfy `p`.
pub proof fn lemma_split_words_chars(s: Seq<char>, p: spec_fn(char) -> bool)
    requires
        forall|i: int| 0 <= i < s.len() ==> p(#[trigger] s[i]) || is_white_space(s[i]),
    ensures
        words_made_of(split_whitespace(s), p),
        forall|k: int| 0 <= k < split_whitespace(s).len() ==> (#[trigger] split_whitespace(s)[k]).len() > 0,
{
    lemma_split_state_chars(s, p);
    let (d, cur) = split_state(s);
    if cur.len() > 0 {
        let d2 = d.push(cur);
        assert forall|k: int, j: int| 0 <= k < d2.len() && 0 <= j < d2[k].len() implies p(
            #[trigger] d2[k][j],
        ) && !is_white_space(d2[k][j]) by {
            if k < d.len() {
                assert(d2[k] == d[k]);
            }
        }
        assert forall|k: int| 0 <= k < d2.len() implies (#[trigger] d2[k]).len() > 0 by {
            if k < d.len() {
                assert(d2[k] == d[k]);
            }
        }
    }
}

proof fn lemma_split_state_map(s: Seq<char>, f: spec_fn(char) -> char)
    requires
        forall|c: char| #[trigger] is_white_space(f(c)) == is_white_space(c),
    ensures
        split_state(s.map_values(f)) == (map_words(split_state(s).0, f), split_state(s).1.map_values(f)),
    decreases s.len(),
{
    if s.len() == 0 {
        assert(s.map_values(f) =~= Seq::<char>::empty());
        assert(map_words(split_state(s).0, f) =~= Seq::<Seq<char>>::empty());
        assert(split_state(s).1.map_values(f) =~= Seq::<char>::empty());
    } else {
        let s2 = s.drop_last();
        assert(s.map_values(f).drop_last() =~= s2.map_values(f));
        assert(s.map_values(f).last() == f(s.last()));
        lemma_split_state_map(s2, f);
        let (d, cur) = split_state(s2);
        let c = s.last();
        assert(is_white_space(f(c)) == is_white_space(c));
        if is_white_space(c) {
            if cur.len() > 0 {
                assert(map_words(d.push(cur), f) =~= map_words(d, f).push(cur.map_values(f)));
                assert(Seq::<char>::empty().map_values(f) =~= Seq::<char>::empty());
            }
        } else {
            assert(cur.push(c).map_values(f) =~= cur.map_values(f).push(f(c)));
        }
    }
}

/// Mapping characters without changing which are whitespace maps each word.
pub proof fn lemma_split_whitespace_map(s: Seq<char>, f: spec_fn(char) -> char)
    requires
        forall|c: char| #[trigger] is_white_space(f(c)) == is_white_space(c),
    ensures
        split_whitespace(s.map_values(f)) == map_words(split_whitespace(s), f),
{
    lemma_split_state_map(s, f);
    let (d, cur) = split_state(s);
    if cur.len() > 0 {
        assert(map_words(d.push(cur), f) =~= map_words(d, f).push(cur.map_values(f)));
    }
}

/// A non-empty text without whitespace is one word.
pub proof fn lemma_split_whitespace_word(t: Seq<char>)
    requires
        t.len() > 0,
        forall|j: int| 0 <= j < t.len() ==> !is_white_space(#[trigger] t[j]),
    ensures
        split_whitespace(t) == seq![t],
{
    lemma_split_state_word(t);
    assert(Seq::<Seq<char>>::empty().push(t) =~= seq![t]);
}

proof fn lemma_split_state_word(t: Seq<char>)
    requires
        forall|j: int| 0 <= j < t.len() ==> !is_white_space(#[trigger] t[j]),
    ensures
        split_state(t) == (Seq::<Seq<char>>::empty(), t),
    decreases t.len(),
{
    if t.len() > 0 {
        let t2 = t.drop_last();
        assert forall|j: int| 0 <= j < t2.len() implies !is_white_space(#[trigger] t2[j]) by {
            assert(t2[j] == t[j]);
        }
        lemma_split_state_word(t2);
        assert(!is_white_space(t[t.len() - 1]));
        assert(t2.push(t.last()) =~= t);
    } else {
        assert(t =~= Seq::<char>::empty());
    }
}

/// `str::split_whitespace`, collected.
pub fn split_words(text: &str) -> (r: Vec<String>)
    ensures
        r.deep_view() == split_whitespace(text@),
{
    let cs = chars_of(text);
    let mut done: Vec<String> = Vec::new();
    let mut cur = String::new();
    let mut i: usize = 0;
    while i < cs.len()
        invariant
            cs@ == text@,
            i <= cs.len(),
            (done.deep_view(), cur@) == split_state(cs@.take(i as int)),
        decreases cs.len() - i,
    {
        let c = cs[i];
        let ghost prefix = cs@.take(i as int);
        assert(cs@.take(i + 1).drop_last() =~= prefix);
        if char_is_whitespace(c) {
            if !cur.as_str().is_empty() {
                let ghost d = done.deep_view();
                let word = cur;
                done.push(word);
                cur = String::new();
                assert(done.deep_view() =~= d.push(word@));
            }
        } else {
            push_char(&mut cur, c);
        }
        i += 1;
    }
    assert(cs@.take(cs@.len() as int) =~= cs@);
    if !cur.as_str().is_empty() {
        let ghost d = done.deep_view();
        let ghost w = cur@;
        done.push(cur);
        assert(done.deep_view() =~= d.push(w));
    }
    done
}

// ---------------------------------------------------------------------------
// UTF-8 lengths
// ---------------------------------------------------------------------------

/// Encoding `a + b` is encoding `a`, then `b`.
pub proof fn lemma_encode_utf8_concat(a: Seq<char>, b: Seq<char>)
    ensures
        encode_utf8(a + b) == encode_utf8(a) + encode_utf8(b),
    decreases a.len(),
{
    if a.len() == 0 {
        assert(a + b =~= b);
    } else {
        lemma_encode_utf8_concat(a.drop_first(), b);
        assert((a + b).drop_first() =~= a.drop_first() + b);
        assert(encode_utf8(a + b) =~= encode_scalar(a[0] as u32) + encode_utf8(a.drop_first() + b));
    }
}

/// The number of bytes of one character's UTF-8 encoding.
pub open spec fn utf8_width(c: char) -> nat {
    encode_scalar(c as u32).len()
}

/// `char::len_utf8`.
pub fn char_utf8_width(c: char) -> (w: usize)
    ensures
        w == utf8_width(c),
        1 <= w <= 4,
        w == 1 <==> (c as u32) < 0x80,
{
    proof {
        char_is_scalar(c);
    }
    let u = c as u32;
    if u < 0x80 {
        1
    } else if u < 0x800 {
        2
    } else if u < 0x10000 {
        3
    } else {
        4
    }
}

/// Each character takes at least one byte.
pub proof fn lemma_encode_utf8_len(s: Seq<char>)
    ensures
        encode_utf8(s).len() >= s.len(),
        s.len() == 1 ==> (encode_utf8(s).len() == 1 <==> (s[0] as u32) < 0x80),
    decreases s.len(),
{
    if s.len() > 0 {
        char_is_scalar(s[0]);
        lemma_encode_utf8_len(s.drop_first());
        if s.len() == 1 {
            assert(s.drop_first().len() == 0);
        }
    }
}

/// The byte length of the UTF-8 encoding of `s[..i+1]` from that of `s[..i]`.
pub proof fn lemma_encode_utf8_take_step(s: Seq<char>, i: int)
    requires
        0 <= i < s.len(),
    ensures
        encode_utf8(s.take(i + 1)).len() == encode_utf8(s.take(i)).len() + utf8_width(s[i]),
{
    assert(s.take(i + 1) =~= s.take(i) + seq![s[i]]);
    lemma_encode_utf8_concat(s.take(i), seq![s[i]]);
    assert(seq![s[i]].drop_first() =~= Seq::<char>::empty());
    assert(encode_utf8(seq![s[i]]) =~= encode_scalar(s[i] as u32) + encode_utf8(
        Seq::<char>::empty(),
    ));
}

/// Whether two strings have the same characters.
pub fn str_eq(a: &str, b: &str) -> (r: bool)
    ensures
        r == (a@ == b@),
{
    let x = chars_of(a);
    let y = chars_of(b);
    if x.len() != y.len() {
        return false;
    }
    let mut i: usize = 0;
    while i < x.len()
        invariant
            x@ == a@,
            y@ == b@,
            x.len() == y.len(),
            i <= x.len(),
            forall|j: int| 0 <= j < i ==> x@[j] == y@[j],
        decreases x.len() - i,
    {
        if x[i] != y[i] {
            return false;
        }
        i += 1;
    }
    assert(x@ =~= y@);
    true
}

// ---------------------------------------------------------------------------
// Prefixes, suffixes and characters
// ---------------------------------------------------------------------------

/// `p` is a prefix of `s`.
pub open spec fn has_prefix(s: Seq<char>, p: Seq<char>) -> bool {
    p.len() <= s.len() && s.take(p.len() as int) == p
}

/// `p` is a suffix of `s`.
pub open spec fn has_suffix(s: Seq<char>, p: Seq<char>) -> bool {
    p.len() <= s.len() && s.skip(s.len() - p.len()) == p
}

/// Whether `cs[lo..]` starts with the characters of `p`.
pub fn chars_start_with(cs: &Vec<char>, lo: usize, p: &Vec<char>) -> (r: bool)
    requires
        lo <= cs.len(),
    ensures
        r == has_prefix(cs@.skip(lo as int), p@),
{
    if p.len() > cs.len() - lo {
        return false;
    }
    let mut i: usize = 0;
    while i < p.len()
        invariant
            lo + p.len() <= cs.len(),
            i <= p.len(),
            forall|j: int| 0 <= j < i ==> cs@[lo + j] == p@[j],
        decreases p.len() - i,
    {
        if cs[lo + i] != p[i] {
            assert(cs@.skip(lo as int).take(p@.len() as int)[i as int] != p@[i as int]);
            return false;
        }
        i += 1;
    }
    assert(cs@.skip(lo as int).take(p@.len() as int) =~= p@);
    true
}

/// Whether `cs[..hi]` ends with the characters of `p`.
pub fn chars_end_with(cs: &Vec<char>, hi: usize, p: &Vec<char>) -> (r: bool)
    requires
        hi <= cs.len(),
    ensures
        r == has_suffix(cs@.take(hi as int), p@),
{
    if p.len() > hi {
        return false;
    }
    let lo = hi - p.len();
    let mut i: usize = 0;
    while i < p.len()
        invariant
            lo + p.len() == hi <= cs.len(),
            i <= p.len(),
            forall|j: int| 0 <= j < i ==> cs@[lo + j] == p@[j],
        decreases p.len() - i,
    {
        if cs[lo + i] != p[i] {
            assert(cs@.take(hi as int).skip(lo as int)[i as int] != p@[i as int]);
            return false;
        }
        i += 1;
    }
    assert(cs@.take(hi as int).skip(lo as int) =~= p@);
    true
}

/// `str::starts_with` with a string pattern.
pub fn starts_with(s: &str, p: &str) -> (r: bool)
    ensures
        r == has_prefix(s@, p@),
{
    let cs = chars_of(s);
    let ps = chars_of(p);
    assert(cs@.skip(0) =~= cs@);
    chars_start_with(&cs, 0, &ps)
}

/// `str::contains` with a character pattern.
pub fn contains_char(s: &str, c: char) -> (r: bool)
    ensures
        r == s@.contains(c),
{
    let cs = chars_of(s);
    let mut i: usize = 0;
    while i < cs.len()
        invariant
            cs@ == s@,
            i <= cs.len(),
            forall|j: int| 0 <= j < i ==> cs@[j] != c,
        decreases cs.len() - i,
    {
        if cs[i] == c {
            assert(s@[i as int] == c);
            return true;
        }
        i += 1;
    }
    false
}

/// `str::strip_prefix` with a string pattern.
pub fn strip_prefix(s: &str, p: &str) -> (r: Option<String>)
    ensures
        match r {
            Some(rest) => has_prefix(s@, p@) && rest@ == s@.skip(p@.len() as int),
            None => !has_prefix(s@, p@),
        },
{
    let cs = chars_of(s);
    let ps = chars_of(p);
    assert(cs@.skip(0) =~= cs@);
    if chars_start_with(&cs, 0, &ps) {
        let r = string_of_range(&cs, ps.len(), cs.len());
        assert(r@ =~= s@.skip(p@.len() as int));
        Some(r)
    } else {
        None
    }
}

/// The concatenation of two strings.
pub fn concat(a: &str, b: &str) -> (r: String)
    ensures
        r@ == a@ + b@,
{
    let mut out = String::new();
    push_all(&mut out, a);
    push_all(&mut out, b);
    assert(out@ =~= a@ + b@);
    out
}

// ---------------------------------------------------------------------------
// Substring search
// ---------------------------------------------------------------------------

/// `p` occurs in `s` at character position `i`.
pub open spec fn occurs_at(s: Seq<char>, p: Seq<char>, i: int) -> bool {
    0 <= i && i + p.len() <= s.len() && s.subrange(i, i + p.len()) == p
}

/// The first position at or after `i` where `p` occurs in `s`.
pub open spec fn first_occurrence_from(s: Seq<char>, p: Seq<char>, i: int) -> Option<int>
    decreases s.len() - i,
{
    if i < 0 || i + p.len() > s.len() {
        None
    } else if p.len() == 0 || occurs_at(s, p, i) {
        Some(i)
    } else {
        first_occurrence_from(s, p, i + 1)
    }
}

/// The first position where `p` occurs in `s` (`str::find`, counted in
/// characters).
pub open spec fn first_occurrence(s: Seq<char>, p: Seq<char>) -> Option<int> {
    first_occurrence_from(s, p, 0)
}

/// The number of non-overlapping occurrences of `p` in `s[i..]`, taken from
/// the left (`str::matches(..).count()`); an empty pattern matches at every
/// character boundary.
pub open spec fn count_from(s: Seq<char>, p: Seq<char>, i: int) -> nat
    decreases s.len() - i,
{
    if i < 0 || i > s.len() {
        0
    } else if p.len() == 0 {
        (s.len() - i + 1) as nat
    } else if i + p.len() > s.len() {
        0
    } else if occurs_at(s, p, i) {
        1 + count_from(s, p, i + p.len())
    } else {
        count_from(s, p, i + 1)
    }
}

/// The number of non-overlapping occurrences of `p` in `s`.
pub open spec fn count_occurrences(s: Seq<char>, p: Seq<char>) -> nat {
    count_from(s, p, 0)
}

/// The first position at or after `from` where `p` occurs in `cs`.
pub fn find_from(cs: &Vec<char>, p: &Vec<char>, from: usize) -> (r: Option<usize>)
    requires
        from <= cs.len(),
    ensures
        match r {
            Some(i) => first_occurrence_from(cs@, p@, from as int) == Some(i as int) && from <= i
                && i + p@.len() <= cs@.len() && occurs_at(cs@, p@, i as int),
            None => first_occurrence_from(cs@, p@, from as int) is None,
        },
{
    if p.len() > cs.len() - from {
        assert(first_occurrence_from(cs@, p@, from as int) is None);
        return None;
    }
    if p.len() == 0 {
        assert(cs@.subrange(from as int, from as int) =~= p@);
        return Some(from);
    }
    let last = cs.len() - p.len();
    let mut i = from;
    while i <= last
        invariant
            from <= i,
            p.len() > 0,
            last + p.len() == cs.len(),
            first_occurrence_from(cs@, p@, from as int) == first_occurrence_from(cs@, p@, i as int),
        decreases cs.len() + 1 - i,
    {
        let hit = chars_start_with(cs, i, p);
        proof {
            assert(hit == occurs_at(cs@, p@, i as int)) by {
                if hit {
                    assert(cs@.skip(i as int).take(p@.len() as int) =~= cs@.subrange(i as int, i + p@.len()));
                }
                if occurs_at(cs@, p@, i as int) {
                    assert(cs@.skip(i as int).take(p@.len() as int) =~= cs@.subrange(i as int, i + p@.len()));
                }
            }
        }
        if hit {
            return Some(i);
        }
        i += 1;
    }
    None
}

/// Whether `p` occurs in `s` (`str::contains` with a string pattern).
pub fn contains_str(s: &str, p: &str) -> (r: bool)
    ensures
        r == first_occurrence(s@, p@) is Some,
{
    let cs = chars_of(s);
    let ps = chars_of(p);
    find_from(&cs, &ps, 0).is_some()
}

/// The number of non-overlapping occurrences of `p` in `cs[from..]`.
pub fn count_from_exec(cs: &Vec<char>, p: &Vec<char>, from: usize) -> (r: usize)
    requires
        from <= cs.len() < usize::MAX,
    ensures
        r == count_from(cs@, p@, from as int),
{
    if p.len() == 0 {
        return cs.len() - from + 1;
    }
    let mut count: usize = 0;
    let mut i = from;
    while p.len() <= cs.len() - i
        invariant
            from <= i <= cs.len(),
            p.len() > 0,
            count + count_from(cs@, p@, i as int) == count_from(cs@, p@, from as int),
            count <= i,
        decreases cs.len() - i,
    {
        let hit = chars_start_with(cs, i, p);
        proof {
            assert(hit == occurs_at(cs@, p@, i as int)) by {
                if hit {
                    assert(cs@.skip(i as int).take(p@.len() as int) =~= cs@.subrange(i as int, i + p@.len()));
                }
                if occurs_at(cs@, p@, i as int) {
                    assert(cs@.skip(i as int).take(p@.len() as int) =~= cs@.subrange(i as int, i + p@.len()));
                }
            }
        }
        if hit {
            count += 1;
            i += p.len();
        } else {
            i += 1;
        }
    }
    count
}

/// `str::matches(p).count()`, counted over characters.
pub fn count_matches(s: &str, p: &str) -> (r: usize)
    requires
        s@.len() < usize::MAX,
    ensures
        r == count_occurrences(s@, p@),
{
    let cs = chars_of(s);
    let ps = chars_of(p);
    count_from_exec(&cs, &ps, 0)
}

/// Every character takes between one and four bytes.
pub proof fn lemma_char_width_positive(c: char)
    ensures
        1 <= utf8_width(c) <= 4,
{
    char_is_scalar(c);
}

/// Trimming the start leaves a suffix that starts outside the class.
pub proof fn lemma_trim_start_class(s: Seq<char>, k: CharClass)
    ensures
        exists|j: int| 0 <= j <= s.len() && trim_start_class(s, k) == #[trigger] s.skip(j),
        trim_start_class(s, k).len() > 0 ==> !in_class(trim_start_class(s, k)[0], k),
    decreases s.len(),
{
    if s.len() > 0 && in_class(s[0], k) {
        lemma_trim_start_class(s.drop_first(), k);
        let j = choose|j: int| 0 <= j <= s.drop_first().len() && trim_start_class(s.drop_first(), k) == #[trigger] s.drop_first().skip(j);
        assert(s.drop_first().skip(j) =~= s.skip(j + 1));
    } else {
        assert(s.skip(0) =~= s);
    }
}

/// Trimming the end leaves a prefix that ends outside the class.
pub proof fn lemma_trim_end_class(s: Seq<char>, k: CharClass)
    ensures
        exists|j: int| 0 <= j <= s.len() && trim_end_class(s, k) == #[trigger] s.take(j),
        trim_end_class(s, k).len() > 0 ==> !in_class(trim_end_class(s, k).last(), k),
    decreases s.len(),
{
    if s.len() > 0 && in_class(s.last(), k) {
        lemma_trim_end_class(s.drop_last(), k);
        let j = choose|j: int| 0 <= j <= s.drop_last().len() && trim_end_class(s.drop_last(), k) == #[trigger] s.drop_last().take(j);
        assert(s.drop_last().take(j) =~= s.take(j));
    } else {
        assert(s.take(s.len() as int) =~= s);
    }
}

/// Trimming the start skips a prefix made only of the class.
pub proof fn lemma_trim_start_prefix(a: Seq<char>, b: Seq<char>, k: CharClass)
    requires
        forall|i: int| 0 <= i < a.len() ==> in_class(#[trigger] a[i], k),
    ensures
        trim_start_class(a + b, k) == trim_start_class(b, k),
    decreases a.len(),
{
    if a.len() > 0 {
        assert(in_class(a[0], k));
        assert((a + b)[0] == a[0]);
        assert((a + b).drop_first() =~= a.drop_first() + b);
        assert forall|i: int| 0 <= i < a.drop_first().len() implies in_class(#[trigger] a.drop_first()[i], k) by {
            assert(a.drop_first()[i] == a[i + 1]);
        }
        lemma_trim_start_prefix(a.drop_first(), b, k);
    } else {
        assert(a + b =~= b);
    }
}

/// Trimming the end skips a suffix made only of the class.
pub proof fn lemma_trim_end_suffix(a: Seq<char>, b: Seq<char>, k: CharClass)
    requires
        forall|i: int| 0 <= i < b.len() ==> in_class(#[trigger] b[i], k),
    ensures
        trim_end_class(a + b, k) == trim_end_class(a, k),
    decreases b.len(),
{
    if b.len() > 0 {
        assert(in_class(b[b.len() - 1], k));
        assert((a + b).last() == b.last());
        assert((a + b).drop_last() =~= a + b.drop_last());
        assert forall|i: int| 0 <= i < b.drop_last().len() implies in_class(#[trigger] b.drop_last()[i], k) by {
            assert(b.drop_last()[i] == b[i]);
        }
        lemma_trim_end_suffix(a, b.drop_last(), k);
    } else {
        assert(a + b =~= a);
    }
}

/// The search from `j` finds the first occurrence at or after `j`.
pub proof fn lemma_first_occurrence_is(s: Seq<char>, p: Seq<char>, j: int, i: int)
    requires
        0 <= j <= i,
        occurs_at(s, p, i),
        forall|k: int| j <= k < i ==> !occurs_at(s, p, k),
    ensures
        first_occurrence_from(s, p, j) == Some(i),
    decreases i - j,
{
    if j < i {
        assert(!occurs_at(s, p, j));
        if p.len() == 0 {
            assert(s.subrange(j, j) =~= p);
        }
        lemma_first_occurrence_is(s, p, j + 1, i);
    }
}

/// What a search from `i` finds is an occurrence at or after `i`.
pub proof fn lemma_first_occurrence_sound(s: Seq<char>, p: Seq<char>, i: int)
    ensures
        first_occurrence_from(s, p, i) matches Some(k) ==> i <= k && occurs_at(s, p, k),
    decreases s.len() - i,
{
    if i < 0 || i + p.len() > s.len() {
    } else if p.len() == 0 {
        assert(s.subrange(i, i) =~= p);
    } else if occurs_at(s, p, i) {
    } else {
        lemma_first_occurrence_sound(s, p, i + 1);
    }
}

/// An occurrence at or after `j` is found by a search from `j`.
pub proof fn lemma_occurrence_found(s: Seq<char>, p: Seq<char>, j: int, i: int)
    requires
        0 <= j <= i,
        occurs_at(s, p, i),
    ensures
        first_occurrence_from(s, p, j) is Some,
    decreases i - j,
{
    if j < i && !occurs_at(s, p, j) && p.len() > 0 {
        lemma_occurrence_found(s, p, j + 1, i);
    }
}

/// Non-overlapping occurrences of a non-empty pattern take no more
/// characters than the text has.
pub proof fn lemma_count_bound(s: Seq<char>, p: Seq<char>, i: int)
    requires
        p.len() > 0,
        0 <= i <= s.len(),
    ensures
        count_from(s, p, i) * p.len() <= s.len() - i,
    decreases s.len() - i,
{
    if i + p.len() <= s.len() {
        if occurs_at(s, p, i) {
            lemma_count_bound(s, p, i + p.len());
            assert(count_from(s, p, i) * p.len() == p.len() + count_from(s, p, i + p.len()) * p.len()) by (nonlinear_arith)
                requires count_from(s, p, i) == 1 + count_from(s, p, i + p.len());
        } else {
            lemma_count_bound(s, p, i + 1);
            assert(count_from(s, p, i) == count_from(s, p, i + 1));
        }
    } else {
        assert(count_from(s, p, i) == 0);
        assert(count_from(s, p, i) * p.len() == 0) by (nonlinear_arith)
            requires count_from(s, p, i) == 0;
    }
}

} // verus!
