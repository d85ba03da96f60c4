//! The logic of the terminal result viewer: the snippet shown under each
//! result, and what each key press does to the viewer's state.
use vstd::prelude::*;
use vstd::utf8::encode_utf8;
use crate::text::{
    char_utf8_width, chars_of, find_from, first_occurrence, lemma_encode_utf8_take_step,
    lemma_first_occurrence_is, lemma_first_occurrence_sound, occurs_at,
    lowercase, push_char, split_whitespace, split_words, str_to_lowercase,
};

verus! {

// ---------------------------------------------------------------------------
// Snippets
// ---------------------------------------------------------------------------

/// The byte offset, in the lowercased content, of the first query word (in
/// query order) that occurs there; 0 when none does.
pub open spec fn hit_offset(content_lower: Seq<char>, words: Seq<Seq<char>>) -> nat
    decreases words.len(),
{
    if words.len() == 0 {
        0
    } else {
        match first_occurrence(content_lower, words[0]) {
            Some(k) => encode_utf8(content_lower.take(k)).len(),
            None => hit_offset(content_lower, words.drop_first()),
        }
    }
}

/// The character position of `content` that starts at byte `b`, if `b` is a
/// character boundary of it.
pub open spec fn char_position(content: Seq<char>, b: nat) -> Option<int> {
    if exists|c: int| 0 <= c <= content.len() && encode_utf8(content.take(c)).len() == b {
        Some(choose|c: int| 0 <= c <= content.len() && encode_utf8(content.take(c)).len() == b)
    } else {
        None
    }
}

/// Newlines replaced by spaces.
pub open spec fn flatten_lines(s: Seq<char>) -> Seq<char> {
    s.map_values(|ch: char| if ch == '\n' { ' ' } else { ch })
}

/// Up to 75 characters on each side of position `c`, with `...` when text
/// follows, on one line.
pub open spec fn window_at(content: Seq<char>, c: int) -> Seq<char> {
    let start = if c > 75 { c - 75 } else { 0 };
    let end = if c + 75 < content.len() { c + 75 } else { content.len() as int };
    flatten_lines(
        content.subrange(start, end) + (if end < content.len() {
            seq!['.', '.', '.']
        } else {
            seq![]
        }),
    )
}

/// The snippet of `content` around the first query word found; `None` when
/// that word's byte offset in the lowercased text is no character boundary
/// of `content`.
pub open spec fn snippet_of(content: Seq<char>, content_lower: Seq<char>, query_lower: Seq<char>) -> Option<Seq<char>> {
    match char_position(content, hit_offset(content_lower, split_whitespace(query_lower))) {
        Some(c) => Some(window_at(content, c)),
        None => None,
    }
}

/// The snippet is placed at the first query word, in query order, that
/// occurs in the lowercased text: at the byte offset of that word's first
/// occurrence, whatever words before it in the query do not occur.
pub proof fn lemma_hit_offset_first_found(c: Seq<char>, ws: Seq<Seq<char>>, i: int, k: int)
    requires
        0 <= i < ws.len(),
        forall|j: int, q: int| 0 <= j < i ==> !#[trigger] occurs_at(c, ws[j], q),
        occurs_at(c, ws[i], k),
        forall|q: int| 0 <= q < k ==> !#[trigger] occurs_at(c, ws[i], q),
    ensures
        hit_offset(c, ws) == encode_utf8(c.take(k)).len(),
    decreases i,
{
    if i == 0 {
        lemma_first_occurrence_is(c, ws[0], 0, k);
    } else {
        lemma_first_occurrence_sound(c, ws[0], 0);
        if let Some(k0) = first_occurrence(c, ws[0]) {
            assert(!occurs_at(c, ws[0], k0));
        }
        let r = ws.drop_first();
        assert forall|j: int, q: int| 0 <= j < i - 1 implies !#[trigger] occurs_at(c, r[j], q) by {
            assert(r[j] == ws[j + 1]);
            assert(!occurs_at(c, ws[j + 1], q));
        }
        assert(r[i - 1] == ws[i]);
        lemma_hit_offset_first_found(c, r, i - 1, k);
    }
}

/// When no query word occurs in the lowercased text, the snippet is placed
/// at its start.
pub proof fn lemma_hit_offset_none_found(c: Seq<char>, ws: Seq<Seq<char>>)
    requires
        forall|j: int, q: int| 0 <= j < ws.len() ==> !#[trigger] occurs_at(c, ws[j], q),
    ensures
        hit_offset(c, ws) == 0,
    decreases ws.len(),
{
    if ws.len() > 0 {
        lemma_first_occurrence_sound(c, ws[0], 0);
        if let Some(k0) = first_occurrence(c, ws[0]) {
            assert(!occurs_at(c, ws[0], k0));
        }
        let r = ws.drop_first();
        assert forall|j: int, q: int| 0 <= j < r.len() implies !#[trigger] occurs_at(c, r[j], q) by {
            assert(r[j] == ws[j + 1]);
            assert(!occurs_at(c, ws[j + 1], q));
        }
        lemma_hit_offset_none_found(c, r);
    }
}

proof fn lemma_prefix_bytes_increase(s: Seq<char>, c1: int, c2: int)
    requires
        0 <= c1 < c2 <= s.len(),
    ensures
        encode_utf8(s.take(c1)).len() < encode_utf8(s.take(c2)).len(),
    decreases c2 - c1,
{
    lemma_encode_utf8_take_step(s, c2 - 1);
    crate::text::lemma_char_width_positive(s[c2 - 1]);
    if c1 < c2 - 1 {
        lemma_prefix_bytes_increase(s, c1, c2 - 1);
    }
}

/// The UTF-8 length of `cs[..k]`.
fn prefix_bytes(cs: &Vec<char>, k: usize) -> (r: u128)
    requires
        k <= cs.len(),
    ensures
        r == encode_utf8(cs@.take(k as int)).len(),
{
    let mut acc: u128 = 0;
    let mut i: usize = 0;
    assert(cs@.take(0) =~= Seq::<char>::empty());
    while i < k
        invariant
            i <= k <= cs.len(),
            acc == encode_utf8(cs@.take(i as int)).len(),
            acc <= 4 * i,
        decreases k - i,
    {
        proof {
            lemma_encode_utf8_take_step(cs@, i as int);
        }
        acc = acc + char_utf8_width(cs[i]) as u128;
        i += 1;
    }
    acc
}

/// The byte offset of the first query word found in the lowered content.
fn first_hit_offset(lower: &Vec<char>, words: &Vec<String>) -> (r: u128)
    ensures
        r == hit_offset(lower@, words.deep_view()),
{
    let mut i: usize = 0;
    assert(words.deep_view().skip(0) =~= words.deep_view());
    while i < words.len()
        invariant
            i <= words.len(),
            hit_offset(lower@, words.deep_view()) == hit_offset(lower@, words.deep_view().skip(i as int)),
        decreases words.len() - i,
    {
        let w = chars_of(words[i].as_str());
        proof {
            assert(words.deep_view().skip(i as int)[0] == words@[i as int]@);
            assert(words.deep_view().skip(i as int).drop_first() =~= words.deep_view().skip(i + 1));
        }
        match find_from(lower, &w, 0) {
            Some(k) => {
                return prefix_bytes(lower, k);
            },
            None => {},
        }
        i += 1;
    }
    0
}

/// The character position starting at byte `b` of `cs`, if any.
fn position_of_byte(cs: &Vec<char>, b: u128) -> (r: Option<usize>)
    ensures
        match r {
            Some(c) => char_position(cs@, b as nat) == Some(c as int),
            None => char_position(cs@, b as nat) is None,
        },
{
    let mut acc: u128 = 0;
    let mut c: usize = 0;
    assert(cs@.take(0) =~= Seq::<char>::empty());
    while c < cs.len() && acc < b
        invariant
            c <= cs.len(),
            acc == encode_utf8(cs@.take(c as int)).len(),
            acc <= 4 * c,
            forall|j: int| 0 <= j < c ==> encode_utf8(cs@.take(j)).len() < b,
        decreases cs.len() - c,
    {
        proof {
            lemma_encode_utf8_take_step(cs@, c as int);
        }
        acc = acc + char_utf8_width(cs[c]) as u128;
        c += 1;
    }
    if acc == b {
        proof {
            assert(encode_utf8(cs@.take(c as int)).len() == b);
            let w = choose|w: int| 0 <= w <= cs@.len() && encode_utf8(cs@.take(w)).len() == b;
            if w < c {
                lemma_prefix_bytes_increase(cs@, w, c as int);
            } else if w > c {
                lemma_prefix_bytes_increase(cs@, c as int, w);
            }
        }
        Some(c)
    } else {
        proof {
            assert forall|w: int| 0 <= w <= cs@.len() implies encode_utf8(cs@.take(w)).len() != b by {
                if w < c {
                } else if w > c {
                    lemma_prefix_bytes_increase(cs@, c as int, w);
                }
            }
        }
        None
    }
}

/// The snippet around the first query word found, given the lowercased
/// content and query; `None` where the byte offset found in the lowercased
/// text is no character boundary of `content`.
pub fn snippet_from_lowered(content: &str, content_lower: &str, query_lower: &str) -> (r: Option<String>)
    ensures
        match r {
            Some(s) => snippet_of(content@, content_lower@, query_lower@) == Some(s@),
            None => snippet_of(content@, content_lower@, query_lower@) is None,
        },
{
    let words = split_words(query_lower);
    let lower = chars_of(content_lower);
    let offset = first_hit_offset(&lower, &words);
    let cs = chars_of(content);
    match position_of_byte(&cs, offset) {
        None => None,
        Some(c) => {
            let n = cs.len();
            let start = if c > 75 { c - 75 } else { 0 };
            let end = if n - c > 75 { c + 75 } else { n };
            let ghost raw = cs@.subrange(start as int, end as int) + (if end < n {
                seq!['.', '.', '.']
            } else {
                seq![]
            });
            let mut out = String::new();
            let mut i = start;
            while i < end
                invariant
                    start <= i <= end <= n == cs.len(),
                    out@ == flatten_lines(cs@.subrange(start as int, i as int)),
                decreases end - i,
            {
                let ch = cs[i];
                push_char(&mut out, if ch == '\n' { ' ' } else { ch });
                assert(out@ =~= flatten_lines(cs@.subrange(start as int, i + 1)));
                i += 1;
            }
            if end < n {
                push_char(&mut out, '.');
                push_char(&mut out, '.');
                push_char(&mut out, '.');
            }
            assert(out@ =~= flatten_lines(raw));
            Some(out)
        },
    }
}

/// The snippet shown under a result: up to 75 characters on each side of the
/// first query word found in the text (ignoring case), on one line.
pub fn text_snippet(content: &str, query: &str) -> (r: Option<String>)
    ensures
        match r {
            Some(s) => snippet_of(content@, lowercase(content@), lowercase(query@)) == Some(s@),
            None => snippet_of(content@, lowercase(content@), lowercase(query@)) is None,
        },
{
    let content_lower = str_to_lowercase(content);
    let query_lower = str_to_lowercase(query);
    snippet_from_lowered(content, content_lower.as_str(), query_lower.as_str())
}

// ---------------------------------------------------------------------------
// Key handling
// ---------------------------------------------------------------------------

/// Key presses are ignored when they come sooner than this after the last
/// one that was taken.
pub const KEY_REPEAT_MS: u64 = 120;

/// Lines scrolled by a page key.
pub const PAGE_LINES: usize = 10;

/// What the viewer shows.
#[derive(Clone, Copy, PartialEq, Eq, Debug)]
pub enum ViewMode {
    /// The list of results.
    Results,
    /// The text of the selected result.
    File,
}

/// The keys the viewer reacts to.
#[derive(Clone, Copy, PartialEq, Eq, Debug)]
pub enum Key {
    Up,
    Down,
    PageUp,
    PageDown,
    Enter,
    Esc,
    Other,
}

/// What the caller does after a key press.
#[derive(Clone, Copy, PartialEq, Eq, Debug)]
pub enum KeyOutcome {
    /// The key came too soon after the last one taken: nothing happens and
    /// the time of the last key stays.
    TooSoon,
    /// The viewer closes.
    Exit,
    /// Load the text of result `index`, then redraw the file view.
    Open(usize),
    /// Redraw the current view.
    Redraw,
    /// Nothing changed.
    Unchanged,
}

/// The viewer's state: the view, the selected result and the scroll offset.
#[derive(Clone, Copy, PartialEq, Eq, Debug)]
pub struct ViewState {
    pub mode: ViewMode,
    pub selected: usize,
    pub scroll: usize,
}

/// A key press would push the scroll offset past `usize::MAX`.
pub open spec fn scroll_overflows(st: ViewState, key: Key) -> bool {
    st.mode == ViewMode::File && ((key == Key::Down && st.scroll == usize::MAX) || (key
        == Key::PageDown && st.scroll > usize::MAX - PAGE_LINES))
}

/// Whether `key` can be taken in state `st` without pushing the scroll
/// offset past `usize::MAX`.
pub fn scroll_step_fits(st: &ViewState, key: Key) -> (r: bool)
    ensures
        r == !scroll_overflows(*st, key),
{
    match st.mode {
        ViewMode::Results => true,
        ViewMode::File => match key {
            Key::Down => st.scroll < usize::MAX,
            Key::PageDown => st.scroll <= usize::MAX - PAGE_LINES,
            _ => true,
        },
    }
}

/// The effect of a key press on a viewer of `count` results, `elapsed_ms`
/// after the last key taken.
pub open spec fn key_step(st: ViewState, key: Key, elapsed_ms: u64, count: nat) -> (ViewState, KeyOutcome) {
    if elapsed_ms < KEY_REPEAT_MS {
        (st, KeyOutcome::TooSoon)
    } else {
        match st.mode {
            ViewMode::Results => match key {
                Key::Up => if st.selected > 0 {
                    (ViewState { selected: (st.selected - 1) as usize, ..st }, KeyOutcome::Redraw)
                } else {
                    (st, KeyOutcome::Unchanged)
                },
                Key::Down => if st.selected + 1 < count {
                    (ViewState { selected: (st.selected + 1) as usize, ..st }, KeyOutcome::Redraw)
                } else {
                    (st, KeyOutcome::Unchanged)
                },
                Key::Enter => (
                    ViewState { mode: ViewMode::File, selected: st.selected, scroll: 0 },
                    KeyOutcome::Open(st.selected),
                ),
                Key::Esc => (st, KeyOutcome::Exit),
                _ => (st, KeyOutcome::Unchanged),
            },
            ViewMode::File => match key {
                Key::Up => if st.scroll > 0 {
                    (ViewState { scroll: (st.scroll - 1) as usize, ..st }, KeyOutcome::Redraw)
                } else {
                    (st, KeyOutcome::Unchanged)
                },
                Key::Down => (ViewState { scroll: (st.scroll + 1) as usize, ..st }, KeyOutcome::Redraw),
                Key::PageUp => (
                    ViewState { scroll: if st.scroll >= PAGE_LINES { (st.scroll - PAGE_LINES) as usize } else { 0 }, ..st },
                    KeyOutcome::Redraw,
                ),
                Key::PageDown => (
                    ViewState { scroll: (st.scroll + PAGE_LINES) as usize, ..st },
                    KeyOutcome::Redraw,
                ),
                Key::Enter | Key::Esc => (
                    ViewState { mode: ViewMode::Results, selected: st.selected, scroll: 0 },
                    KeyOutcome::Redraw,
                ),
                _ => (st, KeyOutcome::Unchanged),
            },
        }
    }
}

impl ViewState {
    /// The viewer as it opens: the results, the first one selected.
    pub fn new() -> (r: Self)
        ensures
            r == (ViewState { mode: ViewMode::Results, selected: 0, scroll: 0 }),
    {
        ViewState { mode: ViewMode::Results, selected: 0, scroll: 0 }
    }

    /// Handles a key press on a viewer of `count` results, `elapsed_ms` after
    /// the last key taken.
    pub fn on_key(&mut self, key: Key, elapsed_ms: u64, count: usize) -> (r: KeyOutcome)
        requires
            elapsed_ms >= KEY_REPEAT_MS ==> !scroll_overflows(*old(self), key),
        ensures
            (*final(self), r) == key_step(*old(self), key, elapsed_ms, count as nat),
    {
        if elapsed_ms < KEY_REPEAT_MS {
            return KeyOutcome::TooSoon;
        }
        match self.mode {
            ViewMode::Results => match key {
                Key::Up => {
                    if self.selected > 0 {
                        self.selected = self.selected - 1;
                        KeyOutcome::Redraw
                    } else {
                        KeyOutcome::Unchanged
                    }
                },
                Key::Down => {
                    if count > 0 && self.selected < count - 1 {
                        self.selected = self.selected + 1;
                        KeyOutcome::Redraw
                    } else {
                        KeyOutcome::Unchanged
                    }
                },
                Key::Enter => {
                    self.mode = ViewMode::File;
                    self.scroll = 0;
                    KeyOutcome::Open(self.selected)
                },
                Key::Esc => KeyOutcome::Exit,
                _ => KeyOutcome::Unchanged,
            },
            ViewMode::File => match key {
                Key::Up => {
                    if self.scroll > 0 {
                        self.scroll = self.scroll - 1;
                        KeyOutcome::Redraw
                    } else {
                        KeyOutcome::Unchanged
                    }
                },
                Key::Down => {
                    self.scroll = self.scroll + 1;
                    KeyOutcome::Redraw
                },
                Key::PageUp => {
                    self.scroll = self.scroll.saturating_sub(PAGE_LINES);
                    KeyOutcome::Redraw
                },
                Key::PageDown => {
                    self.scroll = self.scroll + PAGE_LINES;
                    KeyOutcome::Redraw
                },
                Key::Enter | Key::Esc => {
                    self.mode = ViewMode::Results;
                    self.scroll = 0;
                    KeyOutcome::Redraw
                },
                _ => KeyOutcome::Unchanged,
            },
        }
    }
}

// ---------------------------------------------------------------------------
// Laws of the viewer
// ---------------------------------------------------------------------------

/// A snippet is one line of at most 153 characters: 150 of text and `...`.
pub proof fn lemma_snippet_shape(content: Seq<char>, c: int)
    requires
        0 <= c <= content.len(),
    ensures
        window_at(content, c).len() <= 153,
        !window_at(content, c).contains('\n'),
{
    let w = window_at(content, c);
    if w.contains('\n') {
        let k = choose|k: int| 0 <= k < w.len() && w[k] == '\n';
    }
}

/// The snippet around position `c`: the characters from 75 before `c` (or
/// the start) up to 75 after it (or the end), newlines shown as spaces, then
/// `...` exactly when text follows.
pub proof fn lemma_snippet_window(content: Seq<char>, c: int)
    requires
        0 <= c <= content.len(),
    ensures
        ({
            let start = if c > 75 { c - 75 } else { 0 };
            let end = if c + 75 < content.len() { c + 75 } else { content.len() as int };
            let w = window_at(content, c);
            &&& w.len() == (end - start) + (if end < content.len() { 3int } else { 0int })
            &&& forall|i: int|
                0 <= i < end - start ==> #[trigger] w[i] == (if content[start + i] == '\n' {
                    ' '
                } else {
                    content[start + i]
                })
            &&& end < content.len() ==> w.subrange(end - start, end - start + 3) == seq!['.', '.', '.']
        }),
{
    let start = if c > 75 { c - 75 } else { 0 };
    let end = if c + 75 < content.len() { c + 75 } else { content.len() as int };
    let w = window_at(content, c);
    let raw = content.subrange(start, end) + (if end < content.len() {
        seq!['.', '.', '.']
    } else {
        seq![]
    });
    assert(w == flatten_lines(raw));
    assert forall|i: int| 0 <= i < end - start implies #[trigger] w[i] == (if content[start + i] == '\n' {
        ' '
    } else {
        content[start + i]
    }) by {
        assert(raw[i] == content[start + i]);
    }
    if end < content.len() {
        assert forall|i: int| 0 <= i < 3 implies #[trigger] w.subrange(end - start, end - start + 3)[i] == '.' by {
            assert(raw[end - start + i] == '.');
        }
        assert(w.subrange(end - start, end - start + 3) =~= seq!['.', '.', '.']);
    }
}

/// The viewer's state is sound for `count` results: a selected result
/// exists (or there are none and the first is selected), and the list view
/// is never scrolled.
pub open spec fn view_sound(st: ViewState, count: nat) -> bool {
    &&& (st.selected < count || st.selected == 0)
    &&& (st.mode == ViewMode::Results ==> st.scroll == 0)
}

/// Every key press keeps the viewer sound; opening a file opens the
/// selected result, which exists whenever there are results.
pub proof fn lemma_key_step_sound(st: ViewState, key: Key, elapsed_ms: u64, count: nat)
    requires
        view_sound(st, count),
    ensures
        view_sound(key_step(st, key, elapsed_ms, count).0, count),
        key_step(st, key, elapsed_ms, count).1 matches KeyOutcome::Open(i) ==> i == st.selected && (
        i < count || count == 0),
{
}


/// The viewer after a sequence of key presses, each with the time elapsed
/// since the last key taken, on `count` results.
pub open spec fn run_keys(st: ViewState, keys: Seq<(Key, u64)>, count: nat) -> ViewState
    decreases keys.len(),
{
    if keys.len() == 0 {
        st
    } else {
        key_step(run_keys(st, keys.drop_last(), count), keys.last().0, keys.last().1, count).0
    }
}

/// Whatever keys are pressed after the viewer opens, the selected result is
/// one that exists (at most the last, or the first when there are none), the
/// list view is never scrolled, and a file opened is the selected result.
pub proof fn lemma_viewer_runs(keys: Seq<(Key, u64)>, count: nat)
    ensures
        view_sound(run_keys(ViewState { mode: ViewMode::Results, selected: 0, scroll: 0 }, keys, count), count),
        run_keys(ViewState { mode: ViewMode::Results, selected: 0, scroll: 0 }, keys, count).selected
            <= if count > 0 { count - 1 } else { 0 },
    decreases keys.len(),
{
    let init = ViewState { mode: ViewMode::Results, selected: 0, scroll: 0 };
    if keys.len() > 0 {
        lemma_viewer_runs(keys.drop_last(), count);
        lemma_key_step_sound(run_keys(init, keys.drop_last(), count), keys.last().0, keys.last().1, count);
    }
}

/// In the list of results, a key taken moves the selection as follows: Up
/// redraws the list one result higher exactly when the selection is not the
/// first, Down redraws it one result lower exactly when a next result
/// exists, and otherwise neither redraws anything.
pub proof fn lemma_list_navigation(st: ViewState, elapsed_ms: u64, count: nat)
    requires
        st.mode == ViewMode::Results,
        elapsed_ms >= KEY_REPEAT_MS,
    ensures
        key_step(st, Key::Up, elapsed_ms, count).1 == (if st.selected > 0 {
            KeyOutcome::Redraw
        } else {
            KeyOutcome::Unchanged
        }),
        st.selected > 0 ==> key_step(st, Key::Up, elapsed_ms, count).0 == (ViewState {
            selected: (st.selected - 1) as usize,
            ..st
        }),
        key_step(st, Key::Down, elapsed_ms, count).1 == (if st.selected + 1 < count {
            KeyOutcome::Redraw
        } else {
            KeyOutcome::Unchanged
        }),
        st.selected + 1 < count ==> key_step(st, Key::Down, elapsed_ms, count).0 == (ViewState {
            selected: (st.selected + 1) as usize,
            ..st
        }),
        key_step(st, Key::Up, elapsed_ms, count).0.mode == ViewMode::Results,
        key_step(st, Key::Down, elapsed_ms, count).0.mode == ViewMode::Results,
{
}

/// Opening and closing: in the list, Enter opens the selected result in the
/// file view from its top and Esc closes the viewer; in the file view, Enter
/// and Esc go back to the list with the same result selected.
pub proof fn lemma_open_and_close(st: ViewState, elapsed_ms: u64, count: nat)
    requires
        elapsed_ms >= KEY_REPEAT_MS,
    ensures
        st.mode == ViewMode::Results ==> key_step(st, Key::Enter, elapsed_ms, count) == (
            ViewState { mode: ViewMode::File, selected: st.selected, scroll: 0 },
            KeyOutcome::Open(st.selected),
        ),
        st.mode == ViewMode::Results ==> key_step(st, Key::Esc, elapsed_ms, count) == (
            st,
            KeyOutcome::Exit,
        ),
        st.mode == ViewMode::File ==> key_step(st, Key::Enter, elapsed_ms, count) == (
            ViewState { mode: ViewMode::Results, selected: st.selected, scroll: 0 },
            KeyOutcome::Redraw,
        ),
        st.mode == ViewMode::File ==> key_step(st, Key::Esc, elapsed_ms, count) == (
            ViewState { mode: ViewMode::Results, selected: st.selected, scroll: 0 },
            KeyOutcome::Redraw,
        ),
{
}

/// A key pressed sooner than `KEY_REPEAT_MS` after the last one taken
/// changes nothing and draws nothing.
pub proof fn lemma_key_too_soon(st: ViewState, key: Key, elapsed_ms: u64, count: nat)
    requires
        elapsed_ms < KEY_REPEAT_MS,
    ensures
        key_step(st, key, elapsed_ms, count) == (st, KeyOutcome::TooSoon),
{
}


/// Scrolling the file view: Up, taken with a positive offset, redraws one
/// line higher and does nothing at the top; Up undoes Down and PageUp
/// undoes PageDown; the selection and the view stay.
pub proof fn lemma_file_scrolling(st: ViewState, e1: u64, e2: u64, count: nat)
    requires
        st.mode == ViewMode::File,
        e1 >= KEY_REPEAT_MS,
        e2 >= KEY_REPEAT_MS,
    ensures
        st.scroll > 0 ==> key_step(st, Key::Up, e1, count) == (
            ViewState { mode: ViewMode::File, selected: st.selected, scroll: (st.scroll - 1) as usize },
            KeyOutcome::Redraw,
        ),
        st.scroll == 0 ==> key_step(st, Key::Up, e1, count) == (st, KeyOutcome::Unchanged),
        st.scroll < usize::MAX ==> key_step(key_step(st, Key::Down, e1, count).0, Key::Up, e2, count)
            == (st, KeyOutcome::Redraw),
        st.scroll <= usize::MAX - PAGE_LINES ==> key_step(
            key_step(st, Key::PageDown, e1, count).0,
            Key::PageUp,
            e2,
            count,
        ) == (st, KeyOutcome::Redraw),
        st.scroll < usize::MAX ==> key_step(st, Key::Down, e1, count).0.scroll == st.scroll + 1,
{
}

} // verus!
