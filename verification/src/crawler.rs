//! The bookkeeping of a breadth-first crawl of Wikipedia: which page to fetch
//! next, which pages were saved, which links go on the queue, and the names
//! under which pages are saved.
use vstd::prelude::*;
use vstd::utf8::encode_utf8;
use vstd::string::StringExecFns;
use vstd::hash_set::StringHashSet;
use std::collections::VecDeque;
use sha1::Digest;
use crate::cleaner::{select_attributes, selected_attributes};
use crate::text::{concat, contains_char, has_prefix, push_all, push_char, starts_with, strip_prefix};

verus! {

// ---------------------------------------------------------------------------
// Page names
// ---------------------------------------------------------------------------

/// The site every crawled link points into.
pub open spec fn wiki_base() -> Seq<char> {
    "https://en.wikipedia.org"@
}

/// The site every crawled link points into.
pub fn base_url() -> (r: &'static str)
    ensures
        r@ == wiki_base(),
{
    "https://en.wikipedia.org"
}

/// The SHA-1 digest of a byte string.
pub uninterp spec fn sha1_digest(data: Seq<u8>) -> Seq<u8>;

/// `sha1::Sha1::digest`. The hash function is not restated: the result is
/// the named function `sha1_digest` of the input bytes; it is 20 bytes long
/// (the output size of SHA-1, `U20` in the crate's types).
#[verifier::external_body]
fn sha1_of(data: &[u8]) -> (r: Vec<u8>)
    ensures
        r@ == sha1_digest(data@),
        r@.len() == 20,
{
    sha1::Sha1::digest(data).to_vec()
}

pub open spec fn lower_hex_digits() -> Seq<char> {
    seq!['0', '1', '2', '3', '4', '5', '6', '7', '8', '9', 'a', 'b', 'c', 'd', 'e', 'f']
}

pub open spec fn upper_hex_digits() -> Seq<char> {
    seq!['0', '1', '2', '3', '4', '5', '6', '7', '8', '9', 'A', 'B', 'C', 'D', 'E', 'F']
}

/// Two lowercase hexadecimal digits per byte.
pub open spec fn hex_lower(bytes: Seq<u8>) -> Seq<char>
    decreases bytes.len(),
{
    if bytes.len() == 0 {
        seq![]
    } else {
        hex_lower(bytes.drop_last()) + seq![
            lower_hex_digits()[(bytes.last() / 16) as int],
            lower_hex_digits()[(bytes.last() % 16) as int],
        ]
    }
}

/// The name a URL's page is saved under: its SHA-1 digest in lowercase hex.
pub open spec fn url_hash(url: Seq<char>) -> Seq<char> {
    hex_lower(sha1_digest(encode_utf8(url)))
}

/// Bytes in lowercase hexadecimal, two digits per byte.
pub fn to_lower_hex(bytes: &[u8]) -> (r: String)
    ensures
        r@ == hex_lower(bytes@),
{
    let digits: [char; 16] = [
        '0', '1', '2', '3', '4', '5', '6', '7', '8', '9', 'a', 'b', 'c', 'd', 'e', 'f',
    ];
    assert(digits@ =~= lower_hex_digits());
    let mut out = String::new();
    let mut i: usize = 0;
    while i < bytes.len()
        invariant
            i <= bytes@.len(),
            digits@ == lower_hex_digits(),
            out@ == hex_lower(bytes@.take(i as int)),
        decreases bytes.len() - i,
    {
        let b = bytes[i];
        push_char(&mut out, digits[(b / 16) as usize]);
        push_char(&mut out, digits[(b % 16) as usize]);
        assert(bytes@.take(i + 1).drop_last() =~= bytes@.take(i as int));
        assert(out@ =~= hex_lower(bytes@.take(i + 1)));
        i += 1;
    }
    assert(bytes@.take(bytes.len() as int) =~= bytes@);
    out
}

/// The SHA-1 digest of a URL's UTF-8 bytes, in lowercase hex.
pub fn hash_url(url: &str) -> (r: String)
    ensures
        r@ == url_hash(url@),
        r@.len() == 40,
{
    let digest = sha1_of(url.as_bytes());
    let r = to_lower_hex(digest.as_slice());
    proof {
        lemma_hex_lower_len(digest@);
    }
    r
}

/// Hex text has two digits per byte.
pub proof fn lemma_hex_lower_len(bytes: Seq<u8>)
    ensures
        hex_lower(bytes).len() == 2 * bytes.len(),
    decreases bytes.len(),
{
    if bytes.len() > 0 {
        lemma_hex_lower_len(bytes.drop_last());
    }
}

pub open spec fn is_ascii_alphanumeric_byte(b: u8) -> bool {
    (48 <= b <= 57) || (65 <= b <= 90) || (97 <= b <= 122)
}

/// An ASCII letter or digit stands for itself; every other byte becomes `%`
/// and two uppercase hexadecimal digits.
pub open spec fn percent_encode_byte(b: u8) -> Seq<char> {
    if is_ascii_alphanumeric_byte(b) {
        seq![b as char]
    } else {
        seq!['%', upper_hex_digits()[(b / 16) as int], upper_hex_digits()[(b % 16) as int]]
    }
}

/// Percent-encoding of every byte that is not an ASCII letter or digit.
pub open spec fn percent_encoded(bytes: Seq<u8>) -> Seq<char>
    decreases bytes.len(),
{
    if bytes.len() == 0 {
        seq![]
    } else {
        percent_encoded(bytes.drop_last()) + percent_encode_byte(bytes.last())
    }
}

/// `percent_encoding::utf8_percent_encode` with the `NON_ALPHANUMERIC` set,
/// collected into a `String`: each byte of the UTF-8 encoding that is not an
/// ASCII letter or digit becomes `%XX` with uppercase hex digits, the others
/// stay as they are (the crate's `AsciiSet::should_percent_encode` and
/// `percent_encode_byte`).
#[verifier::external_body]
fn percent_encode_non_alphanumeric(s: &str) -> (r: String)
    ensures
        r@ == percent_encoded(encode_utf8(s@)),
{
    percent_encoding::utf8_percent_encode(s, percent_encoding::NON_ALPHANUMERIC).to_string()
}

/// The part of a URL after the Wikipedia base, or the whole URL.
pub open spec fn url_path(url: Seq<char>) -> Seq<char> {
    if has_prefix(url, wiki_base()) {
        url.skip(wiki_base().len() as int)
    } else {
        url
    }
}

/// A file-name-safe form of a URL: its path, percent-encoded.
pub fn percent_safe_filename(url: &str) -> (r: String)
    ensures
        r@ == percent_encoded(encode_utf8(url_path(url@))),
{
    match strip_prefix(url, base_url()) {
        Some(path) => percent_encode_non_alphanumeric(path.as_str()),
        None => percent_encode_non_alphanumeric(url),
    }
}

/// What the crawl records about a saved page.
#[derive(Debug)]
pub struct ManifestEntry {
    pub hash: String,
    pub url: String,
    pub encoded_name: String,
}

/// The manifest record of a URL.
pub fn manifest_entry(url: &str) -> (r: ManifestEntry)
    ensures
        r.hash@ == url_hash(url@),
        r.url@ == url@,
        r.encoded_name@ == percent_encoded(encode_utf8(url_path(url@))),
{
    ManifestEntry { hash: hash_url(url), url: String::from_str(url), encoded_name: percent_safe_filename(url) }
}

/// A saved page starts with a comment line that records its URL.
pub open spec fn tagged_page(url: Seq<char>, body: Seq<char>) -> Seq<char> {
    "<!-- URL: "@ + url + " -->\n"@ + body
}

/// The text saved for a fetched page.
pub fn tag_page(url: &str, body: &str) -> (r: String)
    ensures
        r@ == tagged_page(url@, body@),
{
    let mut out = String::new();
    push_all(&mut out, "<!-- URL: ");
    push_all(&mut out, url);
    push_all(&mut out, " -->\n");
    push_all(&mut out, body);
    out
}

/// The file a page is saved in: `<output_dir>/<hash>.html`.
pub fn page_file_name(output_dir: &str, hash: &str) -> (r: String)
    ensures
        r@ == output_dir@ + "/"@ + hash@ + ".html"@,
{
    let mut out = String::new();
    push_all(&mut out, output_dir);
    push_all(&mut out, "/");
    push_all(&mut out, hash);
    push_all(&mut out, ".html");
    out
}

// ---------------------------------------------------------------------------
// Links
// ---------------------------------------------------------------------------

/// The page a link leads to, when it is an article link: it starts with
/// `/wiki/` and has no `:` (which marks special and talk pages).
pub open spec fn wiki_target(href: Seq<char>) -> Option<Seq<char>> {
    if has_prefix(href, "/wiki/"@) && !href.contains(':') {
        Some(wiki_base() + href)
    } else {
        None
    }
}

/// The full URL of an article link, if `href` is one.
pub fn wiki_link(href: &str) -> (r: Option<String>)
    ensures
        match r {
            Some(u) => wiki_target(href@) == Some(u@),
            None => wiki_target(href@) is None,
        },
{
    if starts_with(href, "/wiki/") && !contains_char(href, ':') {
        Some(concat(base_url(), href))
    } else {
        None
    }
}

/// The `href` attributes of a page's anchors, in the order `Html::select`
/// yields the anchors.
pub fn anchor_hrefs(body: &str) -> (r: Vec<Option<String>>)
    ensures
        selected_attributes(body@, "a"@, "href"@) == Some(r.deep_view()),
{
    select_attributes(body, "a", "href").unwrap()
}

/// The article links among `hrefs` that are not in `visited`, in order,
/// repeats kept.
pub open spec fn new_links(hrefs: Seq<Option<Seq<char>>>, visited: Seq<Seq<char>>) -> Seq<Seq<char>>
    decreases hrefs.len(),
{
    if hrefs.len() == 0 {
        seq![]
    } else {
        let rest = new_links(hrefs.drop_last(), visited);
        match hrefs.last() {
            Some(h) => match wiki_target(h) {
                Some(u) => if visited.contains(u) {
                    rest
                } else {
                    rest.push(u)
                },
                None => rest,
            },
            None => rest,
        }
    }
}

// ---------------------------------------------------------------------------
// The crawl
// ---------------------------------------------------------------------------

/// The number of pages a crawl saves at most.
pub const MAX_PAGES: usize = 100;

/// Taking the next URL to fetch: URLs already visited are dropped; once
/// `max` pages are visited the crawl ends, dropping the URL it took.
pub open spec fn next_step(queue: Seq<Seq<char>>, visited: Seq<Seq<char>>, max: nat) -> (Option<Seq<char>>, Seq<Seq<char>>)
    decreases queue.len(),
{
    if queue.len() == 0 {
        (None, queue)
    } else if visited.len() >= max {
        (None, queue.drop_first())
    } else if visited.contains(queue[0]) {
        next_step(queue.drop_first(), visited, max)
    } else {
        (Some(queue[0]), queue.drop_first())
    }
}

/// The state of a crawl: the URLs waiting to be fetched and the pages saved.
pub struct Crawler {
    queue: VecDeque<String>,
    visited: Vec<String>,
    visited_set: StringHashSet,
    max_pages: usize,
}

impl Crawler {
    pub closed spec fn wf(&self) -> bool {
        &&& self.visited.deep_view().no_duplicates()
        &&& forall|u: Seq<char>| #[trigger] self.visited_set@.contains(u) <==> self.visited.deep_view().contains(u)
        &&& self.visited@.len() <= self.max_pages
    }

    /// The URLs waiting, front first.
    pub closed spec fn queue(&self) -> Seq<Seq<char>> {
        self.queue@.map_values(|s: String| s@)
    }

    /// The URLs of the pages saved, in order.
    pub closed spec fn visited(&self) -> Seq<Seq<char>> {
        self.visited.deep_view()
    }

    pub closed spec fn max_pages(&self) -> nat {
        self.max_pages as nat
    }

    /// A crawl that starts at `start_url` and saves at most `max_pages` pages.
    pub fn new(start_url: &str, max_pages: usize) -> (r: Self)
        ensures
            r.wf(),
            r.queue() == seq![start_url@],
            r.visited() == Seq::<Seq<char>>::empty(),
            r.max_pages() == max_pages,
    {
        let mut queue: VecDeque<String> = VecDeque::new();
        queue.push_back(String::from_str(start_url));
        let r = Crawler { queue, visited: Vec::new(), visited_set: StringHashSet::new(), max_pages };
        assert(r.queue() =~= seq![start_url@]);
        assert(r.visited.deep_view() =~= Seq::<Seq<char>>::empty());
        r
    }

    /// The number of pages saved so far.
    pub fn pages_saved(&self) -> (n: usize)
        ensures
            n == self.visited().len(),
    {
        self.visited.len()
    }

    /// The next URL to fetch, or `None` when the crawl is over.
    pub fn next_url(&mut self) -> (r: Option<String>)
        requires
            old(self).wf(),
        ensures
            final(self).wf(),
            final(self).visited() == old(self).visited(),
            final(self).max_pages() == old(self).max_pages(),
            (match r {
                Some(u) => Some(u@),
                None => None,
            }, final(self).queue()) == next_step(old(self).queue(), old(self).visited(), old(self).max_pages()),
    {
        loop
            invariant
                self.wf(),
                self.visited() == old(self).visited(),
                self.max_pages() == old(self).max_pages(),
                next_step(self.queue(), self.visited(), self.max_pages()) == next_step(
                    old(self).queue(),
                    old(self).visited(),
                    old(self).max_pages(),
                ),
            decreases self.queue@.len(),
        {
            let ghost q = self.queue();
            match self.queue.pop_front() {
                None => {
                    return None;
                },
                Some(url) => {
                    assert(self.queue() =~= q.drop_first());
                    assert(q[0] == url@);
                    if self.visited.len() >= self.max_pages {
                        return None;
                    }
                    if !self.visited_set.contains(url.as_str()) {
                        return Some(url);
                    }
                },
            }
        }
    }

    /// Records a page saved from `url`, whose anchors carry `hrefs`, and
    /// queues the article links that are not saved yet.
    pub fn record_page(&mut self, url: &str, hrefs: &Vec<Option<String>>)
        requires
            old(self).wf(),
            !old(self).visited().contains(url@) ==> old(self).visited().len() < old(self).max_pages(),
        ensures
            final(self).wf(),
            final(self).max_pages() == old(self).max_pages(),
            final(self).visited() == (if old(self).visited().contains(url@) {
                old(self).visited()
            } else {
                old(self).visited().push(url@)
            }),
            final(self).queue() == old(self).queue() + new_links(hrefs.deep_view(), final(self).visited()),
    {
        if !self.visited_set.contains(url) {
            let ghost before = self.visited.deep_view();
            let owned = String::from_str(url);
            self.visited.push(owned.clone());
            self.visited_set.insert(owned);
            assert(self.visited.deep_view() =~= before.push(url@));
            assert forall|u: Seq<char>| #[trigger] self.visited_set@.contains(u) <==> self.visited.deep_view().contains(u) by {
                if u == url@ {
                    assert(self.visited.deep_view()[before.len() as int] == u);
                } else if before.contains(u) {
                    let k = choose|k: int| 0 <= k < before.len() && before[k] == u;
                    assert(self.visited.deep_view()[k] == u);
                } else if self.visited.deep_view().contains(u) {
                    let k = choose|k: int| 0 <= k < self.visited.deep_view().len() && self.visited.deep_view()[k] == u;
                    assert(before[k] == u);
                }
            }
        }
        let ghost q0 = self.queue();
        let mut i: usize = 0;
        while i < hrefs.len()
            invariant
                self.wf(),
                self.max_pages() == old(self).max_pages(),
                self.visited() == (if old(self).visited().contains(url@) {
                    old(self).visited()
                } else {
                    old(self).visited().push(url@)
                }),
                i <= hrefs.len(),
                self.queue() == q0 + new_links(hrefs.deep_view().take(i as int), self.visited()),
            decreases hrefs.len() - i,
        {
            let ghost before = self.queue();
            assert(hrefs.deep_view().take(i + 1).drop_last() =~= hrefs.deep_view().take(i as int));
            assert(hrefs.deep_view()[i as int] == match &hrefs@[i as int] {
                Some(h) => Some(h@),
                None => None,
            });
            match &hrefs[i] {
                Some(h) => {
                    match wiki_link(h.as_str()) {
                        Some(full) => {
                            if !self.visited_set.contains(full.as_str()) {
                                let ghost fv = full@;
                                self.queue.push_back(full);
                                assert(self.queue() =~= before.push(fv));
                            }
                        },
                        None => {},
                    }
                },
                None => {},
            }
            i += 1;
        }
        assert(hrefs.deep_view().take(hrefs.len() as int) =~= hrefs.deep_view());
    }
}

// ---------------------------------------------------------------------------
// Laws of the crawl
// ---------------------------------------------------------------------------

impl Crawler {
    /// A crawl never saves a page twice and never saves more than its limit.
    pub proof fn lemma_bounded(&self)
        requires
            self.wf(),
        ensures
            self.visited().no_duplicates(),
            self.visited().len() <= self.max_pages(),
    {
    }
}

/// The next URL handed out was waiting in the queue, is not saved yet, and
/// the limit is not reached; what stays queued is a suffix of the queue,
/// shorter by at least the URL handed out.
pub proof fn lemma_next_step_fresh(queue: Seq<Seq<char>>, visited: Seq<Seq<char>>, max: nat)
    ensures
        next_step(queue, visited, max).0 matches Some(u) ==> {
            &&& queue.contains(u)
            &&& !visited.contains(u)
            &&& visited.len() < max
        },
        exists|j: int| 0 <= j <= queue.len() && next_step(queue, visited, max).1 == #[trigger] queue.skip(j),
        next_step(queue, visited, max).0 is Some ==> next_step(queue, visited, max).1.len() < queue.len(),
    decreases queue.len(),
{
    if queue.len() == 0 {
        assert(queue.skip(0) =~= queue);
    } else if visited.len() >= max {
        assert(queue.drop_first() =~= queue.skip(1));
    } else if visited.contains(queue[0]) {
        let rest = queue.drop_first();
        lemma_next_step_fresh(rest, visited, max);
        if let Some(u) = next_step(rest, visited, max).0 {
            let k = choose|k: int| 0 <= k < rest.len() && rest[k] == u;
            assert(queue[k + 1] == u);
        }
        let j = choose|j: int| 0 <= j <= rest.len() && next_step(rest, visited, max).1 == #[trigger] rest.skip(j);
        assert(rest.skip(j) =~= queue.skip(j + 1));
    } else {
        assert(queue[0] == queue[0]);
        assert(queue.drop_first() =~= queue.skip(1));
    }
}

/// Breadth-first order: when the limit is not reached and `j` is the first
/// position of the queue holding a URL not saved yet, the next step hands
/// out that URL and leaves exactly the URLs queued after it.
pub proof fn lemma_next_step_takes_first_fresh(
    queue: Seq<Seq<char>>,
    visited: Seq<Seq<char>>,
    max: nat,
    j: int,
)
    requires
        0 <= j < queue.len(),
        visited.len() < max,
        !visited.contains(queue[j]),
        forall|i: int| 0 <= i < j ==> visited.contains(#[trigger] queue[i]),
    ensures
        next_step(queue, visited, max) == (Some(queue[j]), queue.skip(j + 1)),
    decreases j,
{
    if j == 0 {
        assert(queue.drop_first() =~= queue.skip(1));
    } else {
        assert(visited.contains(queue[0]));
        let rest = queue.drop_first();
        assert forall|i: int| 0 <= i < j - 1 implies visited.contains(#[trigger] rest[i]) by {
            assert(rest[i] == queue[i + 1]);
        }
        assert(rest[j - 1] == queue[j]);
        lemma_next_step_takes_first_fresh(rest, visited, max, j - 1);
        assert(rest.skip(j) =~= queue.skip(j + 1));
    }
}

/// When every queued URL is saved already, or the limit is reached, the next
/// step hands out nothing; with every URL saved, it empties the queue.
pub proof fn lemma_next_step_nothing_fresh(queue: Seq<Seq<char>>, visited: Seq<Seq<char>>, max: nat)
    requires
        visited.len() >= max || forall|i: int| 0 <= i < queue.len() ==> visited.contains(#[trigger] queue[i]),
    ensures
        next_step(queue, visited, max).0 is None,
        visited.len() < max ==> next_step(queue, visited, max).1.len() == 0,
    decreases queue.len(),
{
    if queue.len() > 0 && visited.len() < max {
        let rest = queue.drop_first();
        assert(visited.contains(queue[0]));
        assert forall|i: int| 0 <= i < rest.len() implies visited.contains(#[trigger] rest[i]) by {
            assert(rest[i] == queue[i + 1]);
        }
        lemma_next_step_nothing_fresh(rest, visited, max);
    }
}

/// A crawl from `queue` and `visited`, driven by the outcome of each fetch:
/// each URL handed out by `next_step` is fetched; a failed fetch (`None`)
/// saves nothing, a saved page (`Some(hrefs)`) is recorded and queues its new
/// links. The result is the number of fetches made and the number of links
/// queued.
pub open spec fn crawl_counts(
    queue: Seq<Seq<char>>,
    visited: Seq<Seq<char>>,
    max: nat,
    outcomes: Seq<Option<Seq<Option<Seq<char>>>>>,
) -> (nat, nat)
    decreases outcomes.len(),
{
    if outcomes.len() == 0 {
        (0, 0)
    } else {
        match next_step(queue, visited, max).0 {
            None => (0, 0),
            Some(u) => {
                let rest = next_step(queue, visited, max).1;
                match outcomes[0] {
                    None => {
                        let (f, l) = crawl_counts(rest, visited, max, outcomes.drop_first());
                        (f + 1, l)
                    },
                    Some(hrefs) => {
                        let v = if visited.contains(u) {
                            visited
                        } else {
                            visited.push(u)
                        };
                        let links = new_links(hrefs, v);
                        let (f, l) = crawl_counts(rest + links, v, max, outcomes.drop_first());
                        (f + 1, l + links.len())
                    },
                }
            },
        }
    }
}

/// A crawl makes at most as many requests as URLs it ever queued: those
/// queued at the start and the links its saved pages added.
pub proof fn lemma_crawl_requests_bounded(
    queue: Seq<Seq<char>>,
    visited: Seq<Seq<char>>,
    max: nat,
    outcomes: Seq<Option<Seq<Option<Seq<char>>>>>,
)
    ensures
        crawl_counts(queue, visited, max, outcomes).0 <= queue.len() + crawl_counts(
            queue,
            visited,
            max,
            outcomes,
        ).1,
    decreases outcomes.len(),
{
    if outcomes.len() > 0 {
        lemma_next_step_fresh(queue, visited, max);
        if let Some(u) = next_step(queue, visited, max).0 {
            let rest = next_step(queue, visited, max).1;
            match outcomes[0] {
                None => {
                    lemma_crawl_requests_bounded(rest, visited, max, outcomes.drop_first());
                },
                Some(hrefs) => {
                    let v = if visited.contains(u) {
                        visited
                    } else {
                        visited.push(u)
                    };
                    let links = new_links(hrefs, v);
                    lemma_crawl_requests_bounded(rest + links, v, max, outcomes.drop_first());
                },
            }
        }
    }
}

/// Every link a page adds to the queue is a Wikipedia article URL
/// (`https://en.wikipedia.org/wiki/...` without `:` in its path) that is not
/// saved yet.
pub proof fn lemma_new_links_are_articles(hrefs: Seq<Option<Seq<char>>>, visited: Seq<Seq<char>>)
    ensures
        forall|i: int|
            0 <= i < new_links(hrefs, visited).len() ==> {
                let u = #[trigger] new_links(hrefs, visited)[i];
                &&& has_prefix(u, wiki_base() + "/wiki/"@)
                &&& !u.skip(wiki_base().len() as int).contains(':')
                &&& !visited.contains(u)
            },
    decreases hrefs.len(),
{
    if hrefs.len() > 0 {
        let rest = new_links(hrefs.drop_last(), visited);
        lemma_new_links_are_articles(hrefs.drop_last(), visited);
        let all = new_links(hrefs, visited);
        assert forall|i: int| 0 <= i < all.len() implies {
            let u = #[trigger] all[i];
            &&& has_prefix(u, wiki_base() + "/wiki/"@)
            &&& !u.skip(wiki_base().len() as int).contains(':')
            &&& !visited.contains(u)
        } by {
            if i < rest.len() {
                assert(all[i] == rest[i]);
            } else {
                let h = hrefs.last()->0;
                let u = wiki_target(h)->0;
                assert(all[i] == u);
                let b = wiki_base();
                assert(u.skip(b.len() as int) =~= h);
                reveal_strlit("/wiki/");
                assert(h.take(6) == "/wiki/"@);
                assert(u.take(b.len() + 6int) =~= b + "/wiki/"@);
            }
        }
    }
}

/// Every article link of a page that is not saved yet is queued: an `href`
/// that starts with `/wiki/` and has no `:` puts the base URL followed by
/// the `href` into the queue.
pub proof fn lemma_new_links_complete(
    hrefs: Seq<Option<Seq<char>>>,
    visited: Seq<Seq<char>>,
    i: int,
    h: Seq<char>,
)
    requires
        0 <= i < hrefs.len(),
        hrefs[i] == Some(h),
        has_prefix(h, "/wiki/"@),
        !h.contains(':'),
        !visited.contains(wiki_base() + h),
    ensures
        new_links(hrefs, visited).contains(wiki_base() + h),
    decreases hrefs.len(),
{
    let rest = new_links(hrefs.drop_last(), visited);
    if i < hrefs.len() - 1 {
        assert(hrefs.drop_last()[i] == hrefs[i]);
        lemma_new_links_complete(hrefs.drop_last(), visited, i, h);
        let k = choose|k: int| 0 <= k < rest.len() && rest[k] == wiki_base() + h;
        let all = new_links(hrefs, visited);
        assert(all[k] == rest[k]);
    } else {
        assert(hrefs.last() == Some(h));
        assert(wiki_target(h) == Some(wiki_base() + h));
        let all = new_links(hrefs, visited);
        assert(all[rest.len() as int] == wiki_base() + h);
    }
}

/// Hex text is made of lowercase hexadecimal digits only.
pub proof fn lemma_hex_lower_digits(bytes: Seq<u8>)
    ensures
        forall|i: int| 0 <= i < hex_lower(bytes).len() ==> lower_hex_digits().contains(#[trigger] hex_lower(bytes)[i]),
    decreases bytes.len(),
{
    if bytes.len() > 0 {
        let rest = bytes.drop_last();
        lemma_hex_lower_digits(rest);
        lemma_hex_lower_len(rest);
        let b = bytes.last();
        let h = hex_lower(bytes);
        assert forall|i: int| 0 <= i < h.len() implies lower_hex_digits().contains(#[trigger] h[i]) by {
            if i < hex_lower(rest).len() {
                assert(h[i] == hex_lower(rest)[i]);
            } else if i == hex_lower(rest).len() {
                assert(h[i] == lower_hex_digits()[(b / 16) as int]);
            } else {
                assert(h[i] == lower_hex_digits()[(b % 16) as int]);
            }
        }
    }
}

/// A page name is made of lowercase hexadecimal digits only (forty of them,
/// as `hash_url` states).
pub proof fn lemma_url_hash_digits(url: Seq<char>)
    ensures
        forall|i: int| 0 <= i < url_hash(url).len() ==> lower_hex_digits().contains(#[trigger] url_hash(url)[i]),
{
    lemma_hex_lower_digits(sha1_digest(encode_utf8(url)));
}

/// A percent-encoded name is made of ASCII letters, digits and `%`.
pub proof fn lemma_percent_encoded_charset(bytes: Seq<u8>)
    ensures
        forall|i: int| 0 <= i < percent_encoded(bytes).len() ==> {
            let c = #[trigger] percent_encoded(bytes)[i];
            ||| ('0' <= c <= '9')
            ||| ('A' <= c <= 'Z')
            ||| ('a' <= c <= 'z')
            ||| c == '%'
        },
    decreases bytes.len(),
{
    if bytes.len() > 0 {
        let rest = bytes.drop_last();
        lemma_percent_encoded_charset(rest);
        let all = percent_encoded(bytes);
        let pre = percent_encoded(rest);
        let b = bytes.last();
        assert forall|i: int| 0 <= i < all.len() implies {
            let c = #[trigger] all[i];
            ||| ('0' <= c <= '9')
            ||| ('A' <= c <= 'Z')
            ||| ('a' <= c <= 'z')
            ||| c == '%'
        } by {
            if i < pre.len() {
                assert(all[i] == pre[i]);
            } else {
                let j = i - pre.len();
                assert(all[i] == percent_encode_byte(b)[j]);
                if is_ascii_alphanumeric_byte(b) {
                    assert((b as char) as u32 == b as u32);
                }
            }
        }
    }
}

} // verus!
