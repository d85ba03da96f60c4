//! The records stored about cleaned pages.
use vstd::prelude::*;
use vstd::hash_map::StringHashMap;
use vstd::string::StringExecFns;

verus! {

/// A stored page: its cleaned-text file, the URL it came from, its title
/// and its text.
#[derive(Debug)]
pub struct UrlEntry {
    pub id: Option<i32>,
    pub filename: String,
    pub url: String,
    pub title: Option<String>,
    pub clean_text: Option<String>,
}

/// A page to be stored.
#[derive(Debug)]
pub struct NewUrlEntry {
    pub filename: String,
    pub url: String,
    pub title: Option<String>,
    pub clean_text: Option<String>,
}

/// The URL and title stored for a file: the last entry with that file name,
/// or the fallback URL and no title.
pub open spec fn stored_link(entries: Seq<(Seq<char>, Seq<char>, Option<Seq<char>>)>, file: Seq<char>) -> (Seq<char>, Option<Seq<char>>)
    decreases entries.len(),
{
    if entries.len() == 0 {
        ("https://ishanleung.com"@, None)
    } else if entries.last().0 == file {
        (entries.last().1, entries.last().2)
    } else {
        stored_link(entries.drop_last(), file)
    }
}

/// The view of one stored entry: file name, URL, title.
pub open spec fn entry_view(e: (String, String, Option<String>)) -> (Seq<char>, Seq<char>, Option<Seq<char>>) {
    (e.0@, e.1@, match e.2 {
        Some(t) => Some(t@),
        None => None,
    })
}

fn clone_title(t: &Option<String>) -> (r: Option<String>)
    ensures
        r == *t,
{
    match t {
        Some(s) => Some(s.clone()),
        None => None,
    }
}

/// Each hit's file with the URL and title stored for it (the last stored
/// entry of that file wins; unknown files get the fallback URL and no title).
pub fn link_results(hits: &Vec<String>, entries: &Vec<(String, String, Option<String>)>) -> (r: Vec<(String, String, Option<String>)>)
    ensures
        r@.len() == hits@.len(),
        forall|i: int| 0 <= i < hits@.len() ==> {
            let (f, u, t) = #[trigger] entry_view(r@[i]);
            &&& f == hits@[i]@
            &&& (u, t) == stored_link(entries@.map_values(|e| entry_view(e)), hits@[i]@)
        },
{
    let ghost ev = entries@.map_values(|e| entry_view(e));
    let mut last: StringHashMap<usize> = StringHashMap::new();
    let mut j: usize = 0;
    while j < entries.len()
        invariant
            j <= entries.len(),
            ev == entries@.map_values(|e| entry_view(e)),
            forall|f: Seq<char>| #[trigger] last@.contains_key(f) ==> last@[f] < j && entries@[last@[f] as int].0@ == f
                && stored_link(ev.take(j as int), f) == (ev[last@[f] as int].1, ev[last@[f] as int].2),
            forall|f: Seq<char>| !(#[trigger] last@.contains_key(f)) ==> stored_link(ev.take(j as int), f) == stored_link(Seq::empty(), f),
        decreases entries.len() - j,
    {
        let ghost before = last@;
        last.insert(entries[j].0.clone(), j);
        proof {
            assert(ev.take(j + 1).drop_last() =~= ev.take(j as int));
            assert(ev.take(j + 1).last() == entry_view(entries@[j as int]));
        }
        j += 1;
    }
    assert(ev.take(entries.len() as int) =~= ev);
    let mut out: Vec<(String, String, Option<String>)> = Vec::new();
    let mut i: usize = 0;
    while i < hits.len()
        invariant
            i <= hits.len(),
            ev == entries@.map_values(|e| entry_view(e)),
            forall|f: Seq<char>| #[trigger] last@.contains_key(f) ==> last@[f] < entries@.len() && entries@[last@[f] as int].0@ == f
                && stored_link(ev, f) == (ev[last@[f] as int].1, ev[last@[f] as int].2),
            forall|f: Seq<char>| !(#[trigger] last@.contains_key(f)) ==> stored_link(ev, f) == stored_link(Seq::empty(), f),
            out@.len() == i,
            forall|k: int| 0 <= k < i ==> {
                let (f, u, t) = #[trigger] entry_view(out@[k]);
                &&& f == hits@[k]@
                &&& (u, t) == stored_link(ev, hits@[k]@)
            },
        decreases hits.len() - i,
    {
        let file = hits[i].clone();
        let linked = match last.get(hits[i].as_str()) {
            Some(k) => {
                let k = *k;
                (file, entries[k].1.clone(), clone_title(&entries[k].2))
            },
            None => (file, String::from_str("https://ishanleung.com"), None),
        };
        out.push(linked);
        i += 1;
    }
    out
}

} // verus!
