//! Settings and the small decisions of the command-line programs.
use vstd::prelude::*;
use vstd::string::StringExecFns;
use crate::text::{lowercase, str_eq, str_to_lowercase, strip_prefix, trim, trim_whitespace, has_prefix};

verus! {

/// The database used when `DATABASE_URL` is not set.
pub open spec fn default_database_url() -> Seq<char> {
    "sqlite://data/ishansearch.db"@
}

/// The database URL: the configured one, or the default.
pub fn database_url(configured: Option<String>) -> (r: String)
    ensures
        r@ == match configured {
            Some(u) => u@,
            None => default_database_url(),
        },
{
    match configured {
        Some(u) => u,
        None => String::from_str("sqlite://data/ishansearch.db"),
    }
}

/// The file path of a `sqlite://` database URL.
pub fn sqlite_path(url: &str) -> (r: Option<String>)
    ensures
        match r {
            Some(p) => has_prefix(url@, "sqlite://"@) && p@ == url@.skip(9),
            None => !has_prefix(url@, "sqlite://"@),
        },
{
    proof {
        reveal_strlit("sqlite://");
    }
    strip_prefix(url, "sqlite://")
}

/// A line typed at the search prompt, trimmed and lowercased.
#[derive(Debug, PartialEq, Eq)]
pub enum SearchInput {
    /// `exit`: leave the prompt.
    Exit,
    /// Nothing but whitespace.
    Empty,
    /// A query to run.
    Query(String),
}

/// What a line typed at the search prompt asks for.
pub open spec fn search_input_of(line: Seq<char>) -> (bool, bool, Seq<char>) {
    let q = lowercase(trim_whitespace(line));
    (q == "exit"@, q.len() == 0, q)
}

/// Reads a line typed at the search prompt.
pub fn parse_search_input(line: &str) -> (r: SearchInput)
    ensures
        match r {
            SearchInput::Exit => search_input_of(line@).0,
            SearchInput::Empty => !search_input_of(line@).0 && search_input_of(line@).1,
            SearchInput::Query(q) => !search_input_of(line@).0 && !search_input_of(line@).1 && q@
                == search_input_of(line@).2,
        },
{
    let trimmed = trim(line);
    let q = str_to_lowercase(trimmed.as_str());
    if str_eq(q.as_str(), "exit") {
        SearchInput::Exit
    } else if q.as_str().is_empty() {
        SearchInput::Empty
    } else {
        SearchInput::Query(q)
    }
}

/// Whether an answer to the erase prompt confirms: `yes`, in any case, with
/// surrounding whitespace.
pub fn confirms_erase(answer: &str) -> (r: bool)
    ensures
        r == (lowercase(trim_whitespace(answer@)) == "yes"@),
{
    let trimmed = trim(answer);
    let a = str_to_lowercase(trimmed.as_str());
    str_eq(a.as_str(), "yes")
}

} // verus!
