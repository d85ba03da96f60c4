# ishansearch

A small Wikipedia search engine: it crawls pages from a seed article, keeps
the readable text of each page, builds an inverted index with TF-IDF scores
and answers queries in a terminal viewer.

- `src/` is the library, verified with Verus: tokenizing, the index of term
  counts, query planning, phrase counting, the crawl's queue and visited set,
  file names and hashes of pages, text extraction from HTML, snippets and the
  viewer's key handling. Each public function states its result in its
  contract; the laws that span several calls are public proof functions.
- `app/` is the program around it: HTTP, the file system, the SQLite table of
  cleaned pages, the terminal UI and the floating-point TF-IDF scores.
- `tests/` runs the library on concrete inputs.
