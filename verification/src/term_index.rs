//! The counting half of index building: for every term and document, how
//! often the term occurs there; for every term, in how many added documents
//! it occurs; for every document, how many tokens it has.
use vstd::prelude::*;
use vstd::hash_map::StringHashMap;
use vstd::string::StringExecFns;
use crate::indexer::{tokenize, tokens_of};

verus! {

broadcast use vstd::hash_map::group_hash_map_axioms;

/// How often `t` occurs in `tokens`.
pub open spec fn occurrences(tokens: Seq<Seq<char>>, t: Seq<char>) -> nat
    decreases tokens.len(),
{
    if tokens.len() == 0 {
        0
    } else {
        occurrences(tokens.drop_last(), t) + (if tokens.last() == t {
            1nat
        } else {
            0nat
        })
    }
}

/// The frequency recorded for document `doc` in a posting list.
pub open spec fn posting_freq(list: Seq<(usize, usize)>, doc: usize) -> nat
    decreases list.len(),
{
    if list.len() == 0 {
        0
    } else {
        posting_freq(list.drop_last(), doc) + (if list.last().0 == doc {
            list.last().1 as nat
        } else {
            0nat
        })
    }
}

/// No document appears twice in a posting list.
pub open spec fn distinct_docs(list: Seq<(usize, usize)>) -> bool {
    forall|a: int, b: int| 0 <= a < b < list.len() ==> list[a].0 != list[b].0
}

/// Counting one more token adds one when it is the term.
pub proof fn lemma_occurrences_step(s: Seq<Seq<char>>, i: int, t: Seq<char>)
    requires
        0 <= i < s.len(),
    ensures
        occurrences(s.take(i + 1), t) == occurrences(s.take(i), t) + (if s[i] == t {
            1nat
        } else {
            0nat
        }),
{
    assert(s.take(i + 1).drop_last() =~= s.take(i));
}

/// A term occurs at most once per token, and occurs at all exactly when
/// the sequence contains it.
pub proof fn lemma_occurrences_contains(s: Seq<Seq<char>>, t: Seq<char>)
    ensures
        occurrences(s, t) <= s.len(),
        occurrences(s, t) > 0 <==> s.contains(t),
    decreases s.len(),
{
    if s.len() > 0 {
        lemma_occurrences_contains(s.drop_last(), t);
        if s.drop_last().contains(t) {
            let k = choose|k: int| 0 <= k < s.drop_last().len() && s.drop_last()[k] == t;
            assert(s[k] == t);
        }
        if s.contains(t) && s.last() != t {
            let k = choose|k: int| 0 <= k < s.len() && s[k] == t;
            assert(s.drop_last()[k] == t);
        }
        if s.last() == t {
            assert(s[s.len() - 1] == t);
        }
    }
}

proof fn lemma_posting_push(l: Seq<(usize, usize)>, e: (usize, usize), d: usize)
    ensures
        posting_freq(l.push(e), d) == posting_freq(l, d) + (if e.0 == d {
            e.1 as nat
        } else {
            0nat
        }),
{
    assert(l.push(e).drop_last() =~= l);
}

proof fn lemma_posting_absent(l: Seq<(usize, usize)>, d: usize)
    requires
        forall|k: int| 0 <= k < l.len() ==> l[k].0 != d,
    ensures
        posting_freq(l, d) == 0,
    decreases l.len(),
{
    if l.len() > 0 {
        lemma_posting_absent(l.drop_last(), d);
    }
}

proof fn lemma_posting_at(l: Seq<(usize, usize)>, k: int)
    requires
        0 <= k < l.len(),
        distinct_docs(l),
    ensures
        posting_freq(l, l[k].0) == l[k].1,
    decreases l.len(),
{
    if k == l.len() - 1 {
        lemma_posting_absent(l.drop_last(), l[k].0);
    } else {
        lemma_posting_at(l.drop_last(), k);
    }
}

proof fn lemma_posting_update(l: Seq<(usize, usize)>, k: int, c: usize, x: usize)
    requires
        0 <= k < l.len(),
        distinct_docs(l),
    ensures
        posting_freq(l.update(k, (l[k].0, c)), x) == (if x == l[k].0 {
            c as nat
        } else {
            posting_freq(l, x)
        }),
    decreases l.len(),
{
    let u = l.update(k, (l[k].0, c));
    if k == l.len() - 1 {
        assert(u.drop_last() =~= l.drop_last());
        if x == l[k].0 {
            lemma_posting_absent(l.drop_last(), x);
        }
    } else {
        assert(u.drop_last() =~= l.drop_last().update(k, (l[k].0, c)));
        lemma_posting_update(l.drop_last(), k, c, x);
        if x == l[k].0 {
            lemma_posting_at(l.drop_last(), k);
        }
    }
}

/// The state of term `j` during a merge: once `done`, its postings carry the
/// counter under `doc_id` and the counter is cleared; before, all is as it was.
pub open spec fn merge_step_holds(
    list: Seq<(usize, usize)>,
    df: usize,
    counter: usize,
    list0: Seq<(usize, usize)>,
    df0: usize,
    counter0: usize,
    doc_id: usize,
    done: bool,
) -> bool {
    if done {
        &&& forall|x: usize| #[trigger]
            posting_freq(list, x) == posting_freq(list0, x) + (if x == doc_id {
                counter0 as nat
            } else {
                0nat
            })
        &&& df == df0 + 1
        &&& counter == 0
    } else {
        &&& list == list0
        &&& df == df0
        &&& counter == counter0
    }
}

proof fn lemma_posting_bounded(l: Seq<(usize, usize)>, d: usize, bound: nat)
    requires
        distinct_docs(l),
        forall|k: int| 0 <= k < l.len() && l[k].0 == d ==> l[k].1 <= bound,
    ensures
        posting_freq(l, d) <= bound,
{
    if exists|k: int| 0 <= k < l.len() && l[k].0 == d {
        let k = choose|k: int| 0 <= k < l.len() && l[k].0 == d;
        lemma_posting_at(l, k);
    } else {
        lemma_posting_absent(l, d);
    }
}

/// Occurrences of `t` in the tokens of every document named `d` in `docs`
/// (name, text).
pub open spec fn total_freq(docs: Seq<(Seq<char>, Seq<char>)>, t: Seq<char>, d: Seq<char>) -> nat
    decreases docs.len(),
{
    if docs.len() == 0 {
        0
    } else {
        total_freq(docs.drop_last(), t, d) + (if docs.last().0 == d {
            occurrences(tokens_of(docs.last().1), t)
        } else {
            0nat
        })
    }
}

/// The number of documents of `docs` whose tokens contain `t`.
pub open spec fn containing_docs(docs: Seq<(Seq<char>, Seq<char>)>, t: Seq<char>) -> nat
    decreases docs.len(),
{
    if docs.len() == 0 {
        0
    } else {
        containing_docs(docs.drop_last(), t) + (if tokens_of(docs.last().1).contains(t) {
            1nat
        } else {
            0nat
        })
    }
}

/// The number of tokens of the documents named `d` in `docs`.
pub open spec fn total_len(docs: Seq<(Seq<char>, Seq<char>)>, d: Seq<char>) -> nat
    decreases docs.len(),
{
    if docs.len() == 0 {
        0
    } else {
        total_len(docs.drop_last(), d) + (if docs.last().0 == d {
            tokens_of(docs.last().1).len()
        } else {
            0nat
        })
    }
}

/// No two documents of the list share a name.
pub open spec fn names_distinct(docs: Seq<(Seq<char>, Seq<char>)>) -> bool {
    forall|a: int, b: int| 0 <= a < b < docs.len() ==> docs[a].0 != docs[b].0
}

/// The view of a list of (name, text) documents.
pub open spec fn docs_view(docs: Seq<(String, String)>) -> Seq<(Seq<char>, Seq<char>)> {
    docs.map_values(|p: (String, String)| (p.0@, p.1@))
}

/// Some position of `origin` holds `(jj, kk)`.
pub open spec fn covered(origin: Seq<(int, int)>, jj: int, kk: int) -> bool {
    exists|a: int| 0 <= a < origin.len() && #[trigger] origin[a] == (jj, kk)
}

/// The term–document counts of a collection of tokenized documents.
pub struct TermIndex {
    term_ids: StringHashMap<usize>,
    terms: Vec<String>,
    postings: Vec<Vec<(usize, usize)>>,
    doc_freqs: Vec<usize>,
    doc_ids: StringHashMap<usize>,
    docs: Vec<String>,
    doc_lengths: Vec<usize>,
    scratch: Vec<usize>,
    total_tokens: usize,
    additions: usize,
}

/// One term–document pair of the index with the counts that score it.
#[derive(Debug)]
pub struct TermDocStats {
    pub term: String,
    pub doc: String,
    /// Occurrences of the term in the document.
    pub freq: usize,
    /// Tokens in the document.
    pub doc_length: usize,
    /// Added documents that contain the term.
    pub doc_freq: usize,
}

impl TermIndex {
    /// Everything but the scratch counters agrees.
    pub closed spec fn consistent(&self) -> bool {
        let n = self.terms@.len();
        let m = self.docs@.len();
        &&& self.postings@.len() == n
        &&& self.doc_freqs@.len() == n
        &&& self.scratch@.len() == n
        &&& self.doc_lengths@.len() == m
        &&& self.terms.deep_view().no_duplicates()
        &&& self.docs.deep_view().no_duplicates()
        &&& forall|t: Seq<char>| #[trigger]
            self.term_ids@.contains_key(t) <==> self.terms.deep_view().contains(t)
        &&& forall|i: int| 0 <= i < n ==> self.term_ids@[#[trigger] self.terms@[i]@] == i
        &&& forall|d: Seq<char>| #[trigger]
            self.doc_ids@.contains_key(d) <==> self.docs.deep_view().contains(d)
        &&& forall|i: int| 0 <= i < m ==> self.doc_ids@[#[trigger] self.docs@[i]@] == i
        &&& forall|i: int| 0 <= i < n ==> distinct_docs(#[trigger] self.postings@[i]@)
        &&& forall|i: int, k: int|
            0 <= i < n && 0 <= k < self.postings@[i]@.len() ==> {
                let e = #[trigger] self.postings@[i]@[k];
                &&& e.0 < m
                &&& 0 < e.1 <= self.doc_lengths@[e.0 as int]
            }
        &&& forall|i: int| 0 <= i < m ==> #[trigger] self.doc_lengths@[i] <= self.total_tokens
        &&& forall|i: int| 0 <= i < n ==> #[trigger] self.doc_freqs@[i] <= self.additions
        &&& forall|i: int| 0 <= i < n ==> #[trigger] self.postings@[i]@.len() <= self.doc_freqs@[i]
        &&& m <= self.additions
    }

    /// The invariant of the index between calls.
    pub closed spec fn wf(&self) -> bool {
        &&& self.consistent()
        &&& forall|i: int| 0 <= i < self.scratch@.len() ==> #[trigger] self.scratch@[i] == 0
    }

    /// The distinct terms seen so far, in order of first appearance.
    pub closed spec fn terms(&self) -> Seq<Seq<char>> {
        self.terms.deep_view()
    }

    /// The distinct document names added so far, in order of first addition.
    pub closed spec fn documents(&self) -> Seq<Seq<char>> {
        self.docs.deep_view()
    }

    /// Occurrences of term `t` in document `d`, over every addition of `d`.
    pub closed spec fn freq(&self, t: Seq<char>, d: Seq<char>) -> nat {
        if self.term_ids@.contains_key(t) && self.doc_ids@.contains_key(d) {
            posting_freq(self.postings@[self.term_ids@[t] as int]@, self.doc_ids@[d])
        } else {
            0
        }
    }

    /// The number of additions whose tokens contain `t`.
    pub closed spec fn doc_freq(&self, t: Seq<char>) -> nat {
        if self.term_ids@.contains_key(t) {
            self.doc_freqs@[self.term_ids@[t] as int] as nat
        } else {
            0
        }
    }

    /// The number of tokens added under document name `d`.
    pub closed spec fn doc_len(&self, d: Seq<char>) -> nat {
        if self.doc_ids@.contains_key(d) {
            self.doc_lengths@[self.doc_ids@[d] as int] as nat
        } else {
            0
        }
    }

    /// Tokens added in all.
    pub closed spec fn total_tokens(&self) -> nat {
        self.total_tokens as nat
    }

    /// Documents added in all, counting repeated names each time.
    pub closed spec fn additions(&self) -> nat {
        self.additions as nat
    }

    proof fn lemma_term_slot(&self, t: Seq<char>)
        requires
            self.consistent(),
            self.term_ids@.contains_key(t),
        ensures
            0 <= self.term_ids@[t] < self.terms@.len(),
            self.terms@[self.term_ids@[t] as int]@ == t,
    {
        assert(self.terms.deep_view().contains(t));
        let k = choose|k: int| 0 <= k < self.terms.deep_view().len() && self.terms.deep_view()[k] == t;
        assert(self.terms@[k]@ == t);
    }

    proof fn lemma_doc_slot(&self, d: Seq<char>)
        requires
            self.consistent(),
            self.doc_ids@.contains_key(d),
        ensures
            0 <= self.doc_ids@[d] < self.docs@.len(),
            self.docs@[self.doc_ids@[d] as int]@ == d,
    {
        assert(self.docs.deep_view().contains(d));
        let k = choose|k: int| 0 <= k < self.docs.deep_view().len() && self.docs.deep_view()[k] == d;
        assert(self.docs@[k]@ == d);
    }

    proof fn lemma_term_at(&self, j: int)
        requires
            self.consistent(),
            0 <= j < self.terms@.len(),
        ensures
            self.term_ids@.contains_key(self.terms@[j]@),
            self.term_ids@[self.terms@[j]@] == j,
    {
        assert(self.terms.deep_view()[j] == self.terms@[j]@);
    }

    /// An index of no documents.
    pub fn new() -> (r: Self)
        ensures
            r.wf(),
            r.terms() == Seq::<Seq<char>>::empty(),
            r.documents() == Seq::<Seq<char>>::empty(),
            forall|t: Seq<char>, d: Seq<char>| r.freq(t, d) == 0,
            forall|t: Seq<char>| r.doc_freq(t) == 0,
            forall|d: Seq<char>| r.doc_len(d) == 0,
            r.total_tokens() == 0,
            r.additions() == 0,
    {
        let r = TermIndex {
            term_ids: StringHashMap::new(),
            terms: Vec::new(),
            postings: Vec::new(),
            doc_freqs: Vec::new(),
            doc_ids: StringHashMap::new(),
            docs: Vec::new(),
            doc_lengths: Vec::new(),
            scratch: Vec::new(),
            total_tokens: 0,
            additions: 0,
        };
        assert(r.terms.deep_view() =~= Seq::<Seq<char>>::empty());
        assert(r.docs.deep_view() =~= Seq::<Seq<char>>::empty());
        r
    }

    /// The number of distinct documents (`N` of the scoring formula).
    pub fn num_documents(&self) -> (n: usize)
        ensures
            n == self.documents().len(),
    {
        self.docs.len()
    }

    /// The id of term `t`, adding it with an empty posting list when new.
    fn intern(&mut self, t: &String) -> (id: usize)
        requires
            old(self).consistent(),
        ensures
            final(self).consistent(),
            id < final(self).terms@.len(),
            final(self).terms@[id as int]@ == t@,
            final(self).terms.deep_view() == (if old(self).terms.deep_view().contains(t@) {
                old(self).terms.deep_view()
            } else {
                old(self).terms.deep_view().push(t@)
            }),
            forall|i: int|
                0 <= i < old(self).terms@.len() ==> #[trigger] final(self).postings@[i]
                    == old(self).postings@[i],
            forall|i: int|
                0 <= i < old(self).terms@.len() ==> #[trigger] final(self).doc_freqs@[i]
                    == old(self).doc_freqs@[i],
            forall|i: int|
                0 <= i < old(self).terms@.len() ==> #[trigger] final(self).scratch@[i]
                    == old(self).scratch@[i],
            !old(self).terms.deep_view().contains(t@) ==> {
                &&& final(self).postings@[id as int]@ == Seq::<(usize, usize)>::empty()
                &&& final(self).doc_freqs@[id as int] == 0
                &&& final(self).scratch@[id as int] == 0
            },
            final(self).term_ids@ == (if old(self).terms.deep_view().contains(t@) {
                old(self).term_ids@
            } else {
                old(self).term_ids@.insert(t@, id)
            }),
            final(self).docs == old(self).docs,
            final(self).doc_ids@ == old(self).doc_ids@,
            final(self).doc_lengths == old(self).doc_lengths,
            final(self).total_tokens == old(self).total_tokens,
            final(self).additions == old(self).additions,
    {
        match self.term_ids.get(t.as_str()) {
            Some(id) => {
                let id = *id;
                assert(self.terms.deep_view().contains(t@));
                proof {
                    let k = choose|k: int|
                        0 <= k < self.terms.deep_view().len() && self.terms.deep_view()[k] == t@;
                    assert(self.terms@[k]@ == t@);
                }
                id
            },
            None => {
                let id = self.terms.len();
                let ghost old_terms = self.terms.deep_view();
                self.terms.push(t.clone());
                self.postings.push(Vec::new());
                self.doc_freqs.push(0);
                self.scratch.push(0);
                self.term_ids.insert(t.clone(), id);
                assert(self.terms.deep_view() =~= old_terms.push(t@));
                assert forall|i: int| 0 <= i < self.terms@.len() implies self.term_ids@[
                    #[trigger] self.terms@[i]@] == i by {
                    if i < id {
                        assert(old_terms[i] == self.terms@[i]@);
                        assert(old_terms[i] != t@);
                    }
                }
                assert forall|i: int| 0 <= i < self.terms@.len() implies distinct_docs(
                    #[trigger] self.postings@[i]@,
                ) by {}
                assert(self.terms.deep_view().no_duplicates());
                assert forall|u: Seq<char>| #[trigger]
                    self.term_ids@.contains_key(u) <==> self.terms.deep_view().contains(u) by {
                    if u == t@ {
                        assert(self.terms.deep_view()[id as int] == u);
                    } else if old_terms.contains(u) {
                        let k = choose|k: int| 0 <= k < old_terms.len() && old_terms[k] == u;
                        assert(self.terms.deep_view()[k] == u);
                    } else if self.terms.deep_view().contains(u) {
                        let k = choose|k: int|
                            0 <= k < self.terms.deep_view().len() && self.terms.deep_view()[k] == u;
                        assert(old_terms[k] == u);
                    }
                }
                assert(forall|i: int, k: int|
                    0 <= i < self.terms@.len() && 0 <= k < self.postings@[i]@.len() ==> {
                        let e = #[trigger] self.postings@[i]@[k];
                        &&& e.0 < self.docs@.len()
                        &&& 0 < e.1 <= self.doc_lengths@[e.0 as int]
                    });
                assert(forall|i: int| 0 <= i < self.terms@.len() ==> #[trigger] self.doc_freqs@[i] <= self.additions);
                id
            },
        }
    }

    /// The id of document `name`, adding it with length 0 when new.
    fn document_id(&mut self, name: &str) -> (r: (usize, bool))
        requires
            old(self).wf(),
            old(self).docs@.len() < old(self).additions,
        ensures
            final(self).wf(),
            r.1 == !old(self).docs.deep_view().contains(name@),
            r.1 ==> r.0 == old(self).docs@.len(),
            r.0 < final(self).docs@.len(),
            final(self).docs@[r.0 as int]@ == name@,
            final(self).docs.deep_view() == (if r.1 {
                old(self).docs.deep_view().push(name@)
            } else {
                old(self).docs.deep_view()
            }),
            final(self).doc_ids@ == (if r.1 {
                old(self).doc_ids@.insert(name@, r.0)
            } else {
                old(self).doc_ids@
            }),
            final(self).doc_lengths@ == (if r.1 {
                old(self).doc_lengths@.push(0)
            } else {
                old(self).doc_lengths@
            }),
            final(self).terms == old(self).terms,
            final(self).term_ids@ == old(self).term_ids@,
            final(self).postings == old(self).postings,
            final(self).doc_freqs == old(self).doc_freqs,
            final(self).scratch == old(self).scratch,
            final(self).total_tokens == old(self).total_tokens,
            final(self).additions == old(self).additions,
    {
        match self.doc_ids.get(name) {
            Some(id) => {
                let id = *id;
                proof {
                    assert(self.docs.deep_view().contains(name@));
                    let k = choose|k: int|
                        0 <= k < self.docs.deep_view().len() && self.docs.deep_view()[k] == name@;
                    assert(self.docs@[k]@ == name@);
                }
                (id, false)
            },
            None => {
                let id = self.docs.len();
                let ghost old_docs = self.docs.deep_view();
                let owned = String::from_str(name);
                self.docs.push(owned.clone());
                self.doc_lengths.push(0);
                self.doc_ids.insert(owned, id);
                assert(self.docs.deep_view() =~= old_docs.push(name@));
                assert forall|i: int| 0 <= i < self.docs@.len() implies self.doc_ids@[
                    #[trigger] self.docs@[i]@] == i by {
                    if i < id {
                        assert(old_docs[i] == self.docs@[i]@);
                        assert(old_docs[i] != name@);
                    }
                }
                assert forall|u: Seq<char>| #[trigger]
                    self.doc_ids@.contains_key(u) <==> self.docs.deep_view().contains(u) by {
                    if u == name@ {
                        assert(self.docs.deep_view()[id as int] == u);
                    } else if old_docs.contains(u) {
                        let k = choose|k: int| 0 <= k < old_docs.len() && old_docs[k] == u;
                        assert(self.docs.deep_view()[k] == u);
                    } else if self.docs.deep_view().contains(u) {
                        let k = choose|k: int|
                            0 <= k < self.docs.deep_view().len() && self.docs.deep_view()[k] == u;
                        assert(old_docs[k] == u);
                    }
                }
                assert(self.docs.deep_view().no_duplicates());
                assert(forall|i: int| 0 <= i < self.docs@.len() ==> #[trigger] self.doc_lengths@[i] <= self.total_tokens);
                (id, true)
            },
        }
    }

    /// Counts one document's tokens into the index under the name `name`.
    pub fn add_document(&mut self, name: &str, tokens: &Vec<String>)
        requires
            old(self).wf(),
            old(self).total_tokens() + tokens.len() <= usize::MAX,
            old(self).additions() < usize::MAX,
        ensures
            final(self).wf(),
            forall|t: Seq<char>, d: Seq<char>| #[trigger]
                final(self).freq(t, d) == old(self).freq(t, d) + (if d == name@ {
                    occurrences(tokens.deep_view(), t)
                } else {
                    0nat
                }),
            forall|t: Seq<char>| #[trigger]
                final(self).doc_freq(t) == old(self).doc_freq(t) + (if tokens.deep_view().contains(
                    t,
                ) {
                    1nat
                } else {
                    0nat
                }),
            forall|d: Seq<char>| #[trigger]
                final(self).doc_len(d) == old(self).doc_len(d) + (if d == name@ {
                    tokens.len() as nat
                } else {
                    0nat
                }),
            final(self).documents() == (if old(self).documents().contains(name@) {
                old(self).documents()
            } else {
                old(self).documents().push(name@)
            }),
            old(self).terms().len() <= final(self).terms().len(),
            final(self).terms().subrange(0, old(self).terms().len() as int) == old(self).terms(),
            forall|t: Seq<char>| #[trigger]
                final(self).terms().contains(t) <==> (old(self).terms().contains(t)
                    || tokens.deep_view().contains(t)),
            final(self).terms().no_duplicates(),
            final(self).total_tokens() == old(self).total_tokens() + tokens.len(),
            final(self).additions() == old(self).additions() + 1,
    {
        let ghost toks = tokens.deep_view();
        let ghost n0 = self.terms@.len();
        let ghost terms0 = self.terms.deep_view();
        let ghost postings0 = self.postings@;
        let ghost dfs0 = self.doc_freqs@;
        let ghost term_ids0 = self.term_ids@;
        let ghost doc_ids0 = self.doc_ids@;
        let ghost lengths0 = self.doc_lengths@;
        let ghost m0 = self.docs@.len();
        self.additions = self.additions + 1;
        assert(self.wf());
        let (doc_id, new_doc) = self.document_id(name);
        // The document's length and the counters first, so that every posting
        // stays bounded by its document's length throughout.
        let n = tokens.len();
        let len_before = self.doc_lengths[doc_id];
        self.doc_lengths.set(doc_id, len_before + n);
        self.total_tokens = self.total_tokens + n;
        assert(self.consistent());
        proof {
            if !new_doc {
                assert(old(self).docs.deep_view().contains(name@));
                old(self).lemma_doc_slot(name@);
                assert(old(self).docs@[doc_id as int]@ == name@);
                assert(old(self).docs.deep_view()[doc_id as int] == name@);
                assert(old(self).doc_ids@[name@] == doc_id) by {
                    old(self).lemma_doc_slot(name@);
                    assert(old(self).docs.deep_view()[old(self).doc_ids@[name@] as int] == name@);
                }
            }
        }
        let ghost docs1 = self.docs@;
        let ghost doc_ids1 = self.doc_ids@;
        let ghost lengths1 = self.doc_lengths@;
        // Count the tokens per term.
        let mut touched: Vec<usize> = Vec::new();
        let mut i: usize = 0;
        while i < n
            invariant
                n == tokens.len(),
                toks == tokens.deep_view(),
                i <= n,
                self.consistent(),
                doc_id < self.docs@.len(),
                self.docs@[doc_id as int]@ == name@,
                self.docs@ == docs1,
                self.doc_ids@ == doc_ids1,
                self.doc_lengths@ == lengths1,
                postings0 == old(self).postings@,
                dfs0 == old(self).doc_freqs@,
                terms0 == old(self).terms.deep_view(),
                n0 == old(self).terms@.len(),
                lengths0 == old(self).doc_lengths@,
                doc_ids0 == old(self).doc_ids@,
                m0 == old(self).docs@.len(),
                new_doc == !old(self).docs.deep_view().contains(name@),
                new_doc ==> doc_id == m0,
                !new_doc ==> doc_ids0[name@] == doc_id,
                self.docs.deep_view() == (if new_doc {
                    old(self).docs.deep_view().push(name@)
                } else {
                    old(self).docs.deep_view()
                }),
                doc_ids1 == (if new_doc {
                    doc_ids0.insert(name@, doc_id)
                } else {
                    doc_ids0
                }),
                lengths1.len() == (if new_doc { m0 + 1 } else { m0 + 0 }),
                lengths1[doc_id as int] == (if new_doc { 0 } else { lengths0[doc_id as int] as int }) + n,
                forall|x: int| 0 <= x < lengths1.len() && x != doc_id ==> #[trigger] lengths1[x] == lengths0[x],
                self.total_tokens == old(self).total_tokens + n,
                self.additions == old(self).additions + 1,
                n0 <= self.terms@.len(),
                self.terms.deep_view().subrange(0, n0 as int) == terms0,
                forall|u: Seq<char>| #[trigger]
                    self.terms.deep_view().contains(u) <==> (terms0.contains(u) || toks.take(
                        i as int,
                    ).contains(u)),
                forall|j: int|
                    0 <= j < n0 ==> #[trigger] self.postings@[j] == postings0[j]
                        && self.doc_freqs@[j] == dfs0[j],
                forall|j: int|
                    n0 <= j < self.terms@.len() ==> #[trigger] self.postings@[j]@.len() == 0
                        && self.doc_freqs@[j] == 0,
                forall|j: int|
                    0 <= j < self.terms@.len() ==> #[trigger] self.scratch@[j] == occurrences(
                        toks.take(i as int),
                        self.terms@[j]@,
                    ),
                forall|a: int, b: int|
                    0 <= a < b < touched@.len() ==> touched@[a] != touched@[b],
                forall|a: int| 0 <= a < touched@.len() ==> touched@[a] < self.terms@.len(),
                forall|j: int|
                    0 <= j < self.terms@.len() ==> (#[trigger] self.scratch@[j] > 0
                        <==> touched@.contains(j as usize)),
            decreases n - i,
        {
            let ghost before = self.terms.deep_view();
            let ghost scratch_before = self.scratch@;
            let ghost postings_before = self.postings@;
            let ghost dfs_before = self.doc_freqs@;
            let ghost len_before_intern = self.terms@.len();
            let id = self.intern(&tokens[i]);
            proof {
                lemma_occurrences_contains(toks.take(i as int), tokens@[i as int]@);
                assert(toks[i as int] == tokens@[i as int]@);
                assert(self.terms.deep_view()[id as int] == tokens@[i as int]@);
                if !before.contains(tokens@[i as int]@) {
                    if id < len_before_intern {
                        assert(before[id as int] == tokens@[i as int]@);
                    }
                    assert(self.terms.deep_view().len() == self.terms@.len());
                    assert(self.terms.deep_view() == before.push(tokens@[i as int]@));
                    assert(id == len_before_intern);
                }
                // Counters of the terms known before are unchanged; a new term
                // has not occurred yet.
                assert forall|j: int|
                    0 <= j < self.terms@.len() implies #[trigger] self.scratch@[j] == occurrences(
                    toks.take(i as int),
                    self.terms@[j]@,
                ) by {
                    assert(self.terms.deep_view()[j] == self.terms@[j]@);
                    if j < len_before_intern {
                        assert(self.terms.deep_view()[j] == before[j]);
                        assert(self.scratch@[j] == scratch_before[j]);
                    } else {
                        assert(before.contains(tokens@[i as int]@) ==> self.terms.deep_view().len() == len_before_intern);
                        assert(!before.contains(tokens@[i as int]@));
                        assert(j == id);
                        assert(!toks.take(i as int).contains(tokens@[i as int]@));
                        lemma_occurrences_contains(toks.take(i as int), self.terms@[j]@);
                    }
                }
                assert forall|j: int|
                    n0 <= j < self.terms@.len() implies #[trigger] self.postings@[j]@.len() == 0
                    && self.doc_freqs@[j] == 0 by {
                    if j < len_before_intern {
                        assert(self.postings@[j] == postings_before[j]);
                        assert(self.doc_freqs@[j] == dfs_before[j]);
                        assert(postings_before[j]@.len() == 0);
                    } else {
                        assert(before.contains(tokens@[i as int]@) ==> self.terms.deep_view().len() == len_before_intern);
                        assert(j == id);
                    }
                }
                lemma_occurrences_contains(toks.take(i as int), self.terms@[id as int]@);
            }
            let c = self.scratch[id];
            assert(c <= i);
            let ghost touched_before = touched@;
            proof {
                assert forall|j: int| 0 <= j < len_before_intern implies (scratch_before[j] > 0
                    <==> touched_before.contains(j as usize)) by {
                    assert(self.scratch@[j] == scratch_before[j]);
                }
                if id >= len_before_intern {
                    assert(!touched_before.contains(id));
                }
            }
            if c == 0 {
                touched.push(id);
            }
            self.scratch.set(id, c + 1);
            proof {
                assert forall|j: int|
                    0 <= j < self.terms@.len() implies (#[trigger] self.scratch@[j] > 0
                    <==> touched@.contains(j as usize)) by {
                    if j != id {
                        if touched@.contains(j as usize) {
                            let a = choose|a: int| 0 <= a < touched@.len() && touched@[a] == j as usize;
                            if a < touched_before.len() {
                                assert(touched_before[a] == j as usize);
                            }
                        }
                        if touched_before.contains(j as usize) {
                            let a = choose|a: int| 0 <= a < touched_before.len() && touched_before[a] == j as usize;
                            assert(touched@[a] == j as usize);
                        }
                        if j >= len_before_intern {
                            assert(j == id);
                        }
                    } else {
                        if c == 0 {
                            assert(touched@[touched@.len() - 1] == id);
                        } else {
                            let a = choose|a: int| 0 <= a < touched_before.len() && touched_before[a] == id;
                            assert(touched@[a] == id);
                        }
                    }
                }
                assert(toks.take(i + 1).drop_last() =~= toks.take(i as int));
                assert forall|j: int|
                    0 <= j < self.terms@.len() implies #[trigger] self.scratch@[j] == occurrences(
                    toks.take(i + 1),
                    self.terms@[j]@,
                ) by {
                    lemma_occurrences_step(toks, i as int, self.terms@[j]@);
                    if j != id {
                        assert(self.terms.deep_view()[j] != self.terms.deep_view()[id as int]);
                    }
                }
                let tok = tokens@[i as int]@;
                let cur = self.terms.deep_view();
                assert(cur == before || cur == before.push(tok));
                assert(cur[id as int] == tok);
                assert forall|u: Seq<char>| #[trigger]
                    self.terms.deep_view().contains(u) <==> (terms0.contains(u) || toks.take(
                        i + 1,
                    ).contains(u)) by {
                    if before.contains(u) {
                        let k = choose|k: int| 0 <= k < before.len() && before[k] == u;
                        assert(cur[k] == u);
                    }
                    if cur.contains(u) && !before.contains(u) {
                        let k = choose|k: int| 0 <= k < cur.len() && cur[k] == u;
                        if cur == before {
                            assert(before[k] == u);
                        } else if k < before.len() {
                            assert(before[k] == u);
                        }
                        assert(u == tok);
                        assert(toks.take(i + 1)[i as int] == u);
                    }
                    if toks.take(i + 1).contains(u) && !toks.take(i as int).contains(u) {
                        let k = choose|k: int| 0 <= k < i + 1 && #[trigger] toks.take(i + 1)[k] == u;
                        if k < i {
                            assert(toks.take(i as int)[k] == u);
                        }
                        assert(u == tok);
                    }
                    if toks.take(i as int).contains(u) {
                        let k = choose|k: int| 0 <= k < i && #[trigger] toks.take(i as int)[k] == u;
                        assert(toks.take(i + 1)[k] == u);
                    }
                }
                assert(self.terms.deep_view().subrange(0, n0 as int) =~= terms0);
                assert(self.consistent());
            }
            i += 1;
        }
        assert(toks.take(n as int) =~= toks);
        let ghost postings2 = self.postings@;
        let ghost dfs2 = self.doc_freqs@;
        let ghost scratch2 = self.scratch@;
        let ghost terms2 = self.terms.deep_view();
        proof {
            let nt = self.terms@.len();
            assert forall|j: int| 0 <= j < nt implies posting_freq(#[trigger] self.postings@[j]@, doc_id)
                + self.scratch@[j] <= self.doc_lengths@[doc_id as int] by {
                lemma_occurrences_contains(toks, self.terms@[j]@);
                if j < n0 {
                    assert(self.postings@[j] == postings0[j]);
                    let l = postings0[j]@;
                    assert forall|k: int| 0 <= k < l.len() && l[k].0 == doc_id implies l[k].1
                        <= lengths0[doc_id as int] by {
                        assert(old(self).postings@[j]@[k] == l[k]);
                    }
                    if new_doc {
                        assert forall|k: int| 0 <= k < l.len() implies l[k].0 != doc_id by {
                            assert(old(self).postings@[j]@[k] == l[k]);
                        }
                        lemma_posting_absent(l, doc_id);
                    } else {
                        lemma_posting_bounded(l, doc_id, lengths0[doc_id as int] as nat);
                    }
                } else {
                    lemma_posting_absent(self.postings@[j]@, doc_id);
                }
            }
            assert forall|j: int| 0 <= j < nt implies #[trigger] self.doc_freqs@[j] < self.additions by {
                if j < n0 {
                    assert(self.postings@[j] == postings0[j]);
                    assert(self.doc_freqs@[j] == dfs0[j]);
                    assert(old(self).doc_freqs@[j] <= old(self).additions);
                } else {
                    assert(self.postings@[j]@.len() == 0);
                }
            }
            if new_doc {
                assert forall|j: int, k: int|
                    0 <= j < nt && 0 <= k < self.postings@[j]@.len() implies (
                    #[trigger] self.postings@[j]@[k]).0 != doc_id by {
                    if j < n0 {
                        assert(self.postings@[j] == postings0[j]);
                        assert(old(self).postings@[j]@[k] == self.postings@[j]@[k]);
                    }
                }
            }
        }
        self.merge_counts(doc_id, new_doc, &touched);
        proof {
            let o = *old(self);
            assert(self.terms.deep_view() == terms2);
            assert forall|t: Seq<char>, d: Seq<char>| #[trigger]
                self.freq(t, d) == o.freq(t, d) + (if d == name@ {
                    occurrences(toks, t)
                } else {
                    0nat
                }) by {
                lemma_occurrences_contains(toks, t);
                if self.term_ids@.contains_key(t) {
                    self.lemma_term_slot(t);
                    let j = self.term_ids@[t] as int;
                    assert(scratch2[j] == occurrences(toks, t));
                    if o.term_ids@.contains_key(t) {
                        o.lemma_term_slot(t);
                        let j0 = o.term_ids@[t] as int;
                        assert(terms2[j0] == terms0[j0]);
                        self.lemma_term_at(j0);
                        assert(self.terms@[j0]@ == terms2[j0]);
                        assert(j == j0);
                        assert(postings2[j] == o.postings@[j]);
                    } else {
                        if j < n0 {
                            assert(terms2[j] == terms0[j]);
                            o.lemma_term_at(j);
                        }
                        assert(postings2[j]@.len() == 0);
                    }
                    if self.doc_ids@.contains_key(d) {
                        self.lemma_doc_slot(d);
                        let x = self.doc_ids@[d];
                        if d == name@ {
                            assert(x == doc_id);
                            if new_doc {
                                if j < n0 {
                                    assert forall|k: int| 0 <= k < postings2[j]@.len() implies postings2[j]@[k].0 != doc_id by {
                                        assert(o.postings@[j]@[k] == postings2[j]@[k]);
                                    }
                                }
                                lemma_posting_absent(postings2[j]@, doc_id);
                            }
                        } else {
                            assert(o.doc_ids@.contains_key(d));
                            assert(o.doc_ids@[d] == x);
                            if x == doc_id {
                                assert(self.docs@[x as int]@ == name@);
                            }
                            if j >= n0 {
                                lemma_posting_absent(postings2[j]@, x);
                            }
                        }
                    } else {
                        assert(self.docs.deep_view().contains(name@)) by {
                            assert(self.docs.deep_view()[doc_id as int] == name@);
                        }
                        if o.doc_ids@.contains_key(d) {
                            assert(self.doc_ids@.contains_key(d));
                        }
                    }
                } else {
                    assert(!o.terms.deep_view().contains(t));
                    assert(!toks.contains(t));
                    if o.term_ids@.contains_key(t) {
                        assert(o.terms.deep_view().contains(t));
                    }
                }
            }
            assert forall|t: Seq<char>| #[trigger]
                self.doc_freq(t) == o.doc_freq(t) + (if toks.contains(t) {
                    1nat
                } else {
                    0nat
                }) by {
                lemma_occurrences_contains(toks, t);
                if self.term_ids@.contains_key(t) {
                    self.lemma_term_slot(t);
                    let j = self.term_ids@[t] as int;
                    assert(scratch2[j] == occurrences(toks, t));
                    if o.term_ids@.contains_key(t) {
                        o.lemma_term_slot(t);
                        let j0 = o.term_ids@[t] as int;
                        assert(terms2[j0] == terms0[j0]);
                        self.lemma_term_at(j0);
                        assert(self.terms@[j0]@ == terms2[j0]);
                        assert(j == j0);
                        assert(postings2[j] == postings0[j]);
                        assert(dfs2[j] == dfs0[j]);
                    } else {
                        if j < n0 {
                            assert(terms2[j] == terms0[j]);
                            o.lemma_term_at(j);
                        }
                        assert(postings2[j]@.len() == 0);
                        assert(dfs2[j] == 0);
                    }
                } else {
                    if o.term_ids@.contains_key(t) {
                        assert(o.terms.deep_view().contains(t));
                    }
                }
            }
            assert forall|d: Seq<char>| #[trigger]
                self.doc_len(d) == o.doc_len(d) + (if d == name@ {
                    n as nat
                } else {
                    0nat
                }) by {
                if self.doc_ids@.contains_key(d) {
                    self.lemma_doc_slot(d);
                    let x = self.doc_ids@[d];
                    if d != name@ {
                        assert(o.doc_ids@.contains_key(d));
                        if x == doc_id {
                            assert(self.docs@[x as int]@ == name@);
                        }
                    }
                } else {
                    assert(self.docs.deep_view().contains(name@)) by {
                        assert(self.docs.deep_view()[doc_id as int] == name@);
                    }
                    if o.doc_ids@.contains_key(d) {
                        assert(self.doc_ids@.contains_key(d));
                    }
                }
            }
        }
    }

    /// Moves the counters of the touched terms into their posting lists
    /// under document `doc_id` and clears them.
    fn merge_counts(&mut self, doc_id: usize, new_doc: bool, touched: &Vec<usize>)
        requires
            old(self).consistent(),
            doc_id < old(self).docs@.len(),
            new_doc ==> forall|j: int, k: int|
                0 <= j < old(self).postings@.len() && 0 <= k < old(self).postings@[j]@.len()
                    ==> (#[trigger] old(self).postings@[j]@[k]).0 != doc_id,
            forall|a: int, b: int| 0 <= a < b < touched@.len() ==> touched@[a] != touched@[b],
            forall|a: int| 0 <= a < touched@.len() ==> touched@[a] < old(self).terms@.len(),
            forall|j: int|
                0 <= j < old(self).terms@.len() ==> (#[trigger] old(self).scratch@[j] > 0
                    <==> touched@.contains(j as usize)),
            forall|j: int|
                0 <= j < old(self).terms@.len() ==> posting_freq(
                    #[trigger] old(self).postings@[j]@,
                    doc_id,
                ) + old(self).scratch@[j] <= old(self).doc_lengths@[doc_id as int],
            forall|j: int|
                0 <= j < old(self).terms@.len() ==> #[trigger] old(self).doc_freqs@[j]
                    < old(self).additions,
        ensures
            final(self).wf(),
            final(self).terms == old(self).terms,
            final(self).term_ids@ == old(self).term_ids@,
            final(self).docs == old(self).docs,
            final(self).doc_ids@ == old(self).doc_ids@,
            final(self).doc_lengths == old(self).doc_lengths,
            final(self).total_tokens == old(self).total_tokens,
            final(self).additions == old(self).additions,
            forall|j: int, x: usize|
                0 <= j < old(self).terms@.len() ==> #[trigger] posting_freq(
                    final(self).postings@[j]@,
                    x,
                ) == posting_freq(old(self).postings@[j]@, x) + (if x == doc_id {
                    old(self).scratch@[j] as nat
                } else {
                    0nat
                }),
            forall|j: int|
                0 <= j < old(self).terms@.len() ==> #[trigger] final(self).doc_freqs@[j]
                    == old(self).doc_freqs@[j] + (if old(self).scratch@[j] > 0 {
                    1int
                } else {
                    0int
                }),
    {
        let ghost postings0 = self.postings@;
        let ghost dfs0 = self.doc_freqs@;
        let ghost scratch0 = self.scratch@;
        let ghost n = self.terms@.len();
        let mut k: usize = 0;
        while k < touched.len()
            invariant
                k <= touched.len(),
                n == self.terms@.len(),
                self.consistent(),
                doc_id < self.docs@.len(),
                self.terms == old(self).terms,
                self.term_ids@ == old(self).term_ids@,
                self.docs == old(self).docs,
                self.doc_ids@ == old(self).doc_ids@,
                self.doc_lengths == old(self).doc_lengths,
                self.total_tokens == old(self).total_tokens,
                self.additions == old(self).additions,
                postings0 == old(self).postings@,
                postings0.len() == n,
                dfs0 == old(self).doc_freqs@,
                scratch0 == old(self).scratch@,
                new_doc ==> forall|j: int, q: int|
                    0 <= j < postings0.len() && 0 <= q < postings0[j]@.len()
                        ==> (#[trigger] postings0[j]@[q]).0 != doc_id,
                forall|a: int, b: int| 0 <= a < b < touched@.len() ==> touched@[a] != touched@[b],
                forall|a: int| 0 <= a < touched@.len() ==> touched@[a] < n,
                forall|j: int|
                    0 <= j < n ==> (#[trigger] scratch0[j] > 0 <==> touched@.contains(j as usize)),
                forall|j: int|
                    0 <= j < n ==> posting_freq(#[trigger] postings0[j]@, doc_id) + scratch0[j]
                        <= self.doc_lengths@[doc_id as int],
                forall|j: int| 0 <= j < n ==> #[trigger] dfs0[j] < self.additions,
                forall|j: int|
                    0 <= j < n ==> merge_step_holds(
                        #[trigger] self.postings@[j]@,
                        self.doc_freqs@[j],
                        self.scratch@[j],
                        postings0[j]@,
                        dfs0[j],
                        scratch0[j],
                        doc_id,
                        touched@.take(k as int).contains(j as usize),
                    ),
            decreases touched.len() - k,
        {
            let id = touched[k];
            proof {
                assert(!touched@.take(k as int).contains(id)) by {
                    if touched@.take(k as int).contains(id) {
                        let a = choose|a: int| 0 <= a < k && #[trigger] touched@.take(k as int)[a] == id;
                        assert(touched@[a] == touched@[k as int]);
                    }
                }
                assert(touched@.contains(id)) by {
                    assert(touched@[k as int] == id);
                }
            }
            let c = self.scratch[id];
            let ghost list0 = self.postings@[id as int]@;
            assert(list0 == postings0[id as int]@);
            let mut list: Vec<(usize, usize)> = Vec::new();
            std::mem::swap(&mut list, &mut self.postings[id]);
            assert(list@ == list0);
            if new_doc {
                proof {
                    assert forall|q: int| 0 <= q < list0.len() implies list0[q].0 != doc_id by {
                        assert(postings0[id as int]@[q] == list0[q]);
                    }
                    lemma_posting_absent(list0, doc_id);
                }
                list.push((doc_id, c));
                proof {
                    assert forall|x: usize| #[trigger] posting_freq(list@, x) == posting_freq(list0, x) + (if x == doc_id {
                        c as nat
                    } else {
                        0nat
                    }) by {
                        lemma_posting_push(list0, (doc_id, c), x);
                    }
                }
            } else {
                let len = list.len();
                let mut p: usize = 0;
                while p < len && list[p].0 != doc_id
                    invariant
                        p <= len,
                        len == list@.len(),
                        forall|q: int| 0 <= q < p ==> (#[trigger] list@[q]).0 != doc_id,
                    decreases len - p,
                {
                    p += 1;
                }
                if p < len {
                    let f = list[p].1;
                    proof {
                        lemma_posting_at(list0, p as int);
                    }
                    list.set(p, (doc_id, f + c));
                    proof {
                        assert forall|x: usize| #[trigger] posting_freq(list@, x) == posting_freq(list0, x) + (if x == doc_id {
                            c as nat
                        } else {
                            0nat
                        }) by {
                            lemma_posting_update(list0, p as int, (f + c) as usize, x);
                        }
                    }
                } else {
                    proof {
                        lemma_posting_absent(list0, doc_id);
                    }
                    list.push((doc_id, c));
                    proof {
                        assert forall|x: usize| #[trigger] posting_freq(list@, x) == posting_freq(list0, x) + (if x == doc_id {
                            c as nat
                        } else {
                            0nat
                        }) by {
                            lemma_posting_push(list0, (doc_id, c), x);
                        }
                    }
                }
            }
            std::mem::swap(&mut list, &mut self.postings[id]);
            let df = self.doc_freqs[id];
            self.doc_freqs.set(id, df + 1);
            self.scratch.set(id, 0);
            proof {
                assert(touched@.take(k + 1) =~= touched@.take(k as int).push(id));
                assert forall|j: int| 0 <= j < n implies merge_step_holds(
                    #[trigger] self.postings@[j]@,
                    self.doc_freqs@[j],
                    self.scratch@[j],
                    postings0[j]@,
                    dfs0[j],
                    scratch0[j],
                    doc_id,
                    touched@.take(k + 1).contains(j as usize),
                ) by {
                    assert(n == self.terms.len());
                    assert(j <= usize::MAX);
                    assert(j as usize == j);
                    if j != id {
                        if touched@.take(k + 1).contains(j as usize) {
                            let a = choose|a: int| 0 <= a < k + 1 && #[trigger] touched@.take(k + 1)[a] == j as usize;
                            assert(touched@.take(k + 1)[k as int] == id);
                            assert(a != k);
                            assert(touched@.take(k as int)[a] == j as usize);
                        }
                        if touched@.take(k as int).contains(j as usize) {
                            let a = choose|a: int| 0 <= a < k && #[trigger] touched@.take(k as int)[a] == j as usize;
                            assert(touched@.take(k + 1)[a] == j as usize);
                        }
                    } else {
                        assert(touched@.take(k + 1)[k as int] == id);
                    }
                }
            }
            k += 1;
        }
        proof {
            assert(touched@.take(touched@.len() as int) =~= touched@);
            assert forall|j: int| 0 <= j < self.scratch@.len() implies #[trigger] self.scratch@[j] == 0 by {
                assert(merge_step_holds(self.postings@[j]@, self.doc_freqs@[j], self.scratch@[j],
                    postings0[j]@, dfs0[j], scratch0[j], doc_id, touched@.contains(j as usize)));
            }
            assert forall|j: int, x: usize|
                0 <= j < n implies #[trigger] posting_freq(self.postings@[j]@, x) == posting_freq(
                postings0[j]@,
                x,
            ) + (if x == doc_id {
                scratch0[j] as nat
            } else {
                0nat
            }) by {
                assert(merge_step_holds(self.postings@[j]@, self.doc_freqs@[j], self.scratch@[j],
                    postings0[j]@, dfs0[j], scratch0[j], doc_id, touched@.contains(j as usize)));
            }
            assert forall|j: int| 0 <= j < n implies #[trigger] self.doc_freqs@[j] == dfs0[j] + (
            if scratch0[j] > 0 {
                1int
            } else {
                0int
            }) by {
                assert(merge_step_holds(self.postings@[j]@, self.doc_freqs@[j], self.scratch@[j],
                    postings0[j]@, dfs0[j], scratch0[j], doc_id, touched@.contains(j as usize)));
            }
        }
    }

    /// Tokenizes `content` and counts it under `name`; leaves the index
    /// unchanged and answers false when its counters would overflow.
    pub fn add_text(&mut self, name: &str, content: &str) -> (added: bool)
        requires
            old(self).wf(),
        ensures
            final(self).wf(),
            added == (old(self).total_tokens() + tokens_of(content@).len() <= usize::MAX
                && old(self).additions() < usize::MAX),
            !added ==> *final(self) == *old(self),
            added ==> forall|t: Seq<char>, d: Seq<char>| #[trigger]
                final(self).freq(t, d) == old(self).freq(t, d) + (if d == name@ {
                    occurrences(tokens_of(content@), t)
                } else {
                    0nat
                }),
            added ==> forall|t: Seq<char>| #[trigger]
                final(self).doc_freq(t) == old(self).doc_freq(t) + (if tokens_of(content@).contains(t) {
                    1nat
                } else {
                    0nat
                }),
            added ==> forall|d: Seq<char>| #[trigger]
                final(self).doc_len(d) == old(self).doc_len(d) + (if d == name@ {
                    tokens_of(content@).len()
                } else {
                    0nat
                }),
            added ==> final(self).documents() == (if old(self).documents().contains(name@) {
                old(self).documents()
            } else {
                old(self).documents().push(name@)
            }),
            added ==> forall|t: Seq<char>| #[trigger]
                final(self).terms().contains(t) <==> (old(self).terms().contains(t)
                    || tokens_of(content@).contains(t)),
            added ==> old(self).terms().len() <= final(self).terms().len(),
            added ==> final(self).terms().subrange(0, old(self).terms().len() as int) == old(self).terms(),
            added ==> final(self).terms().no_duplicates(),
            added ==> final(self).additions() == old(self).additions() + 1,
            added ==> final(self).total_tokens() == old(self).total_tokens() + tokens_of(content@).len(),
    {
        let tokens = tokenize(content);
        if self.total_tokens > usize::MAX - tokens.len() || self.additions == usize::MAX {
            return false;
        }
        self.add_document(name, &tokens);
        true
    }

    /// Every recorded term–document pair with the counts that score it.
    pub fn score_inputs(&self) -> (r: Vec<TermDocStats>)
        requires
            self.wf(),
        ensures
            forall|a: int|
                0 <= a < r@.len() ==> {
                    let e = #[trigger] r@[a];
                    &&& e.freq > 0
                    &&& e.freq == self.freq(e.term@, e.doc@)
                    &&& e.doc_length == self.doc_len(e.doc@)
                    &&& e.doc_freq == self.doc_freq(e.term@)
                },
            forall|t: Seq<char>, d: Seq<char>|
                #[trigger] self.freq(t, d) > 0 ==> exists|a: int|
                    0 <= a < r@.len() && #[trigger] r@[a].term@ == t && r@[a].doc@ == d,
            forall|a: int, b: int|
                0 <= a < b < r@.len() ==> !(r@[a].term@ == r@[b].term@ && r@[a].doc@ == r@[b].doc@),
    {
        let mut out: Vec<TermDocStats> = Vec::new();
        let ghost mut origin: Seq<(int, int)> = seq![];
        let nt = self.terms.len();
        let mut j: usize = 0;
        while j < nt
            invariant
                self.wf(),
                nt == self.terms@.len(),
                j <= nt,
                origin.len() == out@.len(),
                forall|a: int|
                    0 <= a < out@.len() ==> {
                        let (oj, ok) = #[trigger] origin[a];
                        &&& 0 <= oj < j
                        &&& 0 <= ok < self.postings@[oj]@.len()
                        &&& out@[a].term@ == self.terms@[oj]@
                        &&& out@[a].doc@ == self.docs@[self.postings@[oj]@[ok].0 as int]@
                        &&& out@[a].freq == self.postings@[oj]@[ok].1
                        &&& out@[a].doc_length == self.doc_lengths@[self.postings@[oj]@[ok].0 as int]
                        &&& out@[a].doc_freq == self.doc_freqs@[oj]
                    },
                forall|a: int, b: int|
                    0 <= a < b < out@.len() ==> (origin[a].0 < origin[b].0 || (origin[a].0
                        == origin[b].0 && origin[a].1 < origin[b].1)),
                forall|jj: int, kk: int|
                    0 <= jj < j && 0 <= kk < self.postings@[jj]@.len() ==> #[trigger] covered(
                        origin,
                        jj,
                        kk,
                    ),
            decreases nt - j,
        {
            let list = &self.postings[j];
            let mut k: usize = 0;
            while k < list.len()
                invariant
                    self.wf(),
                    nt == self.terms@.len(),
                    j < nt,
                    list@ == self.postings@[j as int]@,
                    k <= list@.len(),
                    origin.len() == out@.len(),
                    forall|a: int|
                        0 <= a < out@.len() ==> {
                            let (oj, ok) = #[trigger] origin[a];
                            &&& 0 <= oj <= j
                            &&& oj == j ==> ok < k
                            &&& 0 <= ok < self.postings@[oj]@.len()
                            &&& out@[a].term@ == self.terms@[oj]@
                            &&& out@[a].doc@ == self.docs@[self.postings@[oj]@[ok].0 as int]@
                            &&& out@[a].freq == self.postings@[oj]@[ok].1
                            &&& out@[a].doc_length == self.doc_lengths@[self.postings@[oj]@[ok].0 as int]
                            &&& out@[a].doc_freq == self.doc_freqs@[oj]
                        },
                    forall|a: int, b: int|
                        0 <= a < b < out@.len() ==> (origin[a].0 < origin[b].0 || (origin[a].0
                            == origin[b].0 && origin[a].1 < origin[b].1)),
                    forall|jj: int, kk: int|
                        (0 <= jj < j && 0 <= kk < self.postings@[jj]@.len()) || (jj == j && 0 <= kk < k)
                            ==> #[trigger] covered(origin, jj, kk),
                decreases list@.len() - k,
            {
                let (doc, freq) = list[k];
                proof {
                    assert(self.postings@[j as int]@[k as int] == (doc, freq));
                }
                let entry = TermDocStats {
                    term: self.terms[j].clone(),
                    doc: self.docs[doc].clone(),
                    freq,
                    doc_length: self.doc_lengths[doc],
                    doc_freq: self.doc_freqs[j],
                };
                let ghost before = origin;
                out.push(entry);
                proof {
                    origin = origin.push((j as int, k as int));
                    assert forall|jj: int, kk: int|
                        (0 <= jj < j && 0 <= kk < self.postings@[jj]@.len()) || (jj == j && 0 <= kk < k + 1)
                            implies #[trigger] covered(origin, jj, kk) by {
                        if jj == j && kk == k {
                            assert(origin[before.len() as int] == (jj, kk));
                        } else {
                            assert(covered(before, jj, kk));
                            let a = choose|a: int| 0 <= a < before.len() && #[trigger] before[a] == (jj, kk);
                            assert(origin[a] == (jj, kk));
                        }
                    }
                }
                k += 1;
            }
            j += 1;
        }
        proof {
            assert forall|a: int| 0 <= a < out@.len() implies {
                let e = #[trigger] out@[a];
                &&& e.freq > 0
                &&& e.freq == self.freq(e.term@, e.doc@)
                &&& e.doc_length == self.doc_len(e.doc@)
                &&& e.doc_freq == self.doc_freq(e.term@)
            } by {
                let (oj, ok) = origin[a];
                let l = self.postings@[oj]@;
                self.lemma_term_at(oj);
                assert(l[ok].0 < self.docs@.len());
                assert(self.docs.deep_view()[l[ok].0 as int] == self.docs@[l[ok].0 as int]@);
                assert(self.doc_ids@[self.docs@[l[ok].0 as int]@] == l[ok].0);
                assert(self.doc_ids@.contains_key(self.docs@[l[ok].0 as int]@));
                lemma_posting_at(l, ok);
            }
            assert forall|t: Seq<char>, d: Seq<char>|
                #[trigger] self.freq(t, d) > 0 implies exists|a: int|
                    0 <= a < out@.len() && #[trigger] out@[a].term@ == t && out@[a].doc@ == d by {
                self.lemma_term_slot(t);
                self.lemma_doc_slot(d);
                let jj = self.term_ids@[t] as int;
                let x = self.doc_ids@[d];
                let l = self.postings@[jj]@;
                if forall|kk: int| 0 <= kk < l.len() ==> l[kk].0 != x {
                    lemma_posting_absent(l, x);
                }
                let kk = choose|kk: int| 0 <= kk < l.len() && l[kk].0 == x;
                assert(covered(origin, jj, kk));
                let a = choose|a: int| 0 <= a < origin.len() && #[trigger] origin[a] == (jj, kk);
                assert(out@[a].term@ == t);
                assert(out@[a].doc@ == d);
            }
            assert forall|a: int, b: int|
                0 <= a < b < out@.len() implies !(out@[a].term@ == out@[b].term@ && out@[a].doc@ == out@[b].doc@) by {
                let (ja, ka) = origin[a];
                let (jb, kb) = origin[b];
                if out@[a].term@ == out@[b].term@ && out@[a].doc@ == out@[b].doc@ {
                    self.lemma_term_at(ja);
                    self.lemma_term_at(jb);
                    assert(ja == jb);
                    let la = self.postings@[ja]@;
                    let da = la[ka].0 as int;
                    let db = la[kb].0 as int;
                    assert(self.docs.deep_view()[da] == self.docs.deep_view()[db]);
                    assert(da == db);
                    assert(distinct_docs(la));
                    assert(ka == kb);
                }
            }
        }
        out
    }

    /// Laws of every index: a term occurs in a document at most as often as
    /// the document has tokens; a term is in at most as many documents as
    /// were added; there are no more distinct documents than additions; and a
    /// term counted in a document is a known term with a positive document
    /// frequency, and the document a known document.
    pub proof fn lemma_counts_in_range(&self, t: Seq<char>, d: Seq<char>)
        requires
            self.wf(),
        ensures
            self.freq(t, d) <= self.doc_len(d),
            self.doc_len(d) <= self.total_tokens(),
            self.doc_freq(t) <= self.additions(),
            self.documents().len() <= self.additions(),
            self.freq(t, d) > 0 ==> {
                &&& self.doc_freq(t) > 0
                &&& self.terms().contains(t)
                &&& self.documents().contains(d)
            },
    {
        if self.doc_ids@.contains_key(d) {
            self.lemma_doc_slot(d);
        }
        if self.term_ids@.contains_key(t) {
            self.lemma_term_slot(t);
            let j = self.term_ids@[t] as int;
            assert(self.terms.deep_view()[j] == t);
            if self.doc_ids@.contains_key(d) {
                let x = self.doc_ids@[d];
                let l = self.postings@[j]@;
                assert(self.docs.deep_view()[x as int] == d);
                assert forall|k: int| 0 <= k < l.len() && l[k].0 == x implies l[k].1 <= self.doc_lengths@[x as int] by {}
                lemma_posting_bounded(l, x, self.doc_lengths@[x as int] as nat);
                if posting_freq(l, x) > 0 && l.len() == 0 {
                    lemma_posting_absent(l, x);
                }
            }
        }
    }

    /// Counts a list of (name, text) documents into a new index, in order,
    /// stopping before the first one whose tokens would overflow the token
    /// counter; answers the index and how many documents it holds.
    pub fn from_documents(docs: &Vec<(String, String)>) -> (r: (TermIndex, usize))
        ensures
            r.0.wf(),
            r.1 <= docs@.len(),
            r.1 < docs@.len() ==> r.0.total_tokens() + tokens_of(docs@[r.1 as int].1@).len()
                > usize::MAX,
            r.0.additions() == r.1,
            names_distinct(docs_view(docs@)) ==> r.0.documents().len() == r.1,
            forall|t: Seq<char>, d: Seq<char>| #[trigger]
                r.0.freq(t, d) == total_freq(docs_view(docs@).take(r.1 as int), t, d),
            forall|t: Seq<char>| #[trigger]
                r.0.doc_freq(t) == containing_docs(docs_view(docs@).take(r.1 as int), t),
            forall|d: Seq<char>| #[trigger]
                r.0.doc_len(d) == total_len(docs_view(docs@).take(r.1 as int), d),
    {
        let ghost dv = docs_view(docs@);
        let mut index = TermIndex::new();
        let mut i: usize = 0;
        while i < docs.len()
            invariant
                index.wf(),
                i <= docs@.len(),
                dv == docs_view(docs@),
                index.additions() == i,
                names_distinct(dv) ==> index.documents() == dv.take(i as int).map_values(
                    |p: (Seq<char>, Seq<char>)| p.0,
                ),
                forall|t: Seq<char>, d: Seq<char>| #[trigger]
                    index.freq(t, d) == total_freq(dv.take(i as int), t, d),
                forall|t: Seq<char>| #[trigger]
                    index.doc_freq(t) == containing_docs(dv.take(i as int), t),
                forall|d: Seq<char>| #[trigger]
                    index.doc_len(d) == total_len(dv.take(i as int), d),
            decreases docs@.len() - i,
        {
            proof {
                assert(dv.take(i + 1).drop_last() =~= dv.take(i as int));
                assert(dv.take(i + 1).last() == (docs@[i as int].0@, docs@[i as int].1@));
            }
            let ghost before = index.documents();
            if !index.add_text(docs[i].0.as_str(), docs[i].1.as_str()) {
                assert(names_distinct(dv) ==> index.documents().len() == i);
                return (index, i);
            }
            proof {
                if names_distinct(dv) {
                    let names = dv.take(i as int).map_values(|p: (Seq<char>, Seq<char>)| p.0);
                    assert(!before.contains(docs@[i as int].0@)) by {
                        if before.contains(docs@[i as int].0@) {
                            let k = choose|k: int| 0 <= k < before.len() && before[k] == docs@[i as int].0@;
                            assert(names[k] == dv[k].0);
                            assert(dv[i as int].0 == docs@[i as int].0@);
                        }
                    }
                    assert(index.documents() =~= dv.take(i + 1).map_values(|p: (Seq<char>, Seq<char>)| p.0));
                }
            }
            i += 1;
        }
        (index, i)
    }

    /// When every added document has its own name, no term is in more
    /// documents than the index holds: `df <= N` in the scoring formula.
    pub proof fn lemma_doc_freq_at_most_documents(&self, t: Seq<char>)
        requires
            self.wf(),
            self.additions() == self.documents().len(),
        ensures
            self.doc_freq(t) <= self.documents().len(),
    {
        self.lemma_counts_in_range(t, Seq::empty());
    }
}

} // verus!
