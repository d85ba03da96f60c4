//! The non-numeric half of ranked search: which documents a query reaches,
//! which stored scores each document collects (one per query term, repeats
//! included, in query order), and how many distinct query terms it matches.
//! The scores themselves are floating-point values that the caller keeps in a
//! table; this index refers to them by their slot in that table.
use vstd::prelude::*;
use vstd::hash_map::StringHashMap;
use vstd::string::StringExecFns;
use crate::text::str_eq;

verus! {

broadcast use vstd::hash_map::group_hash_map_axioms;

/// The documents of a posting list, each once.
pub open spec fn distinct_doc_names(list: Seq<(Seq<char>, usize)>) -> bool {
    forall|a: int, b: int| 0 <= a < b < list.len() ==> list[a].0 != list[b].0
}

/// The slot stored for document `d` in a posting list.
pub open spec fn slot_in(list: Seq<(Seq<char>, usize)>, d: Seq<char>) -> Option<usize> {
    if exists|k: int| 0 <= k < list.len() && list[k].0 == d {
        Some(list[choose|k: int| 0 <= k < list.len() && list[k].0 == d].1)
    } else {
        None
    }
}

proof fn lemma_slot_in_at(list: Seq<(Seq<char>, usize)>, k: int)
    requires
        distinct_doc_names(list),
        0 <= k < list.len(),
    ensures
        slot_in(list, list[k].0) == Some(list[k].1),
{
    let c = choose|c: int| 0 <= c < list.len() && list[c].0 == list[k].0;
    assert(c == k);
}

proof fn lemma_slot_in_same(l0: Seq<(Seq<char>, usize)>, l1: Seq<(Seq<char>, usize)>, d: Seq<char>)
    requires
        distinct_doc_names(l0),
        distinct_doc_names(l1),
        forall|k: int| 0 <= k < l0.len() && l0[k].0 == d ==> k < l1.len() && l1[k] == l0[k],
        forall|k: int| 0 <= k < l1.len() && l1[k].0 == d ==> k < l0.len() && l0[k] == l1[k],
    ensures
        slot_in(l0, d) == slot_in(l1, d),
{
    if exists|k: int| 0 <= k < l0.len() && l0[k].0 == d {
        let k = choose|k: int| 0 <= k < l0.len() && l0[k].0 == d;
        assert(l1[k].0 == d);
        let c = choose|c: int| 0 <= c < l1.len() && l1[c].0 == d;
        assert(l0[c].0 == d);
    } else if exists|k: int| 0 <= k < l1.len() && l1[k].0 == d {
        let k = choose|k: int| 0 <= k < l1.len() && l1[k].0 == d;
        assert(l0[k].0 == d);
    }
}

/// The slots a document collects from the query terms `q`, in query order.
pub open spec fn slots_for(idx: ScoreIndex, q: Seq<Seq<char>>, d: Seq<char>) -> Seq<usize>
    decreases q.len(),
{
    if q.len() == 0 {
        seq![]
    } else {
        slots_for(idx, q.drop_last(), d) + match idx.slot_of(q.last(), d) {
            Some(s) => seq![s],
            None => seq![],
        }
    }
}

/// The number of distinct terms of `q` that occur in document `d`.
pub open spec fn matched_for(idx: ScoreIndex, q: Seq<Seq<char>>, d: Seq<char>) -> nat
    decreases q.len(),
{
    if q.len() == 0 {
        0
    } else {
        matched_for(idx, q.drop_last(), d) + (if idx.slot_of(q.last(), d) is Some
            && !q.drop_last().contains(q.last()) {
            1nat
        } else {
            0nat
        })
    }
}

/// Some term of `q` occurs in document `d`.
pub open spec fn reached(idx: ScoreIndex, q: Seq<Seq<char>>, d: Seq<char>) -> bool {
    exists|i: int| 0 <= i < q.len() && (#[trigger] idx.slot_of(q[i], d)) is Some
}

/// Some entry before position `k` of a posting list names document `d`.
pub open spec fn in_prefix(list: Seq<(Seq<char>, usize)>, k: int, d: Seq<char>) -> bool {
    exists|j: int| 0 <= j < k && #[trigger] list[j].0 == d
}

proof fn lemma_unreached(idx: ScoreIndex, q: Seq<Seq<char>>, d: Seq<char>)
    requires
        !reached(idx, q, d),
    ensures
        slots_for(idx, q, d) == Seq::<usize>::empty(),
        matched_for(idx, q, d) == 0,
    decreases q.len(),
{
    if q.len() > 0 {
        assert(!reached(idx, q.drop_last(), d)) by {
            if reached(idx, q.drop_last(), d) {
                let i = choose|i: int| 0 <= i < q.drop_last().len() && (#[trigger] idx.slot_of(q.drop_last()[i], d)) is Some;
                assert(q[i] == q.drop_last()[i]);
            }
        }
        assert(idx.slot_of(q[q.len() - 1], d) is None);
        lemma_unreached(idx, q.drop_last(), d);
    }
}

proof fn lemma_matched_bound(idx: ScoreIndex, q: Seq<Seq<char>>, d: Seq<char>)
    ensures
        matched_for(idx, q, d) <= q.len(),
    decreases q.len(),
{
    if q.len() > 0 {
        lemma_matched_bound(idx, q.drop_last(), d);
    }
}

proof fn lemma_reached_step(idx: ScoreIndex, q: Seq<Seq<char>>, i: int, d: Seq<char>)
    requires
        0 <= i < q.len(),
    ensures
        reached(idx, q.take(i + 1), d) == (reached(idx, q.take(i), d) || idx.slot_of(q[i], d) is Some),
{
    if reached(idx, q.take(i + 1), d) {
        let j = choose|j: int| 0 <= j < i + 1 && (#[trigger] idx.slot_of(q.take(i + 1)[j], d)) is Some;
        if j < i {
            assert(q.take(i)[j] == q[j]);
        }
    }
    if reached(idx, q.take(i), d) {
        let j = choose|j: int| 0 <= j < i && (#[trigger] idx.slot_of(q.take(i)[j], d)) is Some;
        assert(q.take(i + 1)[j] == q[j]);
    }
    if idx.slot_of(q[i], d) is Some {
        assert(q.take(i + 1)[i] == q[i]);
    }
}

/// For each term, the documents it occurs in and the slot of the score of
/// that term in that document.
pub struct ScoreIndex {
    term_ids: StringHashMap<usize>,
    terms: Vec<String>,
    postings: Vec<Vec<(String, usize)>>,
}

/// What a query collects for one document.
#[derive(Debug)]
pub struct DocHits {
    pub doc: String,
    /// The slots of the scores to add up, in query order.
    pub slots: Vec<usize>,
    /// How many distinct query terms occur in the document.
    pub matched: usize,
}

impl ScoreIndex {
    pub closed spec fn wf(&self) -> bool {
        &&& self.postings@.len() == self.terms@.len()
        &&& self.terms.deep_view().no_duplicates()
        &&& forall|t: Seq<char>| #[trigger]
            self.term_ids@.contains_key(t) <==> self.terms.deep_view().contains(t)
        &&& forall|i: int|
            0 <= i < self.terms@.len() ==> self.term_ids@[#[trigger] self.terms@[i]@] == i
        &&& forall|i: int|
            0 <= i < self.terms@.len() ==> distinct_doc_names(#[trigger] self.postings@[i].deep_view())
    }

    /// The posting list of term `t` (empty when the term is unknown).
    pub closed spec fn postings_of(&self, t: Seq<char>) -> Seq<(Seq<char>, usize)> {
        if self.term_ids@.contains_key(t) {
            self.postings@[self.term_ids@[t] as int].deep_view()
        } else {
            seq![]
        }
    }

    /// The slot of the score of term `t` in document `d`, if any.
    pub open spec fn slot_of(&self, t: Seq<char>, d: Seq<char>) -> Option<usize> {
        slot_in(self.postings_of(t), d)
    }

    pub fn new() -> (r: Self)
        ensures
            r.wf(),
            forall|t: Seq<char>, d: Seq<char>| r.slot_of(t, d) is None,
    {
        let r = ScoreIndex { term_ids: StringHashMap::new(), terms: Vec::new(), postings: Vec::new() };
        assert(r.terms.deep_view() =~= Seq::<Seq<char>>::empty());
        r
    }

    proof fn lemma_slot(&self, t: Seq<char>)
        requires
            self.wf(),
            self.term_ids@.contains_key(t),
        ensures
            0 <= self.term_ids@[t] < self.terms@.len(),
            self.terms@[self.term_ids@[t] as int]@ == t,
    {
        assert(self.terms.deep_view().contains(t));
        let k = choose|k: int| 0 <= k < self.terms.deep_view().len() && self.terms.deep_view()[k] == t;
        assert(self.terms@[k]@ == t);
    }

    /// Records the slot of the score of `term` in `doc`, replacing an earlier one.
    pub fn insert(&mut self, term: &str, doc: &str, slot: usize)
        requires
            old(self).wf(),
        ensures
            final(self).wf(),
            forall|t: Seq<char>, d: Seq<char>| #[trigger]
                final(self).slot_of(t, d) == (if t == term@ && d == doc@ {
                    Some(slot)
                } else {
                    old(self).slot_of(t, d)
                }),
    {
        let id = match self.term_ids.get(term) {
            Some(id) => {
                proof {
                    self.lemma_slot(term@);
                }
                *id
            },
            None => {
                let id = self.terms.len();
                let ghost old_terms = self.terms.deep_view();
                let owned = String::from_str(term);
                self.terms.push(owned.clone());
                self.postings.push(Vec::new());
                self.term_ids.insert(owned, id);
                assert(self.terms.deep_view() =~= old_terms.push(term@));
                assert forall|i: int| 0 <= i < self.terms@.len() implies self.term_ids@[
                    #[trigger] self.terms@[i]@] == i by {
                    if i < id {
                        assert(old_terms[i] == self.terms@[i]@);
                        assert(old_terms[i] != term@);
                    }
                }
                assert forall|u: Seq<char>| #[trigger]
                    self.term_ids@.contains_key(u) <==> self.terms.deep_view().contains(u) by {
                    if u == term@ {
                        assert(self.terms.deep_view()[id as int] == u);
                    } else if old_terms.contains(u) {
                        let k = choose|k: int| 0 <= k < old_terms.len() && old_terms[k] == u;
                        assert(self.terms.deep_view()[k] == u);
                    } else if self.terms.deep_view().contains(u) {
                        let k = choose|k: int|
                            0 <= k < self.terms.deep_view().len() && self.terms.deep_view()[k] == u;
                        assert(old_terms[k] == u);
                    }
                }
                assert forall|i: int| 0 <= i < self.terms@.len() implies distinct_doc_names(
                    #[trigger] self.postings@[i].deep_view(),
                ) by {
                    if i == id {
                        assert(self.postings@[i].deep_view() =~= Seq::<(Seq<char>, usize)>::empty());
                    }
                }
                proof {
                    assert forall|t: Seq<char>| t != term@ implies #[trigger] self.postings_of(t)
                        == old(self).postings_of(t) by {
                        if self.term_ids@.contains_key(t) {
                            self.lemma_slot(t);
                            old(self).lemma_slot(t);
                        }
                    }
                }
                id
            },
        };
        let ghost mid = *self;
        let ghost list0 = self.postings@[id as int].deep_view();
        let mut list: Vec<(String, usize)> = Vec::new();
        std::mem::swap(&mut list, &mut self.postings[id]);
        assert(list.deep_view() == list0);
        let n = list.len();
        let mut k: usize = 0;
        while k < n && !str_eq(list[k].0.as_str(), doc)
            invariant
                n == list@.len(),
                k <= n,
                list.deep_view() == list0,
                forall|q: int| 0 <= q < k ==> (#[trigger] list0[q]).0 != doc@,
            decreases n - k,
        {
            assert(list0[k as int].0 == list@[k as int].0@);
            k += 1;
        }
        if k < n {
            assert(list0[k as int].0 == list@[k as int].0@);
            let name = list[k].0.clone();
            list.set(k, (name, slot));
            assert(list.deep_view() =~= list0.update(k as int, (doc@, slot)));
        } else {
            list.push((String::from_str(doc), slot));
            assert(list.deep_view() =~= list0.push((doc@, slot)));
        }
        let ghost list1 = list.deep_view();
        assert(distinct_doc_names(list0));
        assert(distinct_doc_names(list1)) by {
            assert forall|a: int, b: int| 0 <= a < b < list1.len() implies list1[a].0 != list1[b].0 by {
                if b == k {
                    assert(list1[a] == list0[a]);
                } else if a == k {
                    assert(list1[b] == list0[b]);
                } else {
                    assert(list1[a] == list0[a]);
                    assert(list1[b] == list0[b]);
                }
            }
        }
        std::mem::swap(&mut list, &mut self.postings[id]);
        proof {
            assert(self.postings@[id as int].deep_view() == list1);
            assert forall|i: int| 0 <= i < self.terms@.len() implies distinct_doc_names(
                #[trigger] self.postings@[i].deep_view(),
            ) by {
                if i != id {
                    assert(self.postings@[i] == mid.postings@[i]);
                }
            }
            lemma_slot_in_at(list1, k as int);
            assert forall|t: Seq<char>, d: Seq<char>| #[trigger]
                self.slot_of(t, d) == (if t == term@ && d == doc@ {
                    Some(slot)
                } else {
                    old(self).slot_of(t, d)
                }) by {
                if t == term@ {
                    mid.lemma_slot(t);
                    assert(self.term_ids@[t] == id);
                    if d != doc@ {
                        lemma_slot_in_same(list0, list1, d);
                        assert(mid.postings_of(t) == list0);
                    }
                } else {
                    assert(mid.postings_of(t) == old(self).postings_of(t));
                    if self.term_ids@.contains_key(t) {
                        mid.lemma_slot(t);
                        mid.lemma_slot(term@);
                        assert(self.term_ids@[t] != id);
                        assert(self.postings@[self.term_ids@[t] as int] == mid.postings@[self.term_ids@[t] as int]);
                    }
                }
            }
        }
    }

    /// Plans a ranked search for the query terms `query`: every document that
    /// some term reaches, once, with the slots of its scores and its number of
    /// distinct matching terms.
    pub fn plan(&self, query: &Vec<String>) -> (r: Vec<DocHits>)
        requires
            self.wf(),
        ensures
            forall|a: int|
                0 <= a < r@.len() ==> {
                    let h = #[trigger] r@[a];
                    &&& h.slots@ == slots_for(*self, query.deep_view(), h.doc@)
                    &&& h.matched == matched_for(*self, query.deep_view(), h.doc@)
                    &&& reached(*self, query.deep_view(), h.doc@)
                },
            forall|d: Seq<char>|
                reached(*self, query.deep_view(), d) ==> exists|a: int|
                    0 <= a < r@.len() && #[trigger] r@[a].doc@ == d,
            forall|a: int, b: int| 0 <= a < b < r@.len() ==> r@[a].doc@ != r@[b].doc@,
    {
        let ghost q = query.deep_view();
        let mut out: Vec<DocHits> = Vec::new();
        let mut pos: StringHashMap<usize> = StringHashMap::new();
        let mut i: usize = 0;
        while i < query.len()
            invariant
                self.wf(),
                q == query.deep_view(),
                i <= query.len(),
                forall|a: int|
                    0 <= a < out@.len() ==> {
                        let h = #[trigger] out@[a];
                        &&& h.slots@ == slots_for(*self, q.take(i as int), h.doc@)
                        &&& h.matched == matched_for(*self, q.take(i as int), h.doc@)
                        &&& reached(*self, q.take(i as int), h.doc@)
                        &&& pos@.contains_key(h.doc@)
                        &&& pos@[h.doc@] == a
                    },
                forall|d: Seq<char>| #[trigger] pos@.contains_key(d) ==> reached(*self, q.take(i as int), d)
                    && pos@[d] < out@.len() && out@[pos@[d] as int].doc@ == d,
                forall|d: Seq<char>| reached(*self, q.take(i as int), d) ==> #[trigger] pos@.contains_key(d),
            decreases query.len() - i,
        {
            let ghost qi = q.take(i as int);
            proof {
                assert(q.take(i + 1).drop_last() =~= qi);
                assert(q.take(i + 1).last() == q[i as int]);
            }
            let mut first = true;
            let mut j: usize = 0;
            while j < i
                invariant
                    j <= i < query.len(),
                    q == query.deep_view(),
                    first == !q.take(j as int).contains(q[i as int]),
                decreases i - j,
            {
                let ghost x = q[i as int];
                proof {
                    assert(q.take(j + 1) =~= q.take(j as int).push(q[j as int]));
                    assert(query@[j as int]@ == q[j as int]);
                    assert(query@[i as int]@ == x);
                    if q.take(j + 1).contains(x) && !q.take(j as int).contains(x) {
                        let w = choose|w: int| 0 <= w < j + 1 && #[trigger] q.take(j + 1)[w] == x;
                        if w < j {
                            assert(q.take(j as int)[w] == x);
                        }
                    }
                    if q.take(j as int).contains(x) {
                        let w = choose|w: int| 0 <= w < j && #[trigger] q.take(j as int)[w] == x;
                        assert(q.take(j + 1)[w] == x);
                    }
                    if q[j as int] == x {
                        assert(q.take(j + 1)[j as int] == x);
                    }
                }
                if str_eq(query[j].as_str(), query[i].as_str()) {
                    first = false;
                }
                j += 1;
            }
            let ghost term = q[i as int];
            assert(query@[i as int]@ == term);
            match self.term_ids.get(query[i].as_str()) {
                None => {
                    proof {
                        assert forall|d: Seq<char>| #[trigger] self.slot_of(term, d) is None by {
                            assert(self.postings_of(term) =~= Seq::<(Seq<char>, usize)>::empty());
                        }
                        assert forall|a: int| 0 <= a < out@.len() implies {
                            let h = #[trigger] out@[a];
                            &&& h.slots@ == slots_for(*self, q.take(i + 1), h.doc@)
                            &&& h.matched == matched_for(*self, q.take(i + 1), h.doc@)
                            &&& reached(*self, q.take(i + 1), h.doc@)
                        } by {
                            lemma_reached_step(*self, q, i as int, out@[a].doc@);
                            assert(slots_for(*self, q.take(i + 1), out@[a].doc@) =~= slots_for(*self, qi, out@[a].doc@));
                        }
                        assert forall|d: Seq<char>| #[trigger] reached(*self, q.take(i + 1), d) == reached(*self, qi, d) by {
                            lemma_reached_step(*self, q, i as int, d);
                        }
                    }
                },
                Some(id) => {
                    let id = *id;
                    proof {
                        self.lemma_slot(term);
                    }
                    let list = &self.postings[id];
                    let ghost l = list.deep_view();
                    assert(l == self.postings_of(term));
                    assert(distinct_doc_names(l));
                    let mut k: usize = 0;
                    while k < list.len()
                        invariant
                            self.wf(),
                            q == query.deep_view(),
                            i < query.len(),
                            qi == q.take(i as int),
                            l == list.deep_view(),
                            l == self.postings_of(term),
                            distinct_doc_names(l),
                            first == !qi.contains(term),
                            k <= list@.len(),
                            forall|a: int|
                                0 <= a < out@.len() ==> {
                                    let h = #[trigger] out@[a];
                                    &&& h.slots@ == slots_for(*self, qi, h.doc@) + (if in_prefix(l, k as int, h.doc@) {
                                        seq![slot_in(l, h.doc@)->0]
                                    } else {
                                        Seq::<usize>::empty()
                                    })
                                    &&& h.matched == matched_for(*self, qi, h.doc@) + (if in_prefix(l, k as int, h.doc@) && first {
                                        1nat
                                    } else {
                                        0nat
                                    })
                                    &&& (reached(*self, qi, h.doc@) || in_prefix(l, k as int, h.doc@))
                                    &&& pos@.contains_key(h.doc@)
                                    &&& pos@[h.doc@] == a
                                },
                            forall|d: Seq<char>| #[trigger] pos@.contains_key(d) ==> (reached(*self, qi, d)
                                || in_prefix(l, k as int, d)) && pos@[d] < out@.len() && out@[pos@[d] as int].doc@ == d,
                            forall|d: Seq<char>| (reached(*self, qi, d) || in_prefix(l, k as int, d))
                                ==> #[trigger] pos@.contains_key(d),
                        decreases list@.len() - k,
                    {
                        let doc = &list[k].0;
                        let slot = list[k].1;
                        let ghost dv = doc@;
                        proof {
                            assert(l[k as int] == (dv, slot));
                            lemma_slot_in_at(l, k as int);
                            assert(!in_prefix(l, k as int, dv)) by {
                                if in_prefix(l, k as int, dv) {
                                    let j = choose|j: int| 0 <= j < k && #[trigger] l[j].0 == dv;
                                    assert(l[j].0 != l[k as int].0);
                                }
                            }
                            assert forall|d: Seq<char>| #[trigger] in_prefix(l, k + 1, d) == (in_prefix(l, k as int, d) || d == dv) by {
                                if in_prefix(l, k + 1, d) {
                                    let j = choose|j: int| 0 <= j < k + 1 && #[trigger] l[j].0 == d;
                                    if j < k {
                                        assert(in_prefix(l, k as int, d));
                                    }
                                }
                                if d == dv {
                                    assert(l[k as int].0 == d);
                                }
                                if in_prefix(l, k as int, d) {
                                    let j = choose|j: int| 0 <= j < k && #[trigger] l[j].0 == d;
                                    assert(l[j].0 == d);
                                }
                            }
                        }
                        match pos.get(doc.as_str()) {
                            Some(p) => {
                                let p = *p;
                                let ghost before = out@;
                                proof {
                                    lemma_matched_bound(*self, qi, dv);
                                }
                                let mut h = DocHits { doc: String::new(), slots: Vec::new(), matched: 0 };
                                std::mem::swap(&mut h, &mut out[p]);
                                h.slots.push(slot);
                                if first {
                                    h.matched = h.matched + 1;
                                }
                                std::mem::swap(&mut h, &mut out[p]);
                                proof {
                                    assert forall|a: int| 0 <= a < out@.len() && a != p implies #[trigger] out@[a] == before[a] by {}
                                    assert(out@[p as int].slots@ =~= slots_for(*self, qi, dv) + seq![slot]);
                                }
                            },
                            None => {
                                proof {
                                    lemma_unreached(*self, qi, dv);
                                }
                                let mut slots: Vec<usize> = Vec::new();
                                slots.push(slot);
                                let h = DocHits {
                                    doc: doc.clone(),
                                    slots,
                                    matched: if first { 1 } else { 0 },
                                };
                                pos.insert(doc.clone(), out.len());
                                out.push(h);
                                proof {
                                    assert(out@[out@.len() - 1].slots@ =~= slots_for(*self, qi, dv) + seq![slot]);
                                }
                            },
                        }
                        k += 1;
                    }
                    proof {
                        assert forall|d: Seq<char>| #[trigger] in_prefix(l, l.len() as int, d) == (self.slot_of(term, d) is Some) by {
                            if in_prefix(l, l.len() as int, d) {
                                let j = choose|j: int| 0 <= j < l.len() && #[trigger] l[j].0 == d;
                                assert(l[j].0 == d);
                            }
                        }
                        assert forall|a: int| 0 <= a < out@.len() implies {
                            let h = #[trigger] out@[a];
                            &&& h.slots@ == slots_for(*self, q.take(i + 1), h.doc@)
                            &&& h.matched == matched_for(*self, q.take(i + 1), h.doc@)
                            &&& reached(*self, q.take(i + 1), h.doc@)
                        } by {
                            let d = out@[a].doc@;
                            lemma_reached_step(*self, q, i as int, d);
                            assert(in_prefix(l, l.len() as int, d) == (self.slot_of(term, d) is Some));
                        }
                        assert forall|d: Seq<char>| #[trigger] reached(*self, q.take(i + 1), d) == (reached(*self, qi, d) || in_prefix(l, l.len() as int, d)) by {
                            lemma_reached_step(*self, q, i as int, d);
                            assert(in_prefix(l, l.len() as int, d) == (self.slot_of(term, d) is Some));
                        }
                    }
                },
            }
            i += 1;
        }
        proof {
            assert(q.take(query.len() as int) =~= q);
            assert forall|d: Seq<char>| reached(*self, q, d) implies exists|a: int|
                0 <= a < out@.len() && #[trigger] out@[a].doc@ == d by {
                assert(pos@.contains_key(d));
                assert(out@[pos@[d] as int].doc@ == d);
            }
            assert forall|a: int, b: int| 0 <= a < b < out@.len() implies out@[a].doc@ != out@[b].doc@ by {
                assert(pos@[out@[a].doc@] == a);
                assert(pos@[out@[b].doc@] == b);
            }
        }
        out
    }
}

/// A document that a query reaches matches between one and as many distinct
/// terms as it collects scores, and collects at most one score per query
/// term; a document it does not reach collects nothing.
pub proof fn lemma_hit_counts(idx: ScoreIndex, q: Seq<Seq<char>>, d: Seq<char>)
    ensures
        reached(idx, q, d) ==> 1 <= matched_for(idx, q, d),
        matched_for(idx, q, d) <= slots_for(idx, q, d).len() <= q.len(),
        !reached(idx, q, d) ==> slots_for(idx, q, d) == Seq::<usize>::empty() && matched_for(idx, q, d) == 0,
    decreases q.len(),
{
    if q.len() == 0 {
    } else {
        let p = q.drop_last();
        lemma_hit_counts(idx, p, d);
        if !reached(idx, q, d) {
            lemma_unreached(idx, q, d);
        }
        if reached(idx, q, d) && !reached(idx, p, d) {
            let i = choose|i: int| 0 <= i < q.len() && (#[trigger] idx.slot_of(q[i], d)) is Some;
            if i < q.len() - 1 {
                assert(p[i] == q[i]);
            }
            assert(idx.slot_of(q.last(), d) is Some);
            if p.contains(q.last()) {
                let j = choose|j: int| 0 <= j < p.len() && p[j] == q.last();
                assert(idx.slot_of(p[j], d) is Some);
            }
        }
    }
}

} // verus!
